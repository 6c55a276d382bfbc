use vstd::prelude::*;
use crate::ancestor::{lemma_disjoint_lines_have_no_common_ancestor, linear_and_disjoint, result_view};
use crate::merge::{contents_merged, contents_merged_with, merge_commits_contents};
use crate::store::{
    commit_at, is_commit_at, placed_at, store_wf, with_value, ContentStore,
};
use crate::types::{
    Address, Commit, CommitContent, CommitModel, Entry, EntryModel, ErrorModel, VcError,
};

verus! {

pub open spec fn commit_model(
    author: Seq<char>,
    message: Seq<char>,
    timestamp: u128,
    content: Address,
    parents: Seq<Address>,
) -> CommitModel {
    CommitModel { author, message, timestamp, content, parents }
}

pub open spec fn parents_present(s: Seq<EntryModel>, parents: Seq<Address>) -> bool {
    forall|j: int| 0 <= j < parents.len() ==> is_commit_at(s, #[trigger] parents[j])
}

/// Creating commit `c` in store `s` gave `r` and left the store `t`: the
/// commit is stored (once) when all its parents are commits of `s`;
/// otherwise the first parent that is not fails with `NotFound`.
pub open spec fn commit_created(
    s: Seq<EntryModel>,
    c: CommitModel,
    r: Result<Address, ErrorModel>,
    t: Seq<EntryModel>,
) -> bool {
    if parents_present(s, c.parents) {
        &&& t == with_value(s, EntryModel::Commit(c))
        &&& r is Ok
        &&& placed_at(t, EntryModel::Commit(c), r->Ok_0)
    } else {
        &&& t == s
        &&& exists|j: int|
            0 <= j < c.parents.len() && !is_commit_at(s, #[trigger] c.parents[j]) && (forall|k: int|
                0 <= k < j ==> is_commit_at(s, c.parents[k])) && r == Err::<Address, ErrorModel>(
                ErrorModel::NotFound(c.parents[j]),
            )
    }
}

/// Stores a commit with the given fields and returns its address. Equal
/// fields give the same address; every parent must be a stored commit.
pub fn create_commit(
    store: &mut ContentStore,
    author_id: &String,
    message: &String,
    timestamp: u128,
    content_address: Address,
    parent_commits: &Vec<Address>,
) -> (r: Result<Address, VcError>)
    requires
        old(store).wf(),
    ensures
        final(store).wf(),
        commit_created(
            old(store)@,
            commit_model(author_id@, message@, timestamp, content_address, parent_commits@),
            result_view(r),
            final(store)@,
        ),
{
    let mut j: usize = 0;
    while j < parent_commits.len()
        invariant
            j <= parent_commits@.len(),
            store@ == old(store)@,
            store_wf(store@),
            forall|k: int| 0 <= k < j ==> is_commit_at(store@, #[trigger] parent_commits@[k]),
        decreases parent_commits@.len() - j,
    {
        match store.get_commit(parent_commits[j]) {
            Ok(_) => {},
            Err(e) => {
                proof {
                    assert(!is_commit_at(store@, parent_commits@[j as int]));
                }
                return Err(e);
            },
        }
        j = j + 1;
    }
    let commit = Commit::new(author_id, message, timestamp, content_address, parent_commits);
    let r = store.put(Entry::CommitEntry(commit));
    Ok(r)
}

/// The commit stored at `commit_address`.
pub fn handle_get_commit_info(store: &ContentStore, commit_address: Address) -> (r: Result<
    Commit,
    VcError,
>)
    ensures
        match r {
            Ok(c) => is_commit_at(store@, commit_address) && c@ == commit_at(store@, commit_address),
            Err(e) => !is_commit_at(store@, commit_address) && e@ == ErrorModel::NotFound(
                commit_address,
            ),
        },
{
    match store.get_commit(commit_address) {
        Ok(c) => Ok(c.duplicate()),
        Err(e) => Err(e),
    }
}

/// Stores a blob or a tree and returns its address; storing equal content
/// again changes nothing and gives the same address.
pub fn store_commit_content(store: &mut ContentStore, content: CommitContent) -> (r: Address)
    requires
        old(store).wf(),
    ensures
        final(store).wf(),
        final(store)@ == with_value(old(store)@, EntryModel::Content(content@)),
        placed_at(final(store)@, EntryModel::Content(content@), r),
{
    store.put(Entry::ContentEntry(content))
}

/// The histories of the first `k` parents of the commit at `a`, one after
/// the other.
pub open spec fn parent_histories(s: Seq<EntryModel>, a: Address, k: nat) -> Seq<CommitModel>
    decreases a.id, k,
{
    if !is_commit_at(s, a) || k == 0 || k > commit_at(s, a).parents.len() {
        Seq::empty()
    } else {
        let p = commit_at(s, a).parents[k - 1];
        parent_histories(s, a, (k - 1) as nat) + if p.id < a.id && is_commit_at(s, p) {
            parent_histories(s, p, commit_at(s, p).parents.len()).push(commit_at(s, p))
        } else {
            Seq::empty()
        }
    }
}

/// Depth first, parent by parent, then the commit itself; a commit reached
/// along several paths appears once per path.
pub open spec fn history_of(s: Seq<EntryModel>, a: Address) -> Seq<CommitModel> {
    parent_histories(s, a, commit_at(s, a).parents.len()).push(commit_at(s, a))
}

pub open spec fn commits_view(h: Seq<Commit>) -> Seq<CommitModel> {
    h.map_values(|c: Commit| c@)
}

/// Every commit reachable from `commit_address`, as `history_of` orders them.
pub fn get_commit_history(store: &ContentStore, commit_address: Address) -> (r: Result<
    Vec<Commit>,
    VcError,
>)
    requires
        store.wf(),
    ensures
        match r {
            Ok(h) => is_commit_at(store@, commit_address) && commits_view(h@) == history_of(
                store@,
                commit_address,
            ),
            Err(e) => !is_commit_at(store@, commit_address) && e@ == ErrorModel::NotFound(
                commit_address,
            ),
        },
    decreases commit_address.id,
{
    let ghost s = store@;
    let commit = match store.get_commit(commit_address) {
        Ok(c) => c,
        Err(e) => {
            return Err(e);
        },
    };
    let parents = commit.get_parent_commits_addresses();
    let mut history: Vec<Commit> = Vec::new();
    let mut j: usize = 0;
    proof {
        assert(commits_view(history@) =~= parent_histories(s, commit_address, 0));
    }
    while j < parents.len()
        invariant
            s == store@,
            store_wf(s),
            is_commit_at(s, commit_address),
            parents@ == commit_at(s, commit_address).parents,
            j <= parents@.len(),
            commits_view(history@) == parent_histories(s, commit_address, j as nat),
        decreases parents@.len() - j,
    {
        let p = parents[j];
        proof {
            let k = commit_address.id as int;
            assert(s[k]->Commit_0.parents[j as int] == p);
        }
        match get_commit_history(store, p) {
            Ok(h) => {
                let mut h = h;
                let ghost before = history@;
                history.append(&mut h);
                proof {
                    assert(commits_view(history@) =~= commits_view(before) + history_of(s, p));
                }
            },
            Err(e) => {
                return Err(e);
            },
        }
        j = j + 1;
    }
    let ghost before = history@;
    history.push(commit.duplicate());
    proof {
        assert(commits_view(history@) =~= commits_view(before).push(commit_at(s, commit_address)));
    }
    Ok(history)
}

/// Merging the commits at `from` and `to` in store `s` gave `r` and left
/// the store `t`: the merged (or shared) content is stored, then a commit
/// with parents `[from, to]` that points to it.
pub open spec fn commits_merged(
    s: Seq<EntryModel>,
    from: Address,
    to: Address,
    author: Seq<char>,
    message: Seq<char>,
    timestamp: u128,
    r: Result<Address, ErrorModel>,
    t: Seq<EntryModel>,
) -> bool {
    exists|mid: Seq<EntryModel>, c: Result<Address, ErrorModel>|
        {
            &&& contents_merged(s, from, to, c, mid)
            &&& match c {
                Ok(ca) => commit_created(
                    mid,
                    commit_model(author, message, timestamp, ca, seq![from, to]),
                    r,
                    t,
                ),
                Err(e) => r == Err::<Address, ErrorModel>(e) && t == s,
            }
        }
}

/// Merges the commit at `from_commit_address` into the one at
/// `to_commit_address` and records the result as a new commit with both as
/// parents. On any failure the store is left as it was.
pub fn merge_commits(
    store: &mut ContentStore,
    from_commit_address: Address,
    to_commit_address: Address,
    author_id: &String,
    merge_commit_message: &String,
    timestamp: u128,
) -> (r: Result<Address, VcError>)
    requires
        old(store).wf(),
    ensures
        final(store).wf(),
        commits_merged(
            old(store)@,
            from_commit_address,
            to_commit_address,
            author_id@,
            merge_commit_message@,
            timestamp,
            result_view(r),
            final(store)@,
        ),
{
    let ghost s = store@;
    let merged = merge_commits_contents(store, from_commit_address, to_commit_address);
    let ghost mid = store@;
    match merged {
        Ok(content_address) => {
            let mut parents: Vec<Address> = Vec::new();
            parents.push(from_commit_address);
            parents.push(to_commit_address);
            proof {
                assert(parents@ =~= seq![from_commit_address, to_commit_address]);
            }
            let r = create_commit(
                store,
                author_id,
                merge_commit_message,
                timestamp,
                content_address,
                &parents,
            );
            proof {
                assert(result_view(merged) == Ok::<Address, ErrorModel>(content_address));
                assert(contents_merged(s, from_commit_address, to_commit_address, result_view(merged), mid));
            }
            r
        },
        Err(e) => {
            proof {
                assert(result_view(merged) == Err::<Address, ErrorModel>(e@));
                assert(contents_merged(s, from_commit_address, to_commit_address, result_view(merged), mid));
            }
            Err(e)
        },
    }
}

/// Creating a commit twice with the same fields gives the same result both
/// times, and the second call leaves the store as the first one left it.
pub proof fn lemma_create_commit_idempotent(
    s0: Seq<EntryModel>,
    c: CommitModel,
    r1: Result<Address, ErrorModel>,
    s1: Seq<EntryModel>,
    r2: Result<Address, ErrorModel>,
    s2: Seq<EntryModel>,
)
    requires
        commit_created(s0, c, r1, s1),
        commit_created(s1, c, r2, s2),
    ensures
        r2 == r1,
        s2 == s1,
        s2.len() == s1.len(),
{
    let v = EntryModel::Commit(c);
    if parents_present(s0, c.parents) {
        assert(parents_present(s1, c.parents)) by {
            assert forall|j: int| 0 <= j < c.parents.len() implies is_commit_at(
                s1,
                #[trigger] c.parents[j],
            ) by {
                assert(is_commit_at(s0, c.parents[j]));
                if !s0.contains(v) {
                    assert(s1[c.parents[j].id as int] == s0[c.parents[j].id as int]);
                }
            }
        }
        let a1 = r1->Ok_0;
        assert(s1.contains(v)) by {
            assert(s1[a1.id as int] == v);
        }
        assert(s2 == s1);
        let a2 = r2->Ok_0;
        if a1.id < a2.id {
            assert(s2[a1.id as int] == v);
        } else if a2.id < a1.id {
            assert(s1[a2.id as int] == v);
        }
        assert(a1 == a2);
    } else {
        assert(s1 == s0);
        let j1 = choose|j: int|
            0 <= j < c.parents.len() && !is_commit_at(s0, #[trigger] c.parents[j]) && (forall|k: int|
                0 <= k < j ==> is_commit_at(s0, c.parents[k])) && r1 == Err::<Address, ErrorModel>(
                ErrorModel::NotFound(c.parents[j]),
            );
        let j2 = choose|j: int|
            0 <= j < c.parents.len() && !is_commit_at(s1, #[trigger] c.parents[j]) && (forall|k: int|
                0 <= k < j ==> is_commit_at(s1, c.parents[k])) && r2 == Err::<Address, ErrorModel>(
                ErrorModel::NotFound(c.parents[j]),
            );
        if j1 < j2 {
            assert(is_commit_at(s1, c.parents[j1]));
        } else if j2 < j1 {
            assert(is_commit_at(s0, c.parents[j2]));
        }
    }
}

/// Merging two commits whose contents are the same succeeds: the new merge
/// commit points to that content and has both commits as parents.
pub proof fn lemma_merge_short_circuit(
    s: Seq<EntryModel>,
    from: Address,
    to: Address,
    author: Seq<char>,
    message: Seq<char>,
    timestamp: u128,
    r: Result<Address, ErrorModel>,
    t: Seq<EntryModel>,
)
    requires
        is_commit_at(s, from),
        is_commit_at(s, to),
        commit_at(s, from).content == commit_at(s, to).content,
        commits_merged(s, from, to, author, message, timestamp, r, t),
    ensures
        r is Ok,
        is_commit_at(t, r->Ok_0),
        commit_at(t, r->Ok_0).content == commit_at(s, to).content,
        commit_at(t, r->Ok_0).parents == seq![from, to],
{
    let (mid, c) = choose|mid: Seq<EntryModel>, c: Result<Address, ErrorModel>|
        {
            &&& contents_merged(s, from, to, c, mid)
            &&& match c {
                Ok(ca) => commit_created(
                    mid,
                    commit_model(author, message, timestamp, ca, seq![from, to]),
                    r,
                    t,
                ),
                Err(e) => r == Err::<Address, ErrorModel>(e) && t == s,
            }
        };
    let anc = choose|anc: Result<Address, ErrorModel>|
        contents_merged_with(s, from, to, anc, c, mid);
    let shared = commit_at(s, to).content;
    assert(c == Ok::<Address, ErrorModel>(shared) && mid == s);
    let m = commit_model(author, message, timestamp, shared, seq![from, to]);
    assert(parents_present(s, m.parents)) by {
        assert forall|j: int| 0 <= j < m.parents.len() implies is_commit_at(
            s,
            #[trigger] m.parents[j],
        ) by {
            if j == 0 {
                assert(m.parents[j] == from);
            } else {
                assert(m.parents[j] == to);
            }
        }
    }
    assert(t[r->Ok_0.id as int] == EntryModel::Commit(m));
}

/// Merging two commits with different contents whose histories are lines
/// that never meet (commits built from unrelated roots, each with at most
/// one parent) fails with `NoCommonAncestor` and leaves the store unchanged.
pub proof fn lemma_merge_disjoint_histories(
    s: Seq<EntryModel>,
    from: Address,
    to: Address,
    author: Seq<char>,
    message: Seq<char>,
    timestamp: u128,
    r: Result<Address, ErrorModel>,
    t: Seq<EntryModel>,
)
    requires
        is_commit_at(s, from),
        is_commit_at(s, to),
        store_wf(s),
        linear_and_disjoint(s, from, to),
        commit_at(s, from).content != commit_at(s, to).content,
        commits_merged(s, from, to, author, message, timestamp, r, t),
    ensures
        r == Err::<Address, ErrorModel>(ErrorModel::NoCommonAncestor),
        t == s,
{
    let (mid, c) = choose|mid: Seq<EntryModel>, c: Result<Address, ErrorModel>|
        {
            &&& contents_merged(s, from, to, c, mid)
            &&& match c {
                Ok(ca) => commit_created(
                    mid,
                    commit_model(author, message, timestamp, ca, seq![from, to]),
                    r,
                    t,
                ),
                Err(e) => r == Err::<Address, ErrorModel>(e) && t == s,
            }
        };
    let anc = choose|anc: Result<Address, ErrorModel>|
        contents_merged_with(s, from, to, anc, c, mid);
    assert(from != to);
    lemma_disjoint_lines_have_no_common_ancestor(s, from, to, anc);
}

} // verus!
