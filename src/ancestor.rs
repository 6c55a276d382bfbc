use vstd::prelude::*;
use vstd::set_lib::{lemma_int_range, lemma_len_subset, set_int_range};
use crate::store::{commit_at, is_commit_at, store_wf, ContentStore};
use crate::types::{Address, EntryModel, ErrorModel, VcError};

verus! {

/// The frontier, its next entry, and every address marked visited.
pub struct SearchState {
    pub queue: Seq<(Address, usize)>,
    pub head: nat,
    pub visited: Seq<Address>,
}

pub enum Search {
    Running(SearchState),
    Done(Result<Address, ErrorModel>),
}

/// Both seeds at distance 0, both marked visited.
pub open spec fn initial_search(a: Address, b: Address) -> SearchState {
    SearchState {
        queue: seq![(a, 0usize), (b, 0usize)],
        head: 0,
        visited: if a == b {
            seq![a]
        } else {
            seq![a, b]
        },
    }
}

/// Goes through the parents of an entry at distance `d`: the first parent
/// already visited is the hit; each other one is marked visited and queued
/// at distance `d + 1`.
pub open spec fn expand(
    visited: Seq<Address>,
    queue: Seq<(Address, usize)>,
    parents: Seq<Address>,
    d: usize,
) -> (Option<Address>, Seq<Address>, Seq<(Address, usize)>)
    decreases parents.len(),
{
    if parents.len() == 0 {
        (None, visited, queue)
    } else {
        let (hit, v, q) = expand(visited, queue, parents.drop_last(), d);
        if hit is Some {
            (hit, v, q)
        } else if v.contains(parents.last()) {
            (Some(parents.last()), v, q)
        } else {
            (None, v.push(parents.last()), q.push((parents.last(), (d + 1) as usize)))
        }
    }
}

/// Takes the next entry of the frontier, which has the least distance since
/// entries are queued at non-decreasing distances, and expands it.
pub open spec fn search_step(s: Seq<EntryModel>, st: SearchState) -> Search {
    if st.head >= st.queue.len() {
        Search::Done(Err(ErrorModel::NoCommonAncestor))
    } else {
        let (n, d) = st.queue[st.head as int];
        if !is_commit_at(s, n) {
            Search::Done(Err(ErrorModel::NotFound(n)))
        } else {
            let (hit, v, q) = expand(st.visited, st.queue, commit_at(s, n).parents, d);
            match hit {
                Some(p) => Search::Done(Ok(p)),
                None => Search::Running(SearchState { queue: q, head: st.head + 1, visited: v }),
            }
        }
    }
}

pub open spec fn search_run(s: Seq<EntryModel>, st: Search, n: nat) -> Search
    decreases n,
{
    if n == 0 {
        st
    } else {
        match st {
            Search::Done(r) => Search::Done(r),
            Search::Running(x) => search_run(s, search_step(s, x), (n - 1) as nat),
        }
    }
}

/// The search from `a` and `b` over the store `s` ends with `r`.
pub open spec fn search_finds(
    s: Seq<EntryModel>,
    a: Address,
    b: Address,
    r: Result<Address, ErrorModel>,
) -> bool {
    exists|n: nat| search_run(s, Search::Running(initial_search(a, b)), n) == Search::Done(r)
}

pub open spec fn result_view(r: Result<Address, VcError>) -> Result<Address, ErrorModel> {
    match r {
        Ok(a) => Ok(a),
        Err(e) => Err(e@),
    }
}

proof fn lemma_run_succ(s: Seq<EntryModel>, st: Search, n: nat)
    ensures
        search_run(s, st, n + 1) == match search_run(s, st, n) {
            Search::Done(r) => Search::Done(r),
            Search::Running(x) => search_step(s, x),
        },
    decreases n,
{
    match st {
        Search::Done(_) => {},
        Search::Running(x) => {
            assert(search_run(s, st, n + 1) == search_run(s, search_step(s, x), n));
            if n > 0 {
                lemma_run_succ(s, search_step(s, x), (n - 1) as nat);
            } else {
                assert(search_run(s, search_step(s, x), 0) == search_step(s, x));
            }
        },
    }
}

proof fn lemma_hit_sticks(
    visited: Seq<Address>,
    queue: Seq<(Address, usize)>,
    parents: Seq<Address>,
    d: usize,
    j: int,
)
    requires
        0 <= j <= parents.len(),
        expand(visited, queue, parents.take(j), d).0 is Some,
    ensures
        expand(visited, queue, parents, d).0 == expand(visited, queue, parents.take(j), d).0,
    decreases parents.len() - j,
{
    if j < parents.len() {
        assert(parents.take(j + 1).drop_last() =~= parents.take(j));
        lemma_hit_sticks(visited, queue, parents, d, j + 1);
    } else {
        assert(parents.take(j) =~= parents);
    }
}

/// Distinct addresses below `n` are at most `n`.
proof fn lemma_distinct_bounded(s: Seq<Address>, n: nat)
    requires
        s.no_duplicates(),
        forall|i: int| 0 <= i < s.len() ==> s[i].id < n,
    ensures
        s.len() <= n,
{
    let ids = s.map_values(|a: Address| a.id as int);
    assert(ids.no_duplicates()) by {
        assert forall|i: int, j: int| 0 <= i < ids.len() && 0 <= j < ids.len() && i != j implies ids[i]
            != ids[j] by {
            assert(s[i] != s[j]);
        }
    }
    ids.unique_seq_to_set();
    lemma_int_range(0, n as int);
    assert(ids.to_set().subset_of(set_int_range(0, n as int)));
    lemma_len_subset(ids.to_set(), set_int_range(0, n as int));
}

fn contains_address(v: &Vec<Address>, a: Address) -> (r: bool)
    ensures
        r == v@.contains(a),
{
    let mut i: usize = 0;
    while i < v.len()
        invariant
            i <= v@.len(),
            forall|j: int| 0 <= j < i ==> v@[j] != a,
        decreases v@.len() - i,
    {
        if v[i].id == a.id {
            return true;
        }
        i = i + 1;
    }
    false
}

/// Searches the commit graph from both commits at once, nearest entries
/// first, and returns the first parent met that was already visited from
/// either side. This is a common ancestor at minimal combined depth in
/// simple histories; the result is exactly the one `search_finds` describes.
pub fn find_most_recent_common_ancestor(
    store: &ContentStore,
    from_commit_address: Address,
    to_commit_address: Address,
) -> (r: Result<Address, VcError>)
    requires
        store.wf(),
    ensures
        search_finds(store@, from_commit_address, to_commit_address, result_view(r)),
{
    let ghost s = store@;
    let ghost init = Search::Running(initial_search(from_commit_address, to_commit_address));
    let mut queue: Vec<(Address, usize)> = Vec::new();
    queue.push((from_commit_address, 0));
    queue.push((to_commit_address, 0));
    let mut visited: Vec<Address> = Vec::new();
    visited.push(from_commit_address);
    if to_commit_address.id != from_commit_address.id {
        visited.push(to_commit_address);
    }
    let ghost seeds = visited@.len();
    let mut head: usize = 0;
    let ghost mut steps: nat = 0;
    proof {
        assert(queue@ =~= initial_search(from_commit_address, to_commit_address).queue);
        assert(visited@ =~= initial_search(from_commit_address, to_commit_address).visited);
    }
    while head < queue.len()
        invariant
            s == store@,
            store_wf(s),
            init == Search::Running(initial_search(from_commit_address, to_commit_address)),
            seeds <= 2,
            seeds <= visited@.len(),
            head <= queue@.len(),
            visited@.no_duplicates(),
            forall|i: int| seeds <= i < visited@.len() ==> (#[trigger] visited@[i]).id < s.len(),
            forall|i: int| 0 <= i < queue@.len() ==> (#[trigger] queue@[i]).1 <= i,
            search_run(s, init, steps) == Search::Running(
                SearchState { queue: queue@, head: head as nat, visited: visited@ },
            ),
        decreases 2 * (s.len() + 2 - visited@.len()) + (queue@.len() - head),
    {
        proof {
            lemma_distinct_bounded(visited@.subrange(seeds as int, visited@.len() as int), s.len());
        }
        let ghost st = SearchState { queue: queue@, head: head as nat, visited: visited@ };
        proof {
            lemma_run_succ(s, init, steps);
        }
        let (node, d) = queue[head];
        let commit = match store.get_commit(node) {
            Ok(c) => c,
            Err(e) => {
                proof {
                    assert(search_run(s, init, steps + 1) == Search::Done(result_view(Err(e))));
                    assert(search_run(
                        s,
                        Search::Running(initial_search(from_commit_address, to_commit_address)),
                        steps + 1,
                    ) == Search::Done(result_view(Err(e))));
                }
                return Err(e);
            },
        };
        let parents = commit.get_parent_commits_addresses();
        let ghost ps = parents@;
        let ghost v0 = visited@;
        let ghost q0 = queue@;
        let mut j: usize = 0;
        proof {
            assert(ps.take(0) =~= Seq::<Address>::empty());
        }
        while j < parents.len()
            invariant
                s == store@,
                store_wf(s),
                init == Search::Running(initial_search(from_commit_address, to_commit_address)),
                search_run(s, init, steps + 1) == search_step(s, st),
                q0.len() <= usize::MAX,
                ps == parents@,
                ps == commit_at(s, node).parents,
                is_commit_at(s, node),
                seeds <= v0.len(),
                seeds <= 2,
                j <= ps.len(),
                head < q0.len(),
                d == q0[head as int].1,
                node == q0[head as int].0,
                d <= head,
                st == (SearchState { queue: q0, head: head as nat, visited: v0 }),
                expand(v0, q0, ps.take(j as int), d) == (
                    None::<Address>,
                    visited@,
                    queue@,
                ),
                visited@.len() - v0.len() == queue@.len() - q0.len(),
                q0.len() <= queue@.len(),
                visited@.no_duplicates(),
                forall|i: int| seeds <= i < visited@.len() ==> (#[trigger] visited@[i]).id < s.len(),
                forall|i: int| 0 <= i < queue@.len() ==> (#[trigger] queue@[i]).1 <= i,
            decreases ps.len() - j,
        {
            let p = parents[j];
            proof {
                assert(ps.take(j as int + 1).drop_last() =~= ps.take(j as int));
                assert(ps.take(j as int + 1).last() == p);
            }
            if contains_address(&visited, p) {
                proof {
                    assert(expand(v0, q0, ps.take(j as int + 1), d).0 == Some(p));
                    lemma_hit_sticks(v0, q0, ps, d, j as int + 1);
                    assert(search_step(s, st) == Search::Done(Ok::<Address, ErrorModel>(p)));
                    assert(search_run(
                        s,
                        Search::Running(initial_search(from_commit_address, to_commit_address)),
                        steps + 1,
                    ) == Search::Done(Ok::<Address, ErrorModel>(p)));
                }
                return Ok(p);
            }
            proof {
                let k = node.id as int;
                assert(s[k]->Commit_0.parents[j as int] == p);
                assert(p.id < s.len());
            }
            visited.push(p);
            queue.push((p, d + 1));
            j = j + 1;
        }
        proof {
            assert(ps.take(ps.len() as int) =~= ps);
            assert(search_step(s, st) == Search::Running(
                SearchState { queue: queue@, head: head as nat + 1, visited: visited@ },
            ));
            steps = steps + 1;
            lemma_distinct_bounded(visited@.subrange(seeds as int, visited@.len() as int), s.len());
        }
        head = head + 1;
    }
    proof {
        lemma_run_succ(s, init, steps);
        assert(search_run(s, init, steps + 1) == Search::Done(
            Err::<Address, ErrorModel>(ErrorModel::NoCommonAncestor),
        ));
        assert(search_run(
            s,
            Search::Running(initial_search(from_commit_address, to_commit_address)),
            steps + 1,
        ) == Search::Done(Err::<Address, ErrorModel>(ErrorModel::NoCommonAncestor)));
    }
    Err(VcError::NoCommonAncestor)
}

/// The `k`-th commit on the line of first parents from `a`.
pub open spec fn chain(s: Seq<EntryModel>, a: Address, k: nat) -> Address
    decreases k,
{
    if k == 0 {
        a
    } else {
        commit_at(s, chain(s, a, (k - 1) as nat)).parents[0]
    }
}

/// The first `k` commits on the line from `a` each have a parent.
pub open spec fn walks(s: Seq<EntryModel>, a: Address, k: nat) -> bool {
    forall|j: nat|
        j < k ==> is_commit_at(s, #[trigger] chain(s, a, j)) && commit_at(s, chain(s, a, j)).parents.len()
            >= 1
}

/// `x` lies on the line of first parents from `a`.
pub open spec fn on_line(s: Seq<EntryModel>, a: Address, x: Address) -> bool {
    exists|k: nat| walks(s, a, k) && #[trigger] chain(s, a, k) == x
}

/// Every commit before `a` and `b` has at most one parent (their histories
/// are lines), and no commit lies on both lines.
pub open spec fn linear_and_disjoint(s: Seq<EntryModel>, a: Address, b: Address) -> bool {
    &&& forall|x: Address|
        (on_line(s, a, x) || on_line(s, b, x)) && is_commit_at(s, x) ==> #[trigger] commit_at(
            s,
            x,
        ).parents.len() <= 1
    &&& forall|x: Address| !(#[trigger] on_line(s, a, x) && on_line(s, b, x))
}

pub open spec fn addrs(q: Seq<(Address, usize)>) -> Seq<Address> {
    q.map_values(|e: (Address, usize)| e.0)
}

/// What holds of each state of a search between two disjoint lines.
pub open spec fn lines_inv(s: Seq<EntryModel>, a: Address, b: Address, st: SearchState) -> bool {
    let q = st.queue;
    &&& q.len() >= 2
    &&& q[0].0 == a
    &&& q[1].0 == b
    &&& st.head <= q.len()
    &&& st.visited == addrs(q)
    &&& addrs(q).no_duplicates()
    &&& forall|i: int|
        0 <= i < q.len() ==> is_commit_at(s, (#[trigger] q[i]).0) && (on_line(s, a, q[i].0)
            || on_line(s, b, q[i].0))
    &&& forall|k: int|
        2 <= k < q.len() ==> exists|i: int|
            0 <= i < st.head && commit_at(s, (#[trigger] q[i]).0).parents == seq![(#[trigger] q[k]).0]
}

proof fn lemma_chain_step(s: Seq<EntryModel>, a: Address, k: nat)
    requires
        walks(s, a, k),
        is_commit_at(s, chain(s, a, k)),
        commit_at(s, chain(s, a, k)).parents.len() >= 1,
    ensures
        walks(s, a, k + 1),
        chain(s, a, k + 1) == commit_at(s, chain(s, a, k)).parents[0],
{
    assert forall|j: nat| j < k + 1 implies is_commit_at(s, #[trigger] chain(s, a, j)) && commit_at(
        s,
        chain(s, a, j),
    ).parents.len() >= 1 by {
        if j < k {
        }
    }
}

proof fn lemma_chain_decreases(s: Seq<EntryModel>, a: Address, k: nat, i: nat, j: nat)
    requires
        store_wf(s),
        walks(s, a, k),
        i < j <= k,
    ensures
        chain(s, a, j).id < chain(s, a, i).id,
    decreases j,
{
    let y = chain(s, a, (j - 1) as nat);
    assert(is_commit_at(s, y));
    let idx = y.id as int;
    assert(s[idx]->Commit_0.parents[0] == chain(s, a, j));
    if i < j - 1 {
        lemma_chain_decreases(s, a, k, i, (j - 1) as nat);
    }
}

/// The parent of a commit on a line lies on that line too.
proof fn lemma_parent_on_line(s: Seq<EntryModel>, a: Address, x: Address) -> (k: nat)
    requires
        on_line(s, a, x),
        is_commit_at(s, x),
        commit_at(s, x).parents.len() >= 1,
    ensures
        walks(s, a, k + 1),
        chain(s, a, k) == x,
        chain(s, a, k + 1) == commit_at(s, x).parents[0],
{
    let k = choose|k: nat| walks(s, a, k) && #[trigger] chain(s, a, k) == x;
    lemma_chain_step(s, a, k);
    k
}

proof fn lemma_lines_step(s: Seq<EntryModel>, a: Address, b: Address, st: SearchState)
    requires
        store_wf(s),
        a != b,
        linear_and_disjoint(s, a, b),
        lines_inv(s, a, b, st),
    ensures
        match search_step(s, st) {
            Search::Done(r) => r == Err::<Address, ErrorModel>(ErrorModel::NoCommonAncestor),
            Search::Running(x) => lines_inv(s, a, b, x),
        },
{
    let q = st.queue;
    if st.head >= q.len() {
        return ;
    }
    let h = st.head as int;
    let n = q[h].0;
    let d = q[h].1;
    assert(is_commit_at(s, n));
    assert(on_line(s, a, n) || on_line(s, b, n));
    let ps = commit_at(s, n).parents;
    assert(ps.len() <= 1);
    if ps.len() == 0 {
        assert(expand(st.visited, q, ps, d) == (None::<Address>, st.visited, q));
        let nx = SearchState { queue: q, head: st.head + 1, visited: st.visited };
        assert(search_step(s, st) == Search::Running(nx));
        assert forall|k: int| 2 <= k < q.len() implies exists|i: int|
            0 <= i < nx.head && commit_at(s, (#[trigger] q[i]).0).parents == seq![(#[trigger] q[k]).0] by {
            let i = choose|i: int|
                0 <= i < st.head && commit_at(s, (#[trigger] q[i]).0).parents == seq![q[k].0];
            assert(0 <= i < nx.head);
        }
        return ;
    }
    let p = ps[0];
    let line = if on_line(s, a, n) { a } else { b };
    let other = if on_line(s, a, n) { b } else { a };
    let j = lemma_parent_on_line(s, line, n);
    assert(on_line(s, line, p));
    assert(!addrs(q).contains(p)) by {
        if addrs(q).contains(p) {
            let k = choose|k: int| 0 <= k < addrs(q).len() && addrs(q)[k] == p;
            assert(q[k].0 == p);
            if k >= 2 {
                let i = choose|i: int|
                    0 <= i < st.head && commit_at(s, (#[trigger] q[i]).0).parents == seq![q[k].0];
                let m = q[i].0;
                assert(addrs(q)[i] == m && addrs(q)[h] == n);
                assert(m != n);
                assert(on_line(s, a, m) || on_line(s, b, m));
                assert(commit_at(s, m).parents[0] == p);
                if on_line(s, line, m) {
                    let i2 = lemma_parent_on_line(s, line, m);
                    if i2 < j {
                        lemma_chain_decreases(s, line, j + 1, i2 + 1, j + 1);
                    } else if j < i2 {
                        lemma_chain_decreases(s, line, i2 + 1, j + 1, i2 + 1);
                    }
                } else {
                    assert(on_line(s, other, m));
                    let i2 = lemma_parent_on_line(s, other, m);
                    assert(on_line(s, other, p));
                    assert(on_line(s, a, p) && on_line(s, b, p));
                }
            } else if p == line {
                lemma_chain_decreases(s, line, j + 1, 0, j + 1);
            } else {
                assert(p == other);
                assert(walks(s, other, 0));
                assert(chain(s, other, 0) == other);
                assert(on_line(s, other, p));
                assert(on_line(s, a, p) && on_line(s, b, p));
            }
        }
    }
    assert(ps.drop_last().len() == 0);
    assert(expand(st.visited, q, ps.drop_last(), d) == (None::<Address>, st.visited, q));
    let nq = q.push((p, (d + 1) as usize));
    let nx = SearchState { queue: nq, head: st.head + 1, visited: st.visited.push(p) };
    assert(search_step(s, st) == Search::Running(nx));
    assert(addrs(nq) =~= addrs(q).push(p));
    assert(nq[0] == q[0] && nq[1] == q[1]);
    assert(addrs(nq).no_duplicates()) by {
        assert forall|i: int, k: int|
            0 <= i < addrs(nq).len() && 0 <= k < addrs(nq).len() && i != k implies addrs(nq)[i]
            != addrs(nq)[k] by {
            if i < q.len() && k < q.len() {
                assert(addrs(nq)[i] == addrs(q)[i] && addrs(nq)[k] == addrs(q)[k]);
            } else if i < q.len() {
                assert(addrs(nq)[i] == addrs(q)[i]);
            } else if k < q.len() {
                assert(addrs(nq)[k] == addrs(q)[k]);
            }
        }
    }
    let sidx = n.id as int;
    assert(s[sidx]->Commit_0.parents[0] == p);
    assert(is_commit_at(s, p));
    assert forall|i: int|
        0 <= i < nq.len() implies is_commit_at(s, (#[trigger] nq[i]).0) && (on_line(s, a, nq[i].0)
        || on_line(s, b, nq[i].0)) by {
        if i < q.len() {
            assert(nq[i] == q[i]);
        }
    }
    assert(ps =~= seq![p]);
    assert forall|k: int| 2 <= k < nq.len() implies exists|i: int|
        0 <= i < nx.head && commit_at(s, (#[trigger] nq[i]).0).parents == seq![(#[trigger] nq[k]).0] by {
        if k < q.len() {
            let i = choose|i: int|
                0 <= i < st.head && commit_at(s, (#[trigger] q[i]).0).parents == seq![q[k].0];
            assert(nq[i] == q[i] && nq[k] == q[k]);
        } else {
            assert(nq[h] == q[h]);
            assert(commit_at(s, nq[h].0).parents == seq![nq[k].0]);
        }
    }
}

proof fn lemma_lines_run(s: Seq<EntryModel>, a: Address, b: Address, n: nat)
    requires
        store_wf(s),
        a != b,
        is_commit_at(s, a),
        is_commit_at(s, b),
        linear_and_disjoint(s, a, b),
    ensures
        match search_run(s, Search::Running(initial_search(a, b)), n) {
            Search::Done(r) => r == Err::<Address, ErrorModel>(ErrorModel::NoCommonAncestor),
            Search::Running(x) => lines_inv(s, a, b, x),
        },
    decreases n,
{
    let init = initial_search(a, b);
    if n == 0 {
        assert(addrs(init.queue) =~= init.visited);
        assert(walks(s, a, 0) && chain(s, a, 0) == a);
        assert(walks(s, b, 0) && chain(s, b, 0) == b);
        assert(on_line(s, a, a));
        assert(on_line(s, b, b));
    } else {
        lemma_lines_run(s, a, b, (n - 1) as nat);
        lemma_run_succ(s, Search::Running(init), (n - 1) as nat);
        match search_run(s, Search::Running(init), (n - 1) as nat) {
            Search::Done(_) => {},
            Search::Running(x) => lemma_lines_step(s, a, b, x),
        }
    }
}

/// Two distinct commits whose histories are lines that never meet have no
/// common ancestor: the search from them ends with `NoCommonAncestor`.
pub proof fn lemma_disjoint_lines_have_no_common_ancestor(
    s: Seq<EntryModel>,
    a: Address,
    b: Address,
    r: Result<Address, ErrorModel>,
)
    requires
        store_wf(s),
        a != b,
        is_commit_at(s, a),
        is_commit_at(s, b),
        linear_and_disjoint(s, a, b),
        search_finds(s, a, b, r),
    ensures
        r == Err::<Address, ErrorModel>(ErrorModel::NoCommonAncestor),
{
    let n = choose|n: nat| search_run(s, Search::Running(initial_search(a, b)), n) == Search::Done(r);
    lemma_lines_run(s, a, b, n);
}

} // verus!
