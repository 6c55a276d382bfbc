use vstd::prelude::*;
use crate::types::{Address, Commit, CommitContent, CommitModel, ContentModel, Entry, EntryModel, ErrorModel, VcError};

verus! {

/// An append-only store that gives each distinct value one address.
pub struct ContentStore {
    entries: Vec<Entry>,
}

impl View for ContentStore {
    type V = Seq<EntryModel>;

    closed spec fn view(&self) -> Seq<EntryModel> {
        self.entries@.map_values(|e: Entry| e@)
    }
}

pub open spec fn is_commit_at(s: Seq<EntryModel>, a: Address) -> bool {
    a.id < s.len() && s[a.id as int] is Commit
}

pub open spec fn commit_at(s: Seq<EntryModel>, a: Address) -> CommitModel {
    s[a.id as int]->Commit_0
}

pub open spec fn is_content_at(s: Seq<EntryModel>, a: Address) -> bool {
    a.id < s.len() && s[a.id as int] is Content
}

pub open spec fn content_at(s: Seq<EntryModel>, a: Address) -> ContentModel {
    s[a.id as int]->Content_0
}

/// Every parent of a commit is a commit stored before it: the commit graph
/// is acyclic by construction.
pub open spec fn store_wf(s: Seq<EntryModel>) -> bool {
    forall|i: int, j: int|
        0 <= i < s.len() && s[i] is Commit && 0 <= j < s[i]->Commit_0.parents.len() ==> {
            let p = #[trigger] s[i]->Commit_0.parents[j];
            p.id < i && s[p.id as int] is Commit
        }
}

/// A value that may be appended without breaking `store_wf`.
pub open spec fn entry_fits(s: Seq<EntryModel>, v: EntryModel) -> bool {
    v is Commit ==> forall|j: int|
        0 <= j < v->Commit_0.parents.len() ==> is_commit_at(s, #[trigger] v->Commit_0.parents[j])
}

/// `a` is the first place of `v` in `s`.
pub open spec fn placed_at(s: Seq<EntryModel>, v: EntryModel, a: Address) -> bool {
    &&& a.id < s.len()
    &&& s[a.id as int] == v
    &&& forall|j: int| 0 <= j < a.id ==> s[j] != v
}

/// The store after `v` is put into `s`: unchanged when `v` is already there.
pub open spec fn with_value(s: Seq<EntryModel>, v: EntryModel) -> Seq<EntryModel> {
    if s.contains(v) {
        s
    } else {
        s.push(v)
    }
}

impl ContentStore {
    pub open spec fn wf(&self) -> bool {
        store_wf(self@)
    }

    pub fn new() -> (r: ContentStore)
        ensures
            r@ == Seq::<EntryModel>::empty(),
            r.wf(),
    {
        let r = ContentStore { entries: Vec::new() };
        proof {
            assert(r@ =~= Seq::<EntryModel>::empty());
        }
        r
    }

    /// The number of distinct values stored.
    pub fn len(&self) -> (r: usize)
        ensures
            r == self@.len(),
    {
        self.entries.len()
    }

    pub fn get_entry(&self, a: Address) -> (r: Result<&Entry, VcError>)
        ensures
            match r {
                Ok(e) => a.id < self@.len() && e@ == self@[a.id as int],
                Err(e) => a.id >= self@.len() && e@ == ErrorModel::NotFound(a),
            },
    {
        if a.id < self.entries.len() {
            Ok(&self.entries[a.id])
        } else {
            Err(VcError::NotFound(a))
        }
    }

    /// The commit at `a`; `NotFound` when no commit is stored there.
    pub fn get_commit(&self, a: Address) -> (r: Result<&Commit, VcError>)
        ensures
            match r {
                Ok(c) => is_commit_at(self@, a) && c@ == commit_at(self@, a),
                Err(e) => !is_commit_at(self@, a) && e@ == ErrorModel::NotFound(a),
            },
    {
        if a.id < self.entries.len() {
            match &self.entries[a.id] {
                Entry::CommitEntry(c) => Ok(c),
                Entry::ContentEntry(_) => Err(VcError::NotFound(a)),
            }
        } else {
            Err(VcError::NotFound(a))
        }
    }

    /// The content at `a`; `NotFound` when no content is stored there.
    pub fn get_content(&self, a: Address) -> (r: Result<&CommitContent, VcError>)
        ensures
            match r {
                Ok(c) => is_content_at(self@, a) && c@ == content_at(self@, a),
                Err(e) => !is_content_at(self@, a) && e@ == ErrorModel::NotFound(a),
            },
    {
        if a.id < self.entries.len() {
            match &self.entries[a.id] {
                Entry::ContentEntry(c) => Ok(c),
                Entry::CommitEntry(_) => Err(VcError::NotFound(a)),
            }
        } else {
            Err(VcError::NotFound(a))
        }
    }

    /// Stores `e` unless an equal value is there already; either way returns
    /// the first address that holds it.
    pub(crate) fn put(&mut self, e: Entry) -> (r: Address)
        requires
            store_wf(old(self)@),
            entry_fits(old(self)@, e@),
        ensures
            final(self)@ == with_value(old(self)@, e@),
            placed_at(final(self)@, e@, r),
            store_wf(final(self)@),
    {
        let mut i: usize = 0;
        while i < self.entries.len()
            invariant
                i <= self@.len(),
                self@ == old(self)@,
                store_wf(self@),
                self@.len() == self.entries@.len(),
                forall|j: int| 0 <= j < i ==> self@[j] != e@,
            decreases self.entries@.len() - i,
        {
            if self.entries[i].same_as(&e) {
                proof {
                    assert(self@[i as int] == e@);
                    assert(self@.contains(e@));
                }
                return Address { id: i };
            }
            i = i + 1;
        }
        proof {
            assert(!self@.contains(e@));
        }
        let ghost before = self@;
        let id = self.entries.len();
        self.entries.push(e);
        proof {
            assert(self@ =~= before.push(e@));
            assert forall|k: int, j: int|
                0 <= k < self@.len() && self@[k] is Commit && 0 <= j
                    < self@[k]->Commit_0.parents.len() implies {
                let p = #[trigger] self@[k]->Commit_0.parents[j];
                p.id < k && self@[p.id as int] is Commit
            } by {
                if k < before.len() {
                    assert(self@[k] == before[k]);
                    let p = before[k]->Commit_0.parents[j];
                    assert(p.id < k && before[p.id as int] is Commit);
                } else {
                    let p = e@->Commit_0.parents[j];
                    assert(is_commit_at(before, p));
                }
            }
        }
        Address { id }
    }
}

} // verus!
