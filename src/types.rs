use vstd::prelude::*;

verus! {

/// Where a value lives in a content store. A store hands out one address
/// per distinct value, so equal values always share an address.
#[derive(Clone, Copy, PartialEq, Eq, Structural, Debug, Hash)]
pub struct Address {
    pub id: usize,
}

/// A named link from a tree to the content at `target`.
#[derive(Debug)]
pub struct NamedEdge {
    pub name: String,
    pub target: Address,
}

/// Raw bytes that are only ever merged when identical.
#[derive(Debug)]
pub struct Blob {
    pub content: Vec<u8>,
}

/// An optional leaf payload and an ordered sequence of named edges.
#[derive(Debug)]
pub struct Tree {
    pub data: Option<Vec<u8>>,
    pub links: Vec<NamedEdge>,
}

/// What a commit points to: a blob or a tree.
#[derive(Debug)]
pub enum CommitContent {
    ContentBlob(Blob),
    ContentTree(Tree),
}

/// An immutable commit record.
#[derive(Debug)]
pub struct Commit {
    author_id: String,
    message: String,
    timestamp: u128,
    content_address: Address,
    parent_commits_addresses: Vec<Address>,
}

/// A value held by a content store.
#[derive(Debug)]
pub enum Entry {
    CommitEntry(Commit),
    ContentEntry(CommitContent),
}

/// The part of a tree on which a merge conflicted.
#[derive(Debug)]
pub enum MergeField {
    Data,
    Edge(String),
}

#[derive(Debug)]
pub enum VcError {
    NotFound(Address),
    NoCommonAncestor,
    MergeConflict(MergeField),
    UnsupportedMergeShape,
}

// ----- mathematical models -----

pub type EdgeModel = (Seq<char>, Address);

pub struct TreeModel {
    pub data: Option<Seq<u8>>,
    pub links: Seq<EdgeModel>,
}

pub enum ContentModel {
    Blob(Seq<u8>),
    Tree(TreeModel),
}

pub struct CommitModel {
    pub author: Seq<char>,
    pub message: Seq<char>,
    pub timestamp: u128,
    pub content: Address,
    pub parents: Seq<Address>,
}

pub enum EntryModel {
    Commit(CommitModel),
    Content(ContentModel),
}

pub enum FieldModel {
    Data,
    Edge(Seq<char>),
}

pub enum ErrorModel {
    NotFound(Address),
    NoCommonAncestor,
    MergeConflict(FieldModel),
    UnsupportedMergeShape,
}

pub open spec fn opt_bytes_view(o: Option<Vec<u8>>) -> Option<Seq<u8>> {
    match o {
        Some(v) => Some(v@),
        None => None,
    }
}

pub open spec fn edges_view(s: Seq<NamedEdge>) -> Seq<EdgeModel> {
    s.map_values(|e: NamedEdge| e@)
}

pub open spec fn strings_view(s: Seq<String>) -> Seq<Seq<char>> {
    s.map_values(|x: String| x@)
}

impl View for NamedEdge {
    type V = EdgeModel;

    open spec fn view(&self) -> EdgeModel {
        (self.name@, self.target)
    }
}

impl View for Tree {
    type V = TreeModel;

    open spec fn view(&self) -> TreeModel {
        TreeModel { data: opt_bytes_view(self.data), links: edges_view(self.links@) }
    }
}

impl View for CommitContent {
    type V = ContentModel;

    open spec fn view(&self) -> ContentModel {
        match self {
            CommitContent::ContentBlob(b) => ContentModel::Blob(b.content@),
            CommitContent::ContentTree(t) => ContentModel::Tree(t@),
        }
    }
}

impl View for Commit {
    type V = CommitModel;

    closed spec fn view(&self) -> CommitModel {
        CommitModel {
            author: self.author_id@,
            message: self.message@,
            timestamp: self.timestamp,
            content: self.content_address,
            parents: self.parent_commits_addresses@,
        }
    }
}

impl View for Entry {
    type V = EntryModel;

    open spec fn view(&self) -> EntryModel {
        match self {
            Entry::CommitEntry(c) => EntryModel::Commit(c@),
            Entry::ContentEntry(c) => EntryModel::Content(c@),
        }
    }
}

impl View for MergeField {
    type V = FieldModel;

    open spec fn view(&self) -> FieldModel {
        match self {
            MergeField::Data => FieldModel::Data,
            MergeField::Edge(n) => FieldModel::Edge(n@),
        }
    }
}

impl View for VcError {
    type V = ErrorModel;

    open spec fn view(&self) -> ErrorModel {
        match self {
            VcError::NotFound(a) => ErrorModel::NotFound(*a),
            VcError::NoCommonAncestor => ErrorModel::NoCommonAncestor,
            VcError::MergeConflict(f) => ErrorModel::MergeConflict(f@),
            VcError::UnsupportedMergeShape => ErrorModel::UnsupportedMergeShape,
        }
    }
}

// ----- constructors and getters -----

impl Commit {
    pub fn new(
        author_id: &String,
        message: &String,
        timestamp: u128,
        content_address: Address,
        parent_commits_addresses: &Vec<Address>,
    ) -> (r: Commit)
        ensures
            r@ == (CommitModel {
                author: author_id@,
                message: message@,
                timestamp,
                content: content_address,
                parents: parent_commits_addresses@,
            }),
    {
        Commit {
            author_id: author_id.clone(),
            message: message.clone(),
            timestamp,
            content_address,
            parent_commits_addresses: copy_addresses(parent_commits_addresses),
        }
    }

    pub fn author_id(&self) -> (r: &String)
        ensures
            r@ == self@.author,
    {
        &self.author_id
    }

    pub fn message(&self) -> (r: &String)
        ensures
            r@ == self@.message,
    {
        &self.message
    }

    pub fn timestamp(&self) -> (r: u128)
        ensures
            r == self@.timestamp,
    {
        self.timestamp
    }

    pub fn get_content_address(&self) -> (r: &Address)
        ensures
            *r == self@.content,
    {
        &self.content_address
    }

    pub fn get_parent_commits_addresses(&self) -> (r: &Vec<Address>)
        ensures
            r@ == self@.parents,
    {
        &self.parent_commits_addresses
    }

    /// A copy of this commit, field by field.
    pub fn duplicate(&self) -> (r: Commit)
        ensures
            r@ == self@,
    {
        Commit::new(
            &self.author_id,
            &self.message,
            self.timestamp,
            self.content_address,
            &self.parent_commits_addresses,
        )
    }
}

impl Tree {
    pub fn new(data: Option<Vec<u8>>, links: Vec<NamedEdge>) -> (r: Tree)
        ensures
            r@ == (TreeModel { data: opt_bytes_view(data), links: edges_view(links@) }),
    {
        Tree { data, links }
    }
}

impl NamedEdge {
    pub fn new(name: &str, target: Address) -> (r: NamedEdge)
        ensures
            r@ == (name@, target),
    {
        NamedEdge { name: name.to_owned(), target }
    }
}

// ----- copies and comparisons -----

pub fn copy_addresses(v: &Vec<Address>) -> (r: Vec<Address>)
    ensures
        r@ == v@,
{
    let mut r: Vec<Address> = Vec::new();
    let mut i: usize = 0;
    while i < v.len()
        invariant
            i <= v@.len(),
            r@ == v@.take(i as int),
        decreases v@.len() - i,
    {
        r.push(v[i]);
        i = i + 1;
        proof {
            assert(r@ =~= v@.take(i as int));
        }
    }
    proof {
        assert(v@.take(v@.len() as int) =~= v@);
    }
    r
}

pub fn copy_bytes(v: &Vec<u8>) -> (r: Vec<u8>)
    ensures
        r@ == v@,
{
    let mut r: Vec<u8> = Vec::new();
    let mut i: usize = 0;
    while i < v.len()
        invariant
            i <= v@.len(),
            r@ == v@.take(i as int),
        decreases v@.len() - i,
    {
        r.push(v[i]);
        i = i + 1;
        proof {
            assert(r@ =~= v@.take(i as int));
        }
    }
    proof {
        assert(v@.take(v@.len() as int) =~= v@);
    }
    r
}

pub fn copy_opt_bytes(o: &Option<Vec<u8>>) -> (r: Option<Vec<u8>>)
    ensures
        opt_bytes_view(r) == opt_bytes_view(*o),
{
    match o {
        Some(v) => Some(copy_bytes(v)),
        None => None,
    }
}

pub fn bytes_eq(a: &Vec<u8>, b: &Vec<u8>) -> (r: bool)
    ensures
        r == (a@ == b@),
{
    if a.len() != b.len() {
        return false;
    }
    let mut i: usize = 0;
    while i < a.len()
        invariant
            a@.len() == b@.len(),
            i <= a@.len(),
            forall|j: int| 0 <= j < i ==> a@[j] == b@[j],
        decreases a@.len() - i,
    {
        if a[i] != b[i] {
            return false;
        }
        i = i + 1;
    }
    proof {
        assert(a@ =~= b@);
    }
    true
}

pub fn opt_bytes_eq(a: &Option<Vec<u8>>, b: &Option<Vec<u8>>) -> (r: bool)
    ensures
        r == (opt_bytes_view(*a) == opt_bytes_view(*b)),
{
    match (a, b) {
        (Some(x), Some(y)) => bytes_eq(x, y),
        (None, None) => true,
        _ => false,
    }
}

pub fn addresses_eq(a: &Vec<Address>, b: &Vec<Address>) -> (r: bool)
    ensures
        r == (a@ == b@),
{
    if a.len() != b.len() {
        return false;
    }
    let mut i: usize = 0;
    while i < a.len()
        invariant
            a@.len() == b@.len(),
            i <= a@.len(),
            forall|j: int| 0 <= j < i ==> a@[j] == b@[j],
        decreases a@.len() - i,
    {
        if a[i].id != b[i].id {
            return false;
        }
        i = i + 1;
    }
    proof {
        assert(a@ =~= b@);
    }
    true
}

pub fn edges_eq(a: &Vec<NamedEdge>, b: &Vec<NamedEdge>) -> (r: bool)
    ensures
        r == (edges_view(a@) == edges_view(b@)),
{
    if a.len() != b.len() {
        proof {
            assert(edges_view(a@).len() != edges_view(b@).len());
        }
        return false;
    }
    let mut i: usize = 0;
    while i < a.len()
        invariant
            a@.len() == b@.len(),
            i <= a@.len(),
            forall|j: int| 0 <= j < i ==> a@[j]@ == b@[j]@,
        decreases a@.len() - i,
    {
        if a[i].target.id != b[i].target.id || a[i].name != b[i].name {
            proof {
                assert(edges_view(a@)[i as int] != edges_view(b@)[i as int]);
            }
            return false;
        }
        i = i + 1;
    }
    proof {
        assert(edges_view(a@) =~= edges_view(b@));
    }
    true
}

pub fn copy_edges(v: &Vec<NamedEdge>) -> (r: Vec<NamedEdge>)
    ensures
        edges_view(r@) == edges_view(v@),
{
    let mut r: Vec<NamedEdge> = Vec::new();
    let mut i: usize = 0;
    while i < v.len()
        invariant
            i <= v@.len(),
            r@.len() == i,
            forall|j: int| 0 <= j < i ==> r@[j]@ == v@[j]@,
        decreases v@.len() - i,
    {
        r.push(NamedEdge { name: v[i].name.clone(), target: v[i].target });
        i = i + 1;
    }
    proof {
        assert(edges_view(r@) =~= edges_view(v@));
    }
    r
}

impl CommitContent {
    /// A copy of this content, field by field.
    pub fn duplicate(&self) -> (r: CommitContent)
        ensures
            r@ == self@,
    {
        match self {
            CommitContent::ContentBlob(b) => CommitContent::ContentBlob(
                Blob { content: copy_bytes(&b.content) },
            ),
            CommitContent::ContentTree(t) => CommitContent::ContentTree(
                Tree { data: copy_opt_bytes(&t.data), links: copy_edges(&t.links) },
            ),
        }
    }

    /// Whether two contents hold the same model.
    pub fn same_as(&self, other: &CommitContent) -> (r: bool)
        ensures
            r == (self@ == other@),
    {
        match (self, other) {
            (CommitContent::ContentBlob(x), CommitContent::ContentBlob(y)) => bytes_eq(
                &x.content,
                &y.content,
            ),
            (CommitContent::ContentTree(x), CommitContent::ContentTree(y)) => {
                opt_bytes_eq(&x.data, &y.data) && edges_eq(&x.links, &y.links)
            },
            _ => false,
        }
    }
}

impl Commit {
    /// Whether two commits hold the same model.
    pub fn same_as(&self, other: &Commit) -> (r: bool)
        ensures
            r == (self@ == other@),
    {
        self.timestamp == other.timestamp && self.content_address.id
            == other.content_address.id && self.author_id == other.author_id && self.message
            == other.message && addresses_eq(
            &self.parent_commits_addresses,
            &other.parent_commits_addresses,
        )
    }
}

impl Entry {
    /// Whether two entries hold the same model.
    pub fn same_as(&self, other: &Entry) -> (r: bool)
        ensures
            r == (self@ == other@),
    {
        match (self, other) {
            (Entry::CommitEntry(x), Entry::CommitEntry(y)) => x.same_as(y),
            (Entry::ContentEntry(x), Entry::ContentEntry(y)) => x.same_as(y),
            _ => false,
        }
    }
}

} // verus!
