use uprtcl::ancestor::find_most_recent_common_ancestor;
use uprtcl::commit::{create_commit, get_commit_history, handle_get_commit_info, merge_commits, store_commit_content};
use uprtcl::documents::{init, validate_agent, TextNode, TextType};
use uprtcl::merge::{build_merge_content, merge_commits_contents};
use uprtcl::store::ContentStore;
use uprtcl::types::{Address, Blob, CommitContent, MergeField, NamedEdge, Tree, VcError};

fn blob(store: &mut ContentStore, byte: u8) -> Address {
    store_commit_content(store, CommitContent::ContentBlob(Blob { content: vec![byte] }))
}

fn tree(edges: &[(&str, Address)]) -> Tree {
    Tree::new(None, edges.iter().map(|(n, a)| NamedEdge::new(n, *a)).collect())
}

fn edge_pairs(t: &Tree) -> Vec<(String, Address)> {
    t.links.iter().map(|e| (e.name.clone(), e.target)).collect()
}

fn commit(store: &mut ContentStore, content: Address, parents: Vec<Address>, ts: u128) -> Address {
    create_commit(store, &"alice".to_string(), &"msg".to_string(), ts, content, &parents).unwrap()
}

fn content_tree(store: &ContentStore, commit_address: Address) -> Tree {
    let c = handle_get_commit_info(store, commit_address).unwrap();
    match store.get_content(*c.get_content_address()).unwrap().duplicate() {
        CommitContent::ContentTree(t) => t,
        CommitContent::ContentBlob(_) => panic!("expected a tree"),
    }
}

#[test]
fn create_commit_twice_gives_same_address() {
    let mut store = ContentStore::new();
    let c = blob(&mut store, 1);
    let a1 = create_commit(&mut store, &"alice".to_string(), &"first".to_string(), 7, c, &vec![]).unwrap();
    let len = store.len();
    let a2 = create_commit(&mut store, &"alice".to_string(), &"first".to_string(), 7, c, &vec![]).unwrap();
    assert_eq!(a1, a2);
    assert_eq!(store.len(), len);
    let a3 = create_commit(&mut store, &"alice".to_string(), &"first".to_string(), 8, c, &vec![]).unwrap();
    assert_ne!(a1, a3);
    assert_eq!(store.len(), len + 1);
}

#[test]
fn storing_equal_content_is_a_no_op() {
    let mut store = ContentStore::new();
    let a = blob(&mut store, 4);
    let b = blob(&mut store, 5);
    let c = blob(&mut store, 4);
    assert_eq!(a, c);
    assert_ne!(a, b);
    assert_eq!(store.len(), 2);
}

#[test]
fn create_commit_with_missing_parent_fails() {
    let mut store = ContentStore::new();
    let c = blob(&mut store, 1);
    let missing = Address { id: 99 };
    let r = create_commit(&mut store, &"a".to_string(), &"m".to_string(), 0, c, &vec![missing]);
    assert!(matches!(r, Err(VcError::NotFound(a)) if a == missing));
    assert_eq!(store.len(), 1);
    // a content address is not a commit
    let r = create_commit(&mut store, &"a".to_string(), &"m".to_string(), 0, c, &vec![c]);
    assert!(matches!(r, Err(VcError::NotFound(a)) if a == c));
}

#[test]
fn get_commit_reads_fields_back() {
    let mut store = ContentStore::new();
    let c = blob(&mut store, 1);
    let root = commit(&mut store, c, vec![], 1);
    let child = create_commit(&mut store, &"bob".to_string(), &"second".to_string(), 2, c, &vec![root]).unwrap();
    let got = handle_get_commit_info(&store, child).unwrap();
    assert_eq!(got.author_id(), "bob");
    assert_eq!(got.message(), "second");
    assert_eq!(got.timestamp(), 2);
    assert_eq!(*got.get_content_address(), c);
    assert_eq!(got.get_parent_commits_addresses(), &vec![root]);
    assert!(matches!(handle_get_commit_info(&store, c), Err(VcError::NotFound(a)) if a == c));
    let far = Address { id: 50 };
    assert!(matches!(handle_get_commit_info(&store, far), Err(VcError::NotFound(a)) if a == far));
}

#[test]
fn history_repeats_commits_reached_twice() {
    let mut store = ContentStore::new();
    let c = blob(&mut store, 1);
    let root = commit(&mut store, c, vec![], 1);
    let x = commit(&mut store, c, vec![root], 2);
    let y = commit(&mut store, c, vec![root], 3);
    let m = commit(&mut store, c, vec![x, y], 4);
    let h = get_commit_history(&store, m).unwrap();
    let stamps: Vec<u128> = h.iter().map(|c| c.timestamp()).collect();
    assert_eq!(stamps, vec![1, 2, 1, 3, 4]);
    let h = get_commit_history(&store, root).unwrap();
    assert_eq!(h.len(), 1);
    assert!(matches!(get_commit_history(&store, c), Err(VcError::NotFound(_))));
}

#[test]
fn ancestor_of_two_branches_is_their_root() {
    let mut store = ContentStore::new();
    let c = blob(&mut store, 1);
    let root = commit(&mut store, c, vec![], 1);
    let x = commit(&mut store, c, vec![root], 2);
    let a = commit(&mut store, c, vec![x], 3);
    let y = commit(&mut store, c, vec![root], 4);
    let b = commit(&mut store, c, vec![y], 5);
    assert_eq!(find_most_recent_common_ancestor(&store, a, b).unwrap(), root);
    assert_eq!(find_most_recent_common_ancestor(&store, b, a).unwrap(), root);
}

#[test]
fn ancestor_when_one_head_descends_from_the_other() {
    let mut store = ContentStore::new();
    let c = blob(&mut store, 1);
    let root = commit(&mut store, c, vec![], 1);
    let x = commit(&mut store, c, vec![root], 2);
    let a = commit(&mut store, c, vec![x], 3);
    assert_eq!(find_most_recent_common_ancestor(&store, a, x).unwrap(), x);
}

#[test]
fn ancestor_search_fails_on_unrelated_roots() {
    let mut store = ContentStore::new();
    let c = blob(&mut store, 1);
    let r1 = commit(&mut store, c, vec![], 1);
    let r2 = commit(&mut store, c, vec![], 2);
    assert!(matches!(find_most_recent_common_ancestor(&store, r1, r2), Err(VcError::NoCommonAncestor)));
    let missing = Address { id: 77 };
    assert!(matches!(find_most_recent_common_ancestor(&store, missing, r2), Err(VcError::NotFound(a)) if a == missing));
}

#[test]
fn merge_with_same_content_reuses_it() {
    let mut store = ContentStore::new();
    let c = blob(&mut store, 1);
    let r1 = commit(&mut store, c, vec![], 1);
    let r2 = commit(&mut store, c, vec![], 2);
    let m = merge_commits(&mut store, r1, r2, &"alice".to_string(), &"merge".to_string(), 3).unwrap();
    let got = handle_get_commit_info(&store, m).unwrap();
    assert_eq!(*got.get_content_address(), c);
    assert_eq!(got.get_parent_commits_addresses(), &vec![r1, r2]);
    assert_eq!(got.message(), "merge");
}

#[test]
fn merge_of_disjoint_histories_fails() {
    let mut store = ContentStore::new();
    let c1 = blob(&mut store, 1);
    let c2 = blob(&mut store, 2);
    let r1 = commit(&mut store, c1, vec![], 1);
    let r2 = commit(&mut store, c2, vec![], 2);
    let a = commit(&mut store, c1, vec![r1], 3);
    let b = commit(&mut store, c2, vec![r2], 4);
    let len = store.len();
    let r = merge_commits(&mut store, a, b, &"alice".to_string(), &"merge".to_string(), 5);
    assert!(matches!(r, Err(VcError::NoCommonAncestor)));
    assert_eq!(store.len(), len);
}

#[test]
fn clean_three_way_merge() {
    let mut store = ContentStore::new();
    let v1 = blob(&mut store, 1);
    let v2 = blob(&mut store, 2);
    let v3 = blob(&mut store, 3);
    let v5 = blob(&mut store, 5);
    let anc = store_commit_content(&mut store, CommitContent::ContentTree(tree(&[("a", v1), ("b", v2)])));
    let from = store_commit_content(&mut store, CommitContent::ContentTree(tree(&[("a", v1), ("b", v2), ("c", v3)])));
    let to = store_commit_content(&mut store, CommitContent::ContentTree(tree(&[("a", v1), ("b", v5)])));
    let root = commit(&mut store, anc, vec![], 1);
    let x = commit(&mut store, from, vec![root], 2);
    let y = commit(&mut store, to, vec![root], 3);
    let m = merge_commits(&mut store, x, y, &"alice".to_string(), &"merge".to_string(), 4).unwrap();
    let merged = content_tree(&store, m);
    assert_eq!(edge_pairs(&merged), vec![("a".to_string(), v1), ("b".to_string(), v5), ("c".to_string(), v3)]);
    assert_eq!(merged.data, None);
    let got = handle_get_commit_info(&store, m).unwrap();
    assert_eq!(got.get_parent_commits_addresses(), &vec![x, y]);
}

#[test]
fn merge_contents_returns_stored_tree_address() {
    let mut store = ContentStore::new();
    let v1 = blob(&mut store, 1);
    let v2 = blob(&mut store, 2);
    let anc = store_commit_content(&mut store, CommitContent::ContentTree(tree(&[("a", v1)])));
    let from = store_commit_content(&mut store, CommitContent::ContentTree(tree(&[("a", v1), ("b", v2)])));
    let root = commit(&mut store, anc, vec![], 1);
    let x = commit(&mut store, from, vec![root], 2);
    let y = commit(&mut store, anc, vec![root], 3);
    // the merge equals "from", which is already stored
    let len = store.len();
    assert_eq!(merge_commits_contents(&mut store, x, y).unwrap(), from);
    assert_eq!(store.len(), len);
}

#[test]
fn edge_changed_on_both_sides_conflicts() {
    let x = Address { id: 10 };
    let y = Address { id: 11 };
    let z = Address { id: 12 };
    let r = build_merge_content(&tree(&[("k", y)]), &tree(&[("k", z)]), &tree(&[("k", x)]));
    assert!(matches!(r, Err(VcError::MergeConflict(MergeField::Edge(n))) if n == "k"));
}

#[test]
fn edge_conflict_through_merge_commits() {
    let mut store = ContentStore::new();
    let x = blob(&mut store, 1);
    let y = blob(&mut store, 2);
    let z = blob(&mut store, 3);
    let anc = store_commit_content(&mut store, CommitContent::ContentTree(tree(&[("k", x)])));
    let from = store_commit_content(&mut store, CommitContent::ContentTree(tree(&[("k", y)])));
    let to = store_commit_content(&mut store, CommitContent::ContentTree(tree(&[("k", z)])));
    let root = commit(&mut store, anc, vec![], 1);
    let a = commit(&mut store, from, vec![root], 2);
    let b = commit(&mut store, to, vec![root], 3);
    let len = store.len();
    let r = merge_commits(&mut store, a, b, &"alice".to_string(), &"merge".to_string(), 4);
    assert!(matches!(r, Err(VcError::MergeConflict(MergeField::Edge(n))) if n == "k"));
    assert_eq!(store.len(), len);
}

#[test]
fn reordering_counts_as_a_change() {
    let x = Address { id: 10 };
    let y = Address { id: 11 };
    let anc = tree(&[("n1", x), ("n2", y)]);
    let to = tree(&[("n2", y), ("n1", x)]);
    // "from" untouched: the reordered side wins, edge by edge
    let merged = build_merge_content(&tree(&[("n1", x), ("n2", y)]), &to, &anc).unwrap();
    assert_eq!(edge_pairs(&merged), vec![("n2".to_string(), y), ("n1".to_string(), x)]);
}

#[test]
fn reordering_against_a_retarget_conflicts() {
    let x = Address { id: 10 };
    let y = Address { id: 11 };
    let w = Address { id: 12 };
    let anc = tree(&[("n1", x), ("n2", y)]);
    let to = tree(&[("n2", y), ("n1", x)]);
    // n1 keeps its target in "to" but moved; "from" retargets it
    let r = build_merge_content(&tree(&[("n1", w), ("n2", y)]), &to, &anc);
    assert!(matches!(r, Err(VcError::MergeConflict(MergeField::Edge(n))) if n == "n1"));
    // n2 keeps its target in "to" but moved; "from" retargets it
    let r = build_merge_content(&tree(&[("n1", x), ("n2", w)]), &to, &anc);
    assert!(matches!(r, Err(VcError::MergeConflict(MergeField::Edge(n))) if n == "n2"));
}

#[test]
fn removal_on_one_side_is_kept() {
    let x = Address { id: 10 };
    let y = Address { id: 11 };
    let anc = tree(&[("a", x), ("b", y)]);
    let merged = build_merge_content(&tree(&[("a", x)]), &tree(&[("a", x), ("b", y)]), &anc).unwrap();
    assert_eq!(edge_pairs(&merged), vec![("a".to_string(), x)]);
}

#[test]
fn equal_positions_keep_union_order() {
    let x = Address { id: 10 };
    let y = Address { id: 11 };
    let z = Address { id: 12 };
    let anc = tree(&[("a", x)]);
    // both sides add an edge at position 1
    let merged = build_merge_content(&tree(&[("a", x), ("f", y)]), &tree(&[("a", x), ("t", z)]), &anc).unwrap();
    assert_eq!(
        edge_pairs(&merged),
        vec![("a".to_string(), x), ("f".to_string(), y), ("t".to_string(), z)]
    );
}

#[test]
fn leaf_payload_merges_by_the_same_rule() {
    let anc = Tree::new(Some(vec![1]), vec![]);
    let from = Tree::new(Some(vec![1]), vec![]);
    let to = Tree::new(Some(vec![2]), vec![]);
    let merged = build_merge_content(&from, &to, &anc).unwrap();
    assert_eq!(merged.data, Some(vec![2]));
    let from = Tree::new(None, vec![]);
    let merged = build_merge_content(&from, &Tree::new(Some(vec![1]), vec![]), &anc).unwrap();
    assert_eq!(merged.data, None);
    let r = build_merge_content(&Tree::new(Some(vec![3]), vec![]), &to, &anc);
    assert!(matches!(r, Err(VcError::MergeConflict(MergeField::Data))));
}

#[test]
fn empty_trees_merge_to_empty() {
    let merged = build_merge_content(&Tree::new(None, vec![]), &Tree::new(None, vec![]), &Tree::new(None, vec![])).unwrap();
    assert!(merged.links.is_empty());
    assert_eq!(merged.data, None);
}

#[test]
fn blob_contents_cannot_be_merged() {
    let mut store = ContentStore::new();
    let c0 = blob(&mut store, 0);
    let c1 = blob(&mut store, 1);
    let c2 = blob(&mut store, 2);
    let root = commit(&mut store, c0, vec![], 1);
    let a = commit(&mut store, c1, vec![root], 2);
    let b = commit(&mut store, c2, vec![root], 3);
    let r = merge_commits(&mut store, a, b, &"alice".to_string(), &"merge".to_string(), 4);
    assert!(matches!(r, Err(VcError::UnsupportedMergeShape)));
}

#[test]
fn merge_of_missing_commit_fails() {
    let mut store = ContentStore::new();
    let c = blob(&mut store, 0);
    let root = commit(&mut store, c, vec![], 1);
    let missing = Address { id: 40 };
    let r = merge_commits(&mut store, root, missing, &"alice".to_string(), &"merge".to_string(), 2);
    assert!(matches!(r, Err(VcError::NotFound(a)) if a == missing));
    let r = merge_commits(&mut store, missing, root, &"alice".to_string(), &"merge".to_string(), 2);
    assert!(matches!(r, Err(VcError::NotFound(a)) if a == missing));
}

#[test]
fn hooks_accept_everything() {
    assert!(init().is_ok());
    assert!(validate_agent(Address { id: 3 }).is_ok());
    let node = TextNode { text: "hello".to_string(), text_type: TextType::Title, links: vec![] };
    assert_eq!(node.text_type, TextType::Title);
}

#[test]
fn untouched_to_side_gives_from() {
    let x = Address { id: 10 };
    let y = Address { id: 11 };
    let z = Address { id: 12 };
    let anc = Tree::new(Some(vec![9]), vec![NamedEdge::new("p", x), NamedEdge::new("q", y)]);
    let from = Tree::new(Some(vec![8]), vec![NamedEdge::new("r", z), NamedEdge::new("p", y)]);
    let to = Tree::new(Some(vec![9]), vec![NamedEdge::new("p", x), NamedEdge::new("q", y)]);
    let merged = build_merge_content(&from, &to, &anc).unwrap();
    assert_eq!(edge_pairs(&merged), vec![("r".to_string(), z), ("p".to_string(), y)]);
    assert_eq!(merged.data, Some(vec![8]));
}
