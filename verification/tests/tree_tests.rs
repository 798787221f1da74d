use game_state::ids::IdAllocator;
use game_state::tree::{CycleError, Node, NodeRef, Tree};

#[test]
fn rando_test_flatten_vec_of_options() {
    let vals = vec![None, None, Some(1), None, Some(2), Some(3), None, None, None, Some(4)];
    let flat = vals
        .iter()
        .enumerate()
        .filter(|&(_, x)| x.is_some())
        .map(|(_, x)| x.unwrap())
        .collect::<Vec<u32>>();
    assert_eq!(flat, vec![1, 2, 3, 4]);
}

#[test]
fn mod_rando_test_flatten_vec_of_options() {
    let vals = vec![None, None, Some(1), None, Some(2), Some(3), None, None, None, Some(4)];
    let flat = vals
        .iter()
        .enumerate()
        .filter(|&(_, x)| x.is_some())
        .map(|(_, x)| x.unwrap())
        .collect::<Vec<u32>>();
    assert_eq!(flat, vec![1, 2, 3, 4]);
}

#[test]
fn create_links_child_to_parent() {
    let mut t: Tree<u32> = Tree::new();
    let root = Node::create(&mut t, 0, None);
    let a = Node::create(&mut t, 1, Some(root));
    assert_eq!(t.get(a).parent(), Some(root));
    assert_eq!(t.get(root).parent(), None);
    let kids = t.get(root).children();
    assert_eq!(kids.len(), 1);
    assert_eq!(kids[0], a);
    assert!(t.get(a).is_leaf());
    assert!(!t.get(root).is_leaf());
    assert!(t.contains(a));
}

#[test]
fn find_root_returns_the_parentless_node_at_any_depth() {
    let mut t: Tree<u32> = Tree::new();
    let root = Node::create(&mut t, 0, None);
    let mut leaf = root;
    for i in 0..32 {
        leaf = Node::create(&mut t, i + 1, Some(leaf));
    }
    let r = Node::find_root(&t, leaf);
    assert_eq!(r, root);
    assert!(t.get(r).parent().is_none());
    // A one-node chain is its own root.
    assert_eq!(Node::find_root(&t, root), root);
}

#[test]
fn is_child_of_walks_the_parent_chain() {
    let mut t: Tree<u32> = Tree::new();
    let root = Node::create(&mut t, 0, None);
    let a = Node::create(&mut t, 1, Some(root));
    let c = Node::create(&mut t, 2, Some(a));
    let b = Node::create(&mut t, 3, Some(root));
    assert!(Node::is_child_of(&t, c, a));
    assert!(Node::is_child_of(&t, c, root));
    assert!(Node::is_child_of(&t, a, root));
    assert!(!Node::is_child_of(&t, root, c));
    assert!(!Node::is_child_of(&t, a, c));
    assert!(!Node::is_child_of(&t, a, b));
    assert!(!Node::is_child_of(&t, root, root));
}

#[test]
fn reparent_rejects_self_attachment() {
    let mut t: Tree<u32> = Tree::new();
    let root = Node::create(&mut t, 0, None);
    let a = Node::create(&mut t, 1, Some(root));
    assert_eq!(Node::reparent(&mut t, a, a), Err(CycleError));
    // Nothing moved.
    assert_eq!(t.get(a).parent(), Some(root));
}

#[test]
fn reparent_rejects_descendant_target() {
    let mut t: Tree<u32> = Tree::new();
    let root = Node::create(&mut t, 0, None);
    let a = Node::create(&mut t, 1, Some(root));
    let c = Node::create(&mut t, 2, Some(a));
    assert_eq!(Node::reparent(&mut t, root, c), Err(CycleError));
    assert_eq!(Node::reparent(&mut t, root, a), Err(CycleError));
    assert_eq!(Node::reparent(&mut t, a, c), Err(CycleError));
    // Nothing moved.
    assert_eq!(t.get(c).parent(), Some(a));
    assert_eq!(t.get(a).parent(), Some(root));
    assert!(t.get(root).parent().is_none());
}

#[test]
fn reparent_moves_node_and_leaves_old_parent() {
    let mut t: Tree<u32> = Tree::new();
    let root = Node::create(&mut t, 0, None);
    let a = Node::create(&mut t, 1, Some(root));
    let b = Node::create(&mut t, 2, Some(root));
    let c = Node::create(&mut t, 3, Some(a));
    assert_eq!(Node::reparent(&mut t, c, b), Ok(()));
    // Afterward the moved node descends from its new parent...
    assert!(Node::is_child_of(&t, c, b));
    assert_eq!(t.get(c).parent(), Some(b));
    // ...and no longer appears in its former parent's children.
    assert!(t.get(a).children().is_empty());
    let b_kids = t.get(b).children();
    assert_eq!(b_kids.len(), 1);
    assert_eq!(b_kids[0], c);
}

#[test]
fn reparent_to_own_parent_reorders_to_last() {
    let mut t: Tree<u32> = Tree::new();
    let root = Node::create(&mut t, 0, None);
    let a = Node::create(&mut t, 1, Some(root));
    let b = Node::create(&mut t, 2, Some(root));
    assert_eq!(Node::reparent(&mut t, a, root), Ok(()));
    let kids = t.get(root).children();
    assert_eq!(kids.len(), 2);
    assert_eq!(kids[0], b);
    assert_eq!(kids[1], a);
}

#[test]
fn remove_child_preserves_order_of_the_rest() {
    let mut t: Tree<u32> = Tree::new();
    let root = Node::create(&mut t, 0, None);
    let a = Node::create(&mut t, 1, Some(root));
    let b = Node::create(&mut t, 2, Some(root));
    let c = Node::create(&mut t, 3, Some(root));
    Node::remove_child(&mut t, root, b);
    let kids = t.get(root).children();
    assert_eq!(kids.len(), 2);
    assert_eq!(kids[0], a);
    assert_eq!(kids[1], c);
    // The removed node became a root of its own.
    assert!(t.get(b).parent().is_none());
}

#[test]
fn remove_child_is_idempotent() {
    let mut t: Tree<u32> = Tree::new();
    let root = Node::create(&mut t, 0, None);
    let a = Node::create(&mut t, 1, Some(root));
    let b = Node::create(&mut t, 2, Some(root));
    Node::remove_child(&mut t, root, a);
    let after_first: Vec<usize> = t.get(root).children().iter().map(|r| r.idx).collect();
    // Removing the same, now absent, child again is a no-op, not an error.
    Node::remove_child(&mut t, root, a);
    let after_second: Vec<usize> = t.get(root).children().iter().map(|r| r.idx).collect();
    assert_eq!(after_first, after_second);
    assert_eq!(after_first, vec![b.idx]);
    assert!(t.get(a).parent().is_none());
}

#[test]
fn find_child_scans_by_identifier() {
    let mut t: Tree<u32> = Tree::new();
    let root = Node::create(&mut t, 0, None);
    let a = Node::create(&mut t, 1, Some(root));
    let b = Node::create(&mut t, 2, Some(root));
    let c = Node::create(&mut t, 3, Some(a));
    let a_id = t.get(a).id;
    let c_id = t.get(c).id;
    assert_eq!(Node::find_child(&t, root, a_id), Some(a));
    assert_eq!(Node::find_child(&t, root, t.get(b).id), Some(b));
    // Grandchildren are not children: absence is an empty result.
    assert_eq!(Node::find_child(&t, root, c_id), None);
    assert_eq!(Node::find_child(&t, root, 987_654), None);
}

#[test]
fn siblings_of_root_is_none_and_siblings_exclude_self() {
    let mut t: Tree<u32> = Tree::new();
    let root = Node::create(&mut t, 0, None);
    let a = Node::create(&mut t, 1, Some(root));
    let b = Node::create(&mut t, 2, Some(root));
    assert!(Node::siblings(&t, root).is_none());
    let sibs = Node::siblings(&t, a).unwrap();
    assert_eq!(sibs.len(), 1);
    assert_eq!(sibs[0], b);
    let sibs_b = Node::siblings(&t, b).unwrap();
    assert_eq!(sibs_b.len(), 1);
    assert_eq!(sibs_b[0], a);
}

#[test]
fn ids_are_unique_and_monotonic_across_scene_graphs() {
    let mut t: Tree<u32> = Tree::new();
    let mut ids: Vec<usize> = Vec::new();
    // Two separate trees in one process share the arena's allocator.
    let root1 = Node::create(&mut t, 0, None);
    ids.push(t.get(root1).id);
    let a = Node::create(&mut t, 1, Some(root1));
    ids.push(t.get(a).id);
    let root2 = Node::create(&mut t, 2, None);
    ids.push(t.get(root2).id);
    let b = Node::create(&mut t, 3, Some(root2));
    ids.push(t.get(b).id);
    let c = Node::create(&mut t, 4, Some(a));
    ids.push(t.get(c).id);
    for i in 1..ids.len() {
        assert!(ids[i - 1] < ids[i]);
    }
    for i in 0..ids.len() {
        for j in (i + 1)..ids.len() {
            assert_ne!(ids[i], ids[j]);
        }
    }
}

#[test]
fn contains_rejects_foreign_handles() {
    let mut t: Tree<u32> = Tree::new();
    assert_eq!(t.len(), 0);
    let root = Node::create(&mut t, 0, None);
    assert_eq!(t.len(), 1);
    assert!(t.contains(root));
    let foreign = NodeRef { idx: 999 };
    assert!(!t.contains(foreign));
}

#[test]
fn id_allocator_is_monotonic_and_never_reuses() {
    let mut alloc = IdAllocator::new();
    let a = alloc.next_id();
    let b = alloc.next_id();
    let c = alloc.next_id();
    assert_eq!((a, b, c), (0, 1, 2));
    assert!(a < b && b < c);
}
