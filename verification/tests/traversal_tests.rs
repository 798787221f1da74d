use game_state::tree::{BreadthFirstIterator, BreadthFirstVisitor, Node, NodeVisitor, Tree};

#[test]
fn breadth_first_iterator_yields_level_order() {
    let mut t: Tree<u32> = Tree::new();
    let root = Node::create(&mut t, 0, None);
    let a = Node::create(&mut t, 1, Some(root));
    let b = Node::create(&mut t, 2, Some(root));
    let c = Node::create(&mut t, 3, Some(a));
    let mut it = BreadthFirstIterator::new(root);
    let mut order: Vec<usize> = Vec::new();
    while let Some((id, _node)) = it.next(&t) {
        order.push(id);
    }
    // Exactly root, a, b, c: parents before children, siblings in
    // insertion order.
    assert_eq!(order, vec![t.get(root).id, t.get(a).id, t.get(b).id, t.get(c).id]);
    // Exhausted for good: a fresh instance is needed to traverse again.
    assert!(it.next(&t).is_none());
    assert!(it.next(&t).is_none());
}

#[test]
fn breadth_first_iterator_yields_pairs() {
    let mut t: Tree<u32> = Tree::new();
    let root = Node::create(&mut t, 7, None);
    let a = Node::create(&mut t, 8, Some(root));
    let mut it = BreadthFirstIterator::new(root);
    let (id0, n0) = it.next(&t).unwrap();
    assert_eq!(id0, t.get(root).id);
    assert_eq!(n0, root);
    let (id1, n1) = it.next(&t).unwrap();
    assert_eq!(id1, t.get(a).id);
    assert_eq!(n1, a);
    assert!(it.next(&t).is_none());
}

#[test]
fn visitor_steps_in_the_same_level_order() {
    let mut t: Tree<u32> = Tree::new();
    let root = Node::create(&mut t, 0, None);
    let a = Node::create(&mut t, 1, Some(root));
    let b = Node::create(&mut t, 2, Some(root));
    let c = Node::create(&mut t, 3, Some(a));
    let mut v = BreadthFirstVisitor::new(root);
    let mut order: Vec<usize> = Vec::new();
    // The caller interleaves traversal steps with its own work.
    while <BreadthFirstVisitor as NodeVisitor<u32>>::has_next(&v) {
        let n = v.visit(&t).unwrap();
        order.push(t.get(n).id);
    }
    assert_eq!(order, vec![t.get(root).id, t.get(a).id, t.get(b).id, t.get(c).id]);
    assert!(!<BreadthFirstVisitor as NodeVisitor<u32>>::has_next(&v));
    assert!(v.visit(&t).is_none());
}

#[test]
fn traversal_reads_current_children_at_dequeue_time() {
    let mut t: Tree<u32> = Tree::new();
    let root = Node::create(&mut t, 0, None);
    let a = Node::create(&mut t, 1, Some(root));
    let mut it = BreadthFirstIterator::new(root);
    let (root_id, _) = it.next(&t).unwrap();
    assert_eq!(root_id, t.get(root).id);
    // A child attached to `a` after `a` was enqueued is still discovered,
    // because children are read when each node is dequeued.
    let late = Node::create(&mut t, 2, Some(a));
    let (a_id, _) = it.next(&t).unwrap();
    assert_eq!(a_id, t.get(a).id);
    let (late_id, _) = it.next(&t).unwrap();
    assert_eq!(late_id, t.get(late).id);
    assert!(it.next(&t).is_none());
}
