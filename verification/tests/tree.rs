use kairoi::node::{Id, Node, Tree};

#[test]
fn add_assigns_depth_and_parent() {
    let mut t: Tree<u64> = Tree::new(0);
    let root = Id(0);
    assert_eq!(t.depth(root), 0);
    assert_eq!(t.parent(root), None);

    let a = t.add(root, 10);
    let b = t.add(root, 20);
    let c = t.add(a, 30);

    assert_eq!(t.depth(a), 1);
    assert_eq!(t.depth(b), 1);
    assert_eq!(t.depth(c), 2);
    assert_eq!(t.parent(a), Some(root));
    assert_eq!(t.parent(c), Some(a));
    assert_eq!(*t.value(c), 30);
    assert_eq!(t.len(), 4);
}

#[test]
fn ids_are_unique_and_monotonic() {
    let mut t: Tree<u64> = Tree::new(0);
    let a = t.add(Id(0), 1);
    let b = t.add(Id(0), 2);
    let c = t.add(a, 3);
    assert_ne!(a, b);
    assert_ne!(b, c);
    assert_ne!(a, c);
    assert!(a.0 < b.0 && b.0 < c.0);
}

#[test]
fn children_snapshot_in_insertion_order() {
    let mut t: Tree<u64> = Tree::new(0);
    let a = t.add(Id(0), 1);
    let b = t.add(Id(0), 2);
    let c = t.add(Id(0), 3);
    assert_eq!(t.children(Id(0)), vec![a, b, c]);
    assert_eq!(t.children(a), vec![]);
}

#[test]
fn update_round_trip_returns_exact_value() {
    let mut t: Tree<u64> = Tree::new(0);
    let a = t.add(Id(0), 1);
    t.update(a, 77);
    assert_eq!(*t.value(a), 77);
    t.update(a, 78);
    assert_eq!(*t.value(a), 78);
    // an update of one node leaves every other node's value alone
    assert_eq!(*t.value(Id(0)), 0);
}

#[test]
fn delete_detaches_and_is_idempotent() {
    let mut t: Tree<u64> = Tree::new(0);
    let a = t.add(Id(0), 1);
    let b = t.add(Id(0), 2);

    assert!(t.is_attached(a));
    t.delete(a);
    assert!(!t.is_attached(a));
    // second delete: no error, no effect on siblings
    t.delete(a);
    assert!(!t.is_attached(a));
    assert!(t.is_attached(b));
    assert_eq!(t.children(Id(0)), vec![b]);
    // the entry itself survives: identity is not position
    assert_eq!(*t.value(a), 1);
}

#[test]
fn delete_root_is_a_no_op() {
    let mut t: Tree<u64> = Tree::new(0);
    let a = t.add(Id(0), 1);
    t.delete(Id(0));
    assert!(t.is_attached(Id(0)));
    assert!(t.is_attached(a));
}

#[test]
fn detached_node_is_not_found_by_id() {
    let mut t: Tree<u64> = Tree::new(0);
    let a = t.add(Id(0), 1);
    let c = t.add(a, 2);
    assert_eq!(t.find_depth(Id(0), c), Some(2));
    t.delete(c);
    // detach-then-lookup yields "not found", never a resurrected node
    assert_eq!(t.find_depth(Id(0), c), None);
}

#[test]
fn find_depth_walks_subtrees() {
    let mut t: Tree<u64> = Tree::new(0);
    let a = t.add(Id(0), 1);
    let b = t.add(Id(0), 2);
    let c = t.add(a, 3);
    assert_eq!(t.find_depth(Id(0), Id(0)), Some(0));
    assert_eq!(t.find_depth(a, c), Some(2));
    // c is not in b's subtree
    assert_eq!(t.find_depth(b, c), None);
    // deleting the parent detaches the whole subtree from the root
    t.delete(a);
    assert_eq!(t.find_depth(Id(0), c), None);
    // but c is still inside the detached subtree under a
    assert_eq!(t.find_depth(a, c), Some(2));
}

#[test]
fn find_first_match_depth_first() {
    let mut t: Tree<u64> = Tree::new(0);
    let a = t.add(Id(0), 5);
    let _b = t.add(Id(0), 5);
    let pred = |n: &Node<u64>| n.value == 5;
    let hit = t.find(Id(0), &pred);
    assert_eq!(hit, Some(a));
    let none = t.find(Id(0), &|n: &Node<u64>| n.value == 99);
    assert_eq!(none, None);
}

#[test]
fn find_all_visits_each_live_node_exactly_once() {
    let mut t: Tree<u64> = Tree::new(0);
    let a = t.add(Id(0), 1);
    let b = t.add(Id(0), 2);
    let c = t.add(a, 3);
    let d = t.add(b, 4);
    let every = |_n: &Node<u64>| true;
    let mut all = t.find_all(Id(0), &every);
    assert_eq!(all.len(), 5);
    all.sort();
    all.dedup();
    assert_eq!(all, vec![Id(0), a, b, c, d]);

    // after a delete, the detached subtree is no longer traversed
    t.delete(a);
    let remaining = t.find_all(Id(0), &every);
    assert_eq!(remaining, vec![Id(0), b, d]);
    assert!(!remaining.contains(&c));
}

#[test]
fn find_all_filters_by_predicate() {
    let mut t: Tree<u64> = Tree::new(0);
    let _a = t.add(Id(0), 1);
    let b = t.add(Id(0), 2);
    let d = t.add(b, 2);
    let twos = t.find_all(Id(0), &|n: &Node<u64>| n.value == 2);
    assert_eq!(twos, vec![b, d]);
}

#[test]
fn adding_under_detached_parent_keeps_invariants() {
    let mut t: Tree<u64> = Tree::new(0);
    let a = t.add(Id(0), 1);
    t.delete(a);
    // the caller still holds a handle to a detached node and may extend it
    let c = t.add(a, 2);
    assert_eq!(t.depth(c), 2);
    assert_eq!(t.parent(c), Some(a));
    // the new child is attached to its parent, but not live from the root
    assert!(t.is_attached(c));
    assert_eq!(t.find_depth(Id(0), c), None);
}

#[test]
fn a_fresh_tree_has_only_the_root() {
    let t: Tree<u64> = Tree::new(9);
    assert_eq!(t.len(), 1);
    assert_eq!(*t.value(Id(0)), 9);
    assert!(t.is_attached(Id(0)));
    assert_eq!(t.children(Id(0)), vec![]);
    assert_eq!(t.find_all(Id(0), &|_n: &Node<u64>| true), vec![Id(0)]);
}

#[test]
fn node_accessors_match_tree_lookups() {
    let mut t: Tree<u64> = Tree::new(0);
    let a = t.add(Id(0), 4);
    let n = t.node(a);
    assert_eq!(n.id(), a);
    assert_eq!(*n.value(), 4);
    assert_eq!(n.depth(), 1);
    assert_eq!(n.parent(), Some(Id(0)));
    assert!(n.children().is_empty());
}
