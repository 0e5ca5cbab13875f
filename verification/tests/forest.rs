use rbx_tree::RbxTree;

#[test]
fn empty_forest_has_no_roots_and_no_nodes() {
    let tree: RbxTree<String> = RbxTree::new();
    assert_eq!(tree.get_root_ids().len(), 0);
    assert!(tree.get_instance(0).is_none());
}

#[test]
fn insert_root_and_lookup() {
    let mut tree: RbxTree<String> = RbxTree::new();
    let a = tree.insert_instance(String::from("alpha"), None);
    assert_eq!(tree.get_root_ids().len(), 1);
    assert!(tree.get_root_ids().contains(&a));
    let node = tree.get_instance(a).expect("root must be stored");
    assert_eq!(node.get_id(), a);
    assert_eq!(node.get_parent_id(), None);
    assert!(node.get_children_ids().is_empty());
    assert_eq!(node.get_payload(), "alpha");
}

#[test]
fn insert_child_appends_to_end_of_child_list() {
    let mut tree: RbxTree<u64> = RbxTree::new();
    let a = tree.insert_instance(1, None);
    let b = tree.insert_instance(2, Some(a));
    let c = tree.insert_instance(3, Some(a));
    let d = tree.insert_instance(4, Some(a));
    let children = tree.get_instance(a).unwrap().get_children_ids();
    assert_eq!(children, &vec![b, c, d]);
    assert_eq!(tree.get_instance(b).unwrap().get_parent_id(), Some(a));
    assert_eq!(tree.get_instance(c).unwrap().get_parent_id(), Some(a));
    assert_eq!(tree.get_instance(d).unwrap().get_parent_id(), Some(a));
}

#[test]
fn get_instance_mut_edits_payload_only() {
    let mut tree: RbxTree<String> = RbxTree::new();
    let a = tree.insert_instance(String::from("before"), None);
    let b = tree.insert_instance(String::from("child"), Some(a));
    {
        let payload = tree.get_instance_mut(a).expect("present");
        assert_eq!(payload, "before");
        *payload = String::from("after");
    }
    assert_eq!(tree.get_instance(a).unwrap().get_payload(), "after");
    assert_eq!(tree.get_instance(a).unwrap().get_children_ids(), &vec![b]);
    assert!(tree.get_instance_mut(999).is_none());
}

#[test]
fn remove_absent_id_returns_none_and_changes_nothing() {
    let mut tree: RbxTree<u64> = RbxTree::new();
    let a = tree.insert_instance(7, None);
    assert!(tree.remove_instance(a + 100).is_none());
    assert!(tree.get_instance(a).is_some());
    assert_eq!(tree.get_root_ids().len(), 1);
}

#[test]
fn scenario_two_children_then_remove_root() {
    let mut tree: RbxTree<String> = RbxTree::new();
    let a = tree.insert_instance(String::from("payload_a"), None);
    let b = tree.insert_instance(String::from("payload_b"), Some(a));
    let c = tree.insert_instance(String::from("payload_c"), Some(a));
    assert_eq!(tree.get_root_ids().len(), 1);
    assert!(tree.get_root_ids().contains(&a));
    assert_eq!(tree.get_instance(a).unwrap().get_children_ids(), &vec![b, c]);

    let removed = tree.remove_instance(a).expect("a is present");
    assert!(tree.get_instance(a).is_none());
    assert_eq!(tree.get_root_ids().len(), 0);
    assert_eq!(removed.get_root_ids().len(), 1);
    assert!(removed.get_root_ids().contains(&a));
    assert!(removed.get_instance(b).is_some());
    assert!(removed.get_instance(c).is_some());
}

#[test]
fn removed_subtree_keeps_internal_structure() {
    let mut tree: RbxTree<u64> = RbxTree::new();
    let root = tree.insert_instance(0, None);
    let mid = tree.insert_instance(1, Some(root));
    let leaf1 = tree.insert_instance(2, Some(mid));
    let leaf2 = tree.insert_instance(3, Some(mid));
    let other = tree.insert_instance(4, Some(root));

    let removed = tree.remove_instance(mid).expect("mid is present");
    // The detached root has no parent and is the sole root.
    assert_eq!(removed.get_instance(mid).unwrap().get_parent_id(), None);
    assert_eq!(removed.get_root_ids().len(), 1);
    assert!(removed.get_root_ids().contains(&mid));
    // Its internal shape is untouched.
    assert_eq!(removed.get_instance(mid).unwrap().get_children_ids(), &vec![leaf1, leaf2]);
    assert_eq!(removed.get_instance(leaf1).unwrap().get_parent_id(), Some(mid));
    assert_eq!(removed.get_instance(leaf2).unwrap().get_parent_id(), Some(mid));
    // What stays behind no longer references the subtree.
    assert_eq!(tree.get_instance(root).unwrap().get_children_ids(), &vec![other]);
    assert!(tree.get_instance(mid).is_none());
    assert!(tree.get_instance(leaf1).is_none());
    assert!(tree.get_instance(leaf2).is_none());
}

#[test]
fn round_trip_remove_then_transplant_back() {
    let mut tree: RbxTree<u64> = RbxTree::new();
    let root = tree.insert_instance(0, None);
    let first = tree.insert_instance(1, Some(root));
    let last = tree.insert_instance(2, Some(root));
    let grandchild = tree.insert_instance(3, Some(last));

    // Remove the LAST child of `root` and graft it back under `root`.
    let mut removed = tree.remove_instance(last).expect("present");
    tree.transplant(&mut removed, last, Some(root));

    // Structurally equal to the original forest.
    assert_eq!(tree.get_root_ids().len(), 1);
    assert!(tree.get_root_ids().contains(&root));
    assert_eq!(tree.get_instance(root).unwrap().get_children_ids(), &vec![first, last]);
    assert_eq!(tree.get_instance(last).unwrap().get_parent_id(), Some(root));
    assert_eq!(tree.get_instance(last).unwrap().get_children_ids(), &vec![grandchild]);
    assert_eq!(tree.get_instance(grandchild).unwrap().get_parent_id(), Some(last));
    // The emptied source forest holds nothing any more.
    assert_eq!(removed.get_root_ids().len(), 0);
    assert!(removed.get_instance(last).is_none());
    assert!(removed.get_instance(grandchild).is_none());
}

#[test]
fn transplant_moves_whole_subtree_between_forests() {
    let mut source: RbxTree<u64> = RbxTree::new();
    let s_root = source.insert_instance(20, None);
    let moved = source.insert_instance(21, Some(s_root));
    let moved_child = source.insert_instance(22, Some(moved));
    let moved_grandchild = source.insert_instance(23, Some(moved_child));

    // The moved subtree uses identifiers assigned after the target's
    // only node, so the two identifier sets are disjoint.
    let mut target: RbxTree<u64> = RbxTree::new();
    let home = target.insert_instance(10, None);
    assert_eq!(home, 0);
    assert!(moved > home && moved_child > home && moved_grandchild > home);

    let mut detached = source.remove_instance(moved).expect("present");
    target.transplant(&mut detached, moved, Some(home));

    assert!(detached.get_instance(moved).is_none());
    assert!(detached.get_instance(moved_child).is_none());
    assert!(detached.get_instance(moved_grandchild).is_none());
    assert_eq!(detached.get_root_ids().len(), 0);
    assert!(source.get_instance(moved).is_none());
    assert!(source.get_instance(s_root).unwrap().get_children_ids().is_empty());

    assert_eq!(target.get_instance(home).unwrap().get_children_ids(), &vec![moved]);
    assert_eq!(target.get_instance(moved).unwrap().get_parent_id(), Some(home));
    assert_eq!(target.get_instance(moved).unwrap().get_children_ids(), &vec![moved_child]);
    assert_eq!(
        target.get_instance(moved_child).unwrap().get_children_ids(),
        &vec![moved_grandchild]
    );
    assert_eq!(target.get_instance(moved_grandchild).unwrap().get_payload(), &23);
}

#[test]
fn transplant_as_new_root() {
    let mut target: RbxTree<u64> = RbxTree::new();
    let a = target.insert_instance(1, None);
    let mut removed = target.remove_instance(a).expect("present");
    let mut other: RbxTree<u64> = RbxTree::new();
    other.transplant(&mut removed, a, None);
    assert!(other.get_root_ids().contains(&a));
    assert_eq!(other.get_instance(a).unwrap().get_parent_id(), None);
    assert_eq!(removed.get_root_ids().len(), 0);
}

#[test]
fn descendants_yields_self_first_then_reverse_sibling_order() {
    let mut tree: RbxTree<u64> = RbxTree::new();
    let a = tree.insert_instance(0, None);
    let b = tree.insert_instance(1, Some(a));
    let c = tree.insert_instance(2, Some(a));
    let d = tree.insert_instance(3, Some(b));

    let mut walk = tree.descendants(a);
    let mut order: Vec<u64> = Vec::new();
    while let Some(node) = walk.next() {
        order.push(node.get_id());
    }
    // Depth-first with a stack: the seed first, then the last-pushed
    // child before its earlier siblings.
    assert_eq!(order, vec![a, c, b, d]);
}

#[test]
fn descendants_covers_each_node_exactly_once() {
    let mut tree: RbxTree<u64> = RbxTree::new();
    let a = tree.insert_instance(0, None);
    let b = tree.insert_instance(1, Some(a));
    let c = tree.insert_instance(2, Some(b));
    let d = tree.insert_instance(3, Some(b));
    let e = tree.insert_instance(4, Some(a));
    let outside = tree.insert_instance(5, None);

    let mut walk = tree.descendants(a);
    let mut seen: Vec<u64> = Vec::new();
    while let Some(node) = walk.next() {
        assert!(!seen.contains(&node.get_id()));
        seen.push(node.get_id());
    }
    assert_eq!(seen.len(), 5);
    for id in [a, b, c, d, e] {
        assert!(seen.contains(&id));
    }
    assert!(!seen.contains(&outside));
}

#[test]
fn descendants_of_absent_id_is_empty() {
    let tree: RbxTree<u64> = RbxTree::new();
    let mut walk = tree.descendants(42);
    assert!(walk.next().is_none());
}
