use rhizome::node::{FocusNode, NodeStatus};
use rhizome::time::Timestamp;
use rhizome::seqs::{vec_contains, vec_remove_value};
use rhizome::tree::{FocusTree, InsertError, MoveError};

fn node(id: u128, parent: Option<u128>, title: &str) -> FocusNode {
    FocusNode {
        id,
        parent_id: parent,
        title: title.to_string(),
        content: String::new(),
        created_at: Timestamp { secs: 1_700_000_000, nanos: 0 },
        status: NodeStatus::Active,
        streak_days: 0,
    }
}

/// R(1) with children A(2) and B(3); A has the child C(4).
fn family() -> FocusTree {
    let mut tree = FocusTree::new();
    tree.insert_node(node(1, None, "R")).unwrap();
    tree.insert_node(node(2, Some(1), "A")).unwrap();
    tree.insert_node(node(3, Some(1), "B")).unwrap();
    tree.insert_node(node(4, Some(2), "C")).unwrap();
    tree
}

fn keys(tree: &FocusTree) -> Vec<(usize, u128)> {
    tree.flatten_for_display().iter().map(|(d, n)| (*d, n.id)).collect()
}

fn sorted(mut v: Vec<u128>) -> Vec<u128> {
    v.sort();
    v
}

/// Every listed identity exists, and each node is listed once where its
/// parent reference says.
fn assert_consistent(tree: &FocusTree) {
    for id in &tree.root_ids {
        assert!(tree.nodes[id].parent_id.is_none());
    }
    for (parent, kids) in &tree.children_map {
        assert!(!kids.is_empty());
        for kid in kids {
            assert_eq!(tree.nodes[kid].parent_id, Some(*parent));
        }
    }
    for (id, n) in &tree.nodes {
        assert_eq!(n.id, *id);
        match n.parent_id {
            None => assert_eq!(tree.root_ids.iter().filter(|x| *x == id).count(), 1),
            Some(p) => {
                assert_eq!(tree.children_map[&p].iter().filter(|x| *x == id).count(), 1)
            }
        }
    }
}

#[test]
fn test_add_node() {
    let mut tree = FocusTree::new();
    let root_id = tree
        .add_node("Root".to_string(), "Root content".to_string(), None)
        .unwrap();
    let _child_id = tree
        .add_node(
            "Child".to_string(),
            "Child content".to_string(),
            Some(root_id),
        )
        .unwrap();

    assert_eq!(tree.nodes.len(), 2);
    assert_eq!(tree.root_ids.len(), 1);
    assert_eq!(tree.get_children(root_id).len(), 1);
    assert_eq!(tree.get_children(root_id)[0].title, "Child");
}

#[test]
fn test_delete_cascade() {
    let mut tree = FocusTree::new();
    let root_id = tree.add_node("Root".to_string(), "".to_string(), None).unwrap();
    let child_id = tree
        .add_node("Child".to_string(), "".to_string(), Some(root_id))
        .unwrap();
    let _grandchild_id = tree
        .add_node("Grandchild".to_string(), "".to_string(), Some(child_id))
        .unwrap();

    assert_eq!(tree.nodes.len(), 3);

    let deleted = tree.delete_node(child_id);
    assert_eq!(deleted.len(), 2); // child + grandchild
    assert_eq!(tree.nodes.len(), 1); // only root remains
    assert!(tree.nodes.contains_key(&root_id));
}

#[test]
fn new_tree_is_empty_and_clean() {
    let tree = FocusTree::new();
    assert_eq!(tree.len(), 0);
    assert!(tree.root_ids.is_empty());
    assert!(tree.children_map.is_empty());
    assert!(!tree.dirty);
    assert!(tree.flatten_for_display().is_empty());
}

#[test]
fn added_nodes_get_distinct_identities() {
    let mut tree = FocusTree::new();
    let a = tree.add_node("a".to_string(), String::new(), None).unwrap();
    let b = tree.add_node("b".to_string(), String::new(), None).unwrap();
    assert_ne!(a, b);
    assert_eq!(tree.root_ids, vec![a, b]);
    assert!(tree.dirty);
}

#[test]
fn added_node_has_the_fields_given() {
    let mut tree = FocusTree::new();
    let id = tree
        .add_node("title".to_string(), "body".to_string(), None)
        .unwrap();
    let n = tree.get(id).unwrap();
    assert_eq!(n.id, id);
    assert_eq!(n.title, "title");
    assert_eq!(n.content, "body");
    assert_eq!(n.parent_id, None);
    assert_eq!(n.status, NodeStatus::Active);
    assert_eq!(n.streak_days, 0);
    assert!(n.is_root());
}

#[test]
fn insert_rejects_a_duplicate_identity() {
    let mut tree = family();
    assert_eq!(
        tree.insert_node(node(2, None, "again")),
        Err(InsertError::DuplicateId)
    );
    assert_eq!(tree.len(), 4);
    assert_eq!(tree.get(2).unwrap().title, "A");
    assert_consistent(&tree);
}

#[test]
fn insert_rejects_a_node_that_is_its_own_parent() {
    let mut tree = FocusTree::new();
    assert_eq!(
        tree.insert_node(node(7, Some(7), "loop")),
        Err(InsertError::Cycle)
    );
    assert_eq!(tree.len(), 0);
    assert!(!tree.dirty);
}

#[test]
fn insert_rejects_a_cycle_through_waiting_children() {
    let mut tree = FocusTree::new();
    // 2 waits for its parent 1, 3 hangs under 2
    tree.insert_node(node(2, Some(1), "child")).unwrap();
    tree.insert_node(node(3, Some(2), "grandchild")).unwrap();
    assert_eq!(
        tree.insert_node(node(1, Some(3), "parent")),
        Err(InsertError::Cycle)
    );
    assert_eq!(tree.len(), 2);
    assert_consistent(&tree);
}

#[test]
fn insert_under_a_missing_parent_is_kept_but_not_displayed() {
    let mut tree = FocusTree::new();
    tree.insert_node(node(1, None, "root")).unwrap();
    tree.insert_node(node(5, Some(99), "stray")).unwrap();
    assert_eq!(tree.len(), 2);
    assert!(tree.contains(5));
    assert_eq!(keys(&tree), vec![(0, 1)]);
    assert_consistent(&tree);
}

#[test]
fn a_parent_inserted_later_adopts_its_waiting_children() {
    let mut tree = FocusTree::new();
    tree.insert_node(node(2, Some(1), "child")).unwrap();
    assert!(keys(&tree).is_empty());
    tree.insert_node(node(1, None, "parent")).unwrap();
    assert_eq!(keys(&tree), vec![(0, 1), (1, 2)]);
    assert_consistent(&tree);
}

#[test]
fn descendants_of_the_root_are_all_other_nodes() {
    let tree = family();
    assert_eq!(sorted(tree.get_all_descendants(1)), vec![2, 3, 4]);
    assert_eq!(sorted(tree.get_all_descendants(2)), vec![4]);
    assert!(tree.get_all_descendants(3).is_empty());
    assert!(tree.get_all_descendants(4).is_empty());
    assert!(tree.get_all_descendants(77).is_empty());
}

#[test]
fn descendants_come_in_walk_order() {
    let tree = family();
    // children of 1 are seen first; 3 is on top of the stack, then 2 yields 4
    assert_eq!(tree.get_all_descendants(1), vec![2, 3, 4]);
}

#[test]
fn delete_removes_exactly_the_subtree() {
    let mut tree = family();
    let removed = tree.delete_node(2);
    assert_eq!(removed[0], 2);
    assert_eq!(sorted(removed), vec![2, 4]);
    assert_eq!(tree.len(), 2);
    assert!(tree.contains(1) && tree.contains(3));
    assert!(!tree.contains(2) && !tree.contains(4));
    assert_eq!(tree.children_map[&1], vec![3]);
    assert!(!tree.children_map.contains_key(&2));
    assert_eq!(keys(&tree), vec![(0, 1), (1, 3)]);
    assert_consistent(&tree);
}

#[test]
fn delete_of_a_root_empties_the_tree() {
    let mut tree = family();
    let removed = tree.delete_node(1);
    assert_eq!(removed.len(), 4);
    assert_eq!(tree.len(), 0);
    assert!(tree.root_ids.is_empty());
    assert!(tree.children_map.is_empty());
}

#[test]
fn delete_of_the_last_child_drops_the_empty_list() {
    let mut tree = family();
    tree.delete_node(4);
    assert!(!tree.children_map.contains_key(&2));
    assert_consistent(&tree);
}

#[test]
fn delete_of_a_missing_node_changes_nothing() {
    let mut tree = family();
    tree.dirty = false;
    let removed = tree.delete_node(42);
    assert!(removed.is_empty());
    assert_eq!(tree.len(), 4);
    assert!(!tree.dirty);
    assert_eq!(keys(&tree), vec![(0, 1), (1, 2), (2, 4), (1, 3)]);
}

#[test]
fn cascading_fail_keeps_the_node_and_removes_what_is_below() {
    let mut tree = family();
    let removed = tree.fail_node(2);
    assert_eq!(removed, vec![4]);
    assert_eq!(sorted(tree.nodes.keys().copied().collect()), vec![1, 2, 3]);
    assert_eq!(tree.get(2).unwrap().status, NodeStatus::Failed);
    assert_eq!(tree.get(1).unwrap().status, NodeStatus::Active);
    assert_eq!(tree.get(3).unwrap().status, NodeStatus::Active);
    assert!(!tree.contains(4));
    assert!(tree.get_all_descendants(2).is_empty());
    assert!(tree.get_children(2).is_empty());
    assert_eq!(tree.children_map[&1], vec![2, 3]);
    assert_eq!(tree.root_ids, vec![1]);
    assert_consistent(&tree);
}

#[test]
fn fail_of_a_missing_node_changes_nothing() {
    let mut tree = family();
    tree.dirty = false;
    assert!(tree.fail_node(42).is_empty());
    assert_eq!(tree.len(), 4);
    assert!(!tree.dirty);
}

#[test]
fn recover_of_an_active_node_is_a_no_op() {
    let mut tree = family();
    tree.dirty = false;
    tree.recover_node(3);
    assert_eq!(tree.get(3).unwrap().status, NodeStatus::Active);
    assert!(!tree.dirty);
    assert_eq!(tree.len(), 4);
}

#[test]
fn recover_fail_recover_ends_active() {
    let mut tree = family();
    tree.recover_node(3);
    tree.fail_node(3);
    assert_eq!(tree.get(3).unwrap().status, NodeStatus::Failed);
    tree.recover_node(3);
    assert_eq!(tree.get(3).unwrap().status, NodeStatus::Active);
    assert_eq!(tree.len(), 4);
    assert_eq!(keys(&tree), vec![(0, 1), (1, 2), (2, 4), (1, 3)]);
    assert_consistent(&tree);
}

#[test]
fn recover_does_not_bring_back_removed_nodes() {
    let mut tree = family();
    tree.fail_node(2);
    tree.recover_node(2);
    assert_eq!(tree.get(2).unwrap().status, NodeStatus::Active);
    assert!(!tree.contains(4));
}

#[test]
fn recover_leaves_a_completed_node_completed() {
    let mut tree = FocusTree::new();
    let mut n = node(1, None, "done");
    n.status = NodeStatus::Completed;
    tree.insert_node(n).unwrap();
    tree.recover_node(1);
    assert_eq!(tree.get(1).unwrap().status, NodeStatus::Completed);
}

#[test]
fn move_under_a_descendant_is_rejected() {
    // R(1) -> A(2) -> B(3)
    let mut tree = FocusTree::new();
    tree.insert_node(node(1, None, "R")).unwrap();
    tree.insert_node(node(2, Some(1), "A")).unwrap();
    tree.insert_node(node(3, Some(2), "B")).unwrap();
    tree.dirty = false;
    assert_eq!(tree.move_node(2, Some(3)), Err(MoveError::UnderDescendant));
    assert_eq!(keys(&tree), vec![(0, 1), (1, 2), (2, 3)]);
    assert_eq!(tree.get(2).unwrap().parent_id, Some(1));
    assert!(!tree.dirty);
    assert_consistent(&tree);
}

#[test]
fn move_under_itself_is_rejected() {
    let mut tree = family();
    assert_eq!(tree.move_node(2, Some(2)), Err(MoveError::SelfParent));
    assert_eq!(keys(&tree), vec![(0, 1), (1, 2), (2, 4), (1, 3)]);
}

#[test]
fn move_takes_the_subtree_along() {
    let mut tree = family();
    assert_eq!(tree.move_node(2, Some(3)), Ok(()));
    assert_eq!(tree.get(2).unwrap().parent_id, Some(3));
    assert_eq!(tree.get(4).unwrap().parent_id, Some(2));
    assert_eq!(keys(&tree), vec![(0, 1), (1, 3), (2, 2), (3, 4)]);
    assert_consistent(&tree);
}

#[test]
fn move_to_the_roots_appends_a_root() {
    let mut tree = family();
    assert_eq!(tree.move_node(2, None), Ok(()));
    assert_eq!(tree.root_ids, vec![1, 2]);
    assert_eq!(keys(&tree), vec![(0, 1), (1, 3), (0, 2), (1, 4)]);
    assert_consistent(&tree);
}

#[test]
fn move_of_a_root_under_another_node() {
    let mut tree = family();
    tree.insert_node(node(9, None, "S")).unwrap();
    assert_eq!(tree.move_node(1, Some(9)), Ok(()));
    assert_eq!(tree.root_ids, vec![9]);
    assert_eq!(
        keys(&tree),
        vec![(0, 9), (1, 1), (2, 2), (3, 4), (2, 3)]
    );
    assert_consistent(&tree);
}

#[test]
fn move_within_the_same_parent_goes_to_the_end() {
    let mut tree = family();
    assert_eq!(tree.move_node(2, Some(1)), Ok(()));
    assert_eq!(tree.children_map[&1], vec![3, 2]);
    assert_consistent(&tree);
}

#[test]
fn move_of_a_missing_node_changes_nothing() {
    let mut tree = family();
    tree.dirty = false;
    assert_eq!(tree.move_node(42, Some(1)), Ok(()));
    assert_eq!(keys(&tree), vec![(0, 1), (1, 2), (2, 4), (1, 3)]);
    assert!(!tree.dirty);
}

#[test]
fn flatten_is_preorder_with_depths() {
    let tree = family();
    assert_eq!(keys(&tree), vec![(0, 1), (1, 2), (2, 4), (1, 3)]);
}

#[test]
fn flatten_twice_gives_the_same_list() {
    let tree = family();
    assert_eq!(keys(&tree), keys(&tree));
}

#[test]
fn a_new_child_appears_after_the_subtree_of_the_last_child() {
    let mut tree = family();
    tree.insert_node(node(5, Some(2), "D")).unwrap();
    assert_eq!(keys(&tree), vec![(0, 1), (1, 2), (2, 4), (2, 5), (1, 3)]);
    tree.insert_node(node(6, Some(1), "E")).unwrap();
    assert_eq!(
        keys(&tree),
        vec![(0, 1), (1, 2), (2, 4), (2, 5), (1, 3), (1, 6)]
    );
    tree.insert_node(node(7, Some(3), "first child")).unwrap();
    assert_eq!(
        keys(&tree),
        vec![(0, 1), (1, 2), (2, 4), (2, 5), (1, 3), (2, 7), (1, 6)]
    );
}

#[test]
fn flatten_hands_out_the_stored_nodes() {
    let tree = family();
    let rows = tree.flatten_for_display();
    assert_eq!(rows[2].1.title, "C");
    assert_eq!(rows[3].1.title, "B");
}

#[test]
fn children_and_roots_come_in_insertion_order() {
    let mut tree = family();
    tree.insert_node(node(8, None, "S")).unwrap();
    let kids: Vec<u128> = tree.get_children(1).iter().map(|n| n.id).collect();
    assert_eq!(kids, vec![2, 3]);
    let roots: Vec<u128> = tree.get_roots().iter().map(|n| n.id).collect();
    assert_eq!(roots, vec![1, 8]);
    assert!(tree.get_children(3).is_empty());
}

#[test]
fn titles_and_contents_can_be_replaced() {
    let mut tree = family();
    tree.dirty = false;
    tree.set_title(2, "renamed".to_string());
    assert_eq!(tree.get(2).unwrap().title, "renamed");
    assert!(tree.dirty);
    tree.set_content(2, "text".to_string());
    assert_eq!(tree.get(2).unwrap().content, "text");
    tree.dirty = false;
    tree.set_title(42, "nobody".to_string());
    tree.set_content(42, "nothing".to_string());
    assert!(!tree.dirty);
    assert_eq!(tree.len(), 4);
}

#[test]
fn a_long_chain_is_walked_without_trouble() {
    let mut tree = FocusTree::new();
    tree.insert_node(node(0, None, "top")).unwrap();
    for i in 1..200u128 {
        tree.insert_node(node(i, Some(i - 1), "link")).unwrap();
    }
    assert_eq!(tree.get_all_descendants(0).len(), 199);
    let rows = keys(&tree);
    assert_eq!(rows.len(), 200);
    assert_eq!(rows[199], (199, 199));
    assert_eq!(tree.delete_node(100).len(), 100);
    assert_eq!(tree.len(), 100);
    assert_consistent(&tree);
}

#[test]
fn vec_helpers() {
    let mut v = vec![5u128, 6, 7];
    assert!(vec_contains(&v, 6));
    assert!(!vec_contains(&v, 8));
    vec_remove_value(&mut v, 6);
    assert_eq!(v, vec![5, 7]);
    vec_remove_value(&mut v, 9);
    assert_eq!(v, vec![5, 7]);
}

#[test]
fn duplicate_is_field_for_field() {
    let mut n = node(3, Some(1), "t");
    n.content = "c".to_string();
    n.status = NodeStatus::Failed;
    n.streak_days = 4;
    let d = n.duplicate();
    assert_eq!(d.id, 3);
    assert_eq!(d.parent_id, Some(1));
    assert_eq!(d.title, "t");
    assert_eq!(d.content, "c");
    assert_eq!(d.created_at, n.created_at);
    assert_eq!(d.status, NodeStatus::Failed);
    assert_eq!(d.streak_days, 4);
    assert!(!d.is_root());
}

#[test]
fn default_status_is_active() {
    assert_eq!(NodeStatus::default(), NodeStatus::Active);
}

#[test]
fn default_tree_is_empty() {
    let tree = FocusTree::default();
    assert_eq!(tree.len(), 0);
    assert!(!tree.dirty);
}

#[test]
fn a_cloned_tree_is_independent() {
    let tree = family();
    let mut copy = tree.clone();
    copy.delete_node(2);
    assert_eq!(tree.len(), 4);
    assert_eq!(copy.len(), 2);
}

#[test]
fn mark_saved_clears_the_dirty_flag_only() {
    let mut tree = family();
    assert!(tree.dirty);
    tree.mark_saved();
    assert!(!tree.dirty);
    assert_eq!(tree.len(), 4);
    assert_eq!(keys(&tree), vec![(0, 1), (1, 2), (2, 4), (1, 3)]);
}

#[test]
fn move_keeps_the_order_of_the_children_taken_along() {
    let mut tree = family();
    tree.insert_node(node(5, Some(2), "D")).unwrap();
    tree.insert_node(node(6, Some(4), "E")).unwrap();
    let before = sorted(tree.get_all_descendants(2));
    assert_eq!(tree.move_node(2, None), Ok(()));
    assert_eq!(sorted(tree.get_all_descendants(2)), before);
    assert_eq!(tree.children_map[&2], vec![4, 5]);
    assert_eq!(tree.children_map[&4], vec![6]);
    assert_eq!(
        keys(&tree),
        vec![(0, 1), (1, 3), (0, 2), (1, 4), (2, 6), (1, 5)]
    );
}
