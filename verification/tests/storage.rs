use rhizome::data::{FocusTreeData, LoadError, TreeMeta};
use rhizome::node::{FocusNode, NodeStatus};
use rhizome::time::Timestamp;
use rhizome::tree::{FocusTree, InsertError};

fn record(id: u128, parent: Option<u128>, title: &str) -> FocusNode {
    FocusNode {
        id,
        parent_id: parent,
        title: title.to_string(),
        content: format!("about {}", title),
        created_at: Timestamp { secs: 1_700_000_000 + id as i64, nanos: 7 },
        status: NodeStatus::Active,
        streak_days: 2,
    }
}

fn data(nodes: Vec<FocusNode>) -> FocusTreeData {
    FocusTreeData {
        meta: TreeMeta::stamped(Timestamp { secs: 0, nanos: 0 }),
        nodes,
    }
}

fn keys(tree: &FocusTree) -> Vec<(usize, u128)> {
    tree.flatten_for_display().iter().map(|(d, n)| (*d, n.id)).collect()
}

#[test]
fn default_data_is_empty_with_the_current_version() {
    let d = FocusTreeData::default();
    assert!(d.nodes.is_empty());
    assert_eq!(d.meta.version, "1.0");
    assert_eq!(d.meta.created_at, d.meta.last_modified);
    assert!(d.meta.created_at.secs > 1_600_000_000);
}

#[test]
fn stamped_meta_carries_the_time_given() {
    let m = TreeMeta::stamped(Timestamp { secs: 12, nanos: 34 });
    assert_eq!(m.version, "1.0");
    assert_eq!(m.created_at, Timestamp { secs: 12, nanos: 34 });
    assert_eq!(m.last_modified, Timestamp { secs: 12, nanos: 34 });
}

#[test]
fn chain_survives_a_round_trip() {
    let mut tree = FocusTree::new();
    let root = tree.add_node("root".to_string(), "r".to_string(), None).unwrap();
    let child = tree.add_node("child".to_string(), "c".to_string(), Some(root)).unwrap();
    let grandchild = tree
        .add_node("grandchild".to_string(), "g".to_string(), Some(child))
        .unwrap();
    let before = keys(&tree);
    assert_eq!(before, vec![(0, root), (1, child), (2, grandchild)]);

    let stored = tree.to_data();
    assert_eq!(stored.nodes.len(), 3);
    assert_eq!(stored.meta.version, "1.0");
    let loaded = FocusTree::from_data(stored).unwrap();

    assert_eq!(keys(&loaded), before);
    assert!(!loaded.dirty);
    for (_, n) in tree.flatten_for_display() {
        let m = loaded.get(n.id).unwrap();
        assert_eq!(m.title, n.title);
        assert_eq!(m.content, n.content);
        assert_eq!(m.parent_id, n.parent_id);
        assert_eq!(m.created_at, n.created_at);
        assert_eq!(m.status, n.status);
        assert_eq!(m.streak_days, n.streak_days);
    }
}

#[test]
fn to_data_lists_every_node_once() {
    let mut tree = FocusTree::new();
    tree.insert_node(record(1, None, "a")).unwrap();
    tree.insert_node(record(2, Some(1), "b")).unwrap();
    tree.insert_node(record(3, Some(77), "stray")).unwrap();
    let stored = tree.to_data();
    let mut ids: Vec<u128> = stored.nodes.iter().map(|n| n.id).collect();
    ids.sort();
    assert_eq!(ids, vec![1, 2, 3]);
    for n in &stored.nodes {
        assert_eq!(n.title, tree.get(n.id).unwrap().title);
        assert_eq!(n.content, tree.get(n.id).unwrap().content);
    }
}

#[test]
fn records_load_in_any_order() {
    let loaded = FocusTree::from_data(data(vec![
        record(3, Some(2), "grandchild"),
        record(2, Some(1), "child"),
        record(1, None, "root"),
    ]))
    .unwrap();
    assert_eq!(keys(&loaded), vec![(0, 1), (1, 2), (2, 3)]);
    assert_eq!(loaded.get(2).unwrap().content, "about child");
    assert_eq!(loaded.get(2).unwrap().streak_days, 2);
}

#[test]
fn completed_status_survives_loading() {
    let mut r = record(1, None, "done");
    r.status = NodeStatus::Completed;
    let loaded = FocusTree::from_data(data(vec![r])).unwrap();
    assert_eq!(loaded.get(1).unwrap().status, NodeStatus::Completed);
    let stored = loaded.to_data();
    assert_eq!(stored.nodes[0].status, NodeStatus::Completed);
}

#[test]
fn siblings_load_in_record_order() {
    let loaded = FocusTree::from_data(data(vec![
        record(1, None, "root"),
        record(5, Some(1), "first"),
        record(4, Some(1), "second"),
        record(9, None, "other root"),
    ]))
    .unwrap();
    assert_eq!(keys(&loaded), vec![(0, 1), (1, 5), (1, 4), (0, 9)]);
}

#[test]
fn a_repeated_identity_fails_the_load() {
    let result = FocusTree::from_data(data(vec![
        record(1, None, "a"),
        record(2, Some(1), "b"),
        record(1, None, "a again"),
    ]));
    assert_eq!(
        result.err(),
        Some(LoadError { index: 2, reason: InsertError::DuplicateId })
    );
}

#[test]
fn a_cycle_fails_the_load() {
    let result = FocusTree::from_data(data(vec![
        record(1, Some(2), "a"),
        record(2, Some(1), "b"),
    ]));
    assert_eq!(
        result.err(),
        Some(LoadError { index: 1, reason: InsertError::Cycle })
    );
}

#[test]
fn no_records_load_as_an_empty_tree() {
    let loaded = FocusTree::from_data(data(vec![])).unwrap();
    assert_eq!(loaded.len(), 0);
    assert!(!loaded.dirty);
}

#[test]
fn to_data_lists_the_displayed_nodes_first_in_display_order() {
    let mut tree = FocusTree::new();
    tree.insert_node(record(40, Some(77), "stray")).unwrap();
    tree.insert_node(record(1, None, "a")).unwrap();
    tree.insert_node(record(9, Some(1), "a1")).unwrap();
    tree.insert_node(record(3, Some(1), "a2")).unwrap();
    tree.insert_node(record(5, Some(9), "a11")).unwrap();
    tree.insert_node(record(2, None, "b")).unwrap();
    tree.insert_node(record(41, Some(40), "below stray")).unwrap();
    let stored = tree.to_data();
    let ids: Vec<u128> = stored.nodes.iter().map(|n| n.id).collect();
    assert_eq!(ids[..5], [1, 9, 5, 3, 2]);
    let mut rest = ids[5..].to_vec();
    rest.sort();
    assert_eq!(rest, vec![40, 41]);
}

#[test]
fn siblings_keep_their_order_through_a_round_trip() {
    let mut tree = FocusTree::new();
    for (id, parent) in [
        (10u128, None),
        (7, None),
        (30, Some(10)),
        (20, Some(10)),
        (25, Some(10)),
        (4, Some(20)),
        (3, Some(20)),
        (8, Some(7)),
    ] {
        tree.insert_node(record(id, parent, "n")).unwrap();
    }
    let before = keys(&tree);
    assert_eq!(
        before,
        vec![(0, 10), (1, 30), (1, 20), (2, 4), (2, 3), (1, 25), (0, 7), (1, 8)]
    );
    let loaded = FocusTree::from_data(tree.to_data()).unwrap();
    assert_eq!(keys(&loaded), before);
    assert_eq!(loaded.root_ids, tree.root_ids);
    assert_eq!(loaded.children_map, tree.children_map);
    assert_eq!(loaded.len(), tree.len());
}

#[test]
fn nodes_that_are_not_displayed_survive_a_round_trip() {
    let mut tree = FocusTree::new();
    tree.insert_node(record(1, None, "shown")).unwrap();
    tree.insert_node(record(5, Some(99), "stray")).unwrap();
    let loaded = FocusTree::from_data(tree.to_data()).unwrap();
    assert_eq!(loaded.len(), 2);
    assert_eq!(loaded.get(5).unwrap().parent_id, Some(99));
    assert_eq!(keys(&loaded), vec![(0, 1)]);
}
