use std::collections::HashSet;

use rhizome::node::{FocusNode, NodeStatus};
use rhizome::time::Timestamp;
use rhizome::tree::{FocusTree, InsertError, MoveError};
use rhizome::ui::actions::Action;
use rhizome::ui::state::App;

/// A small deterministic generator, enough to vary the operations.
struct Rng(u64);

impl Rng {
    fn next(&mut self) -> u64 {
        self.0 ^= self.0 << 13;
        self.0 ^= self.0 >> 7;
        self.0 ^= self.0 << 17;
        self.0
    }

    fn below(&mut self, n: u64) -> u64 {
        self.next() % n
    }
}

fn node(id: u128, parent: Option<u128>) -> FocusNode {
    FocusNode {
        id,
        parent_id: parent,
        title: format!("node {}", id),
        content: String::new(),
        created_at: Timestamp { secs: 0, nanos: 0 },
        status: NodeStatus::Active,
        streak_days: 0,
    }
}

/// The nodes below `id`, found by following parent references upwards from
/// every node.
fn below(tree: &FocusTree, id: u128) -> HashSet<u128> {
    let mut found = HashSet::new();
    for start in tree.nodes.keys() {
        let mut at = *start;
        let mut steps = 0;
        while let Some(n) = tree.nodes.get(&at) {
            steps += 1;
            assert!(steps <= tree.nodes.len(), "a cycle of parent references");
            match n.parent_id {
                Some(p) if p == id => {
                    found.insert(*start);
                    break;
                }
                Some(p) => at = p,
                None => break,
            }
        }
    }
    found
}

fn assert_consistent(tree: &FocusTree) {
    for id in &tree.root_ids {
        assert!(tree.nodes[id].parent_id.is_none());
    }
    for (parent, kids) in &tree.children_map {
        assert!(!kids.is_empty());
        for kid in kids {
            assert_eq!(tree.nodes[kid].parent_id, Some(*parent));
        }
    }
    for (id, n) in &tree.nodes {
        assert_eq!(n.id, *id);
        match n.parent_id {
            None => assert_eq!(tree.root_ids.iter().filter(|x| *x == id).count(), 1),
            Some(p) => {
                assert_eq!(tree.children_map[&p].iter().filter(|x| *x == id).count(), 1)
            }
        }
        // following parent references ends
        below(tree, *id);
    }
    let shown: Vec<u128> = tree.flatten_for_display().iter().map(|(_, n)| n.id).collect();
    let distinct: HashSet<u128> = shown.iter().copied().collect();
    assert_eq!(distinct.len(), shown.len());
}

#[test]
fn random_operations_keep_the_tree_consistent() {
    let mut rng = Rng(0x9e3779b97f4a7c15);
    for round in 0..40u64 {
        let mut tree = FocusTree::new();
        rng.0 ^= round;
        for _ in 0..120 {
            let id = rng.below(24) as u128;
            let other = rng.below(26) as u128;
            let parent = if other >= 24 { None } else { Some(other) };
            let count = tree.len();
            match rng.below(6) {
                0 | 1 => {
                    let exists = tree.contains(id);
                    let closes = parent == Some(id)
                        || parent.map_or(false, |p| below(&tree, id).contains(&p));
                    let result = tree.insert_node(node(id, parent));
                    if exists {
                        assert_eq!(result, Err(InsertError::DuplicateId));
                    } else if closes {
                        assert_eq!(result, Err(InsertError::Cycle));
                    } else {
                        assert_eq!(result, Ok(()));
                        assert_eq!(tree.len(), count + 1);
                    }
                }
                2 => {
                    let under = below(&tree, id);
                    let exists = tree.contains(id);
                    let result = tree.move_node(id, parent);
                    if parent == Some(id) {
                        assert_eq!(result, Err(MoveError::SelfParent));
                    } else if parent.map_or(false, |p| under.contains(&p)) {
                        assert_eq!(result, Err(MoveError::UnderDescendant));
                    } else {
                        assert_eq!(result, Ok(()));
                        if exists {
                            assert_eq!(tree.get(id).unwrap().parent_id, parent);
                        }
                        assert_eq!(below(&tree, id), under);
                    }
                    assert_eq!(tree.len(), count);
                }
                3 => {
                    let mut expected = below(&tree, id);
                    let exists = tree.contains(id);
                    if exists {
                        expected.insert(id);
                    } else {
                        expected.clear();
                    }
                    let removed: HashSet<u128> = tree.delete_node(id).into_iter().collect();
                    assert_eq!(removed, expected);
                    assert_eq!(tree.len(), count - expected.len());
                    for gone in &expected {
                        assert!(!tree.contains(*gone));
                    }
                }
                4 => {
                    let exists = tree.contains(id);
                    let expected = if exists { below(&tree, id) } else { HashSet::new() };
                    let removed: HashSet<u128> = tree.fail_node(id).into_iter().collect();
                    assert_eq!(removed, expected);
                    assert_eq!(tree.len(), count - expected.len());
                    if exists {
                        assert_eq!(tree.get(id).unwrap().status, NodeStatus::Failed);
                        assert!(below(&tree, id).is_empty());
                    }
                }
                _ => {
                    let before = tree.get(id).map(|n| n.status);
                    tree.recover_node(id);
                    let after = tree.get(id).map(|n| n.status);
                    match before {
                        Some(NodeStatus::Failed) => assert_eq!(after, Some(NodeStatus::Active)),
                        other => assert_eq!(after, other),
                    }
                    assert_eq!(tree.len(), count);
                }
            }
            assert_consistent(&tree);
            let found: HashSet<u128> = tree.get_all_descendants(id).into_iter().collect();
            assert_eq!(found, below(&tree, id));
        }
        let loaded = FocusTree::from_data(tree.to_data()).unwrap();
        assert_eq!(loaded.len(), tree.len());
        assert_eq!(loaded.root_ids, tree.root_ids);
        let shown = |t: &FocusTree| -> Vec<(usize, u128)> {
            t.flatten_for_display().iter().map(|(d, n)| (*d, n.id)).collect()
        };
        assert_eq!(shown(&loaded), shown(&tree));
        assert_consistent(&loaded);
    }
}

#[test]
fn random_intents_keep_the_controller_consistent() {
    let mut rng = Rng(0x2545f4914f6cdd1d);
    let mut app = App::new(FocusTree::new());
    let actions = [
        Action::MoveSelectionUp,
        Action::MoveSelectionDown,
        Action::StartAddNode,
        Action::StartEditContent,
        Action::StartEditTitle,
        Action::StartMoveNode,
        Action::StartDeleteNode,
        Action::StartFailNode,
        Action::Cancel,
        Action::Submit,
        Action::Submit,
        Action::Submit,
        Action::Input('x'),
        Action::Input('y'),
        Action::DeleteChar,
    ];
    for _ in 0..4000 {
        let action = actions[rng.below(actions.len() as u64) as usize];
        assert!(!app.dispatch(action));
        assert_consistent(&app.tree);
        let shown: Vec<(usize, u128)> = app
            .tree
            .flatten_for_display()
            .iter()
            .map(|(d, n)| (*d, n.id))
            .collect();
        assert_eq!(app.display_list, shown);
        if app.display_list.is_empty() {
            assert_eq!(app.selected_index, 0);
        } else {
            assert!(app.selected_index < app.display_list.len());
        }
    }
    assert!(app.tree.len() > 0);
}
