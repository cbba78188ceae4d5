use rhizome::node::{FocusNode, NodeStatus};
use rhizome::time::Timestamp;
use rhizome::tree::FocusTree;
use rhizome::ui::actions::Action;
use rhizome::ui::input::{get_action, handle_key_event, Key};
use rhizome::ui::state::{App, AppMode, ConfirmAction, InputField, Notice};
use rhizome::ui::view::status_glyph;

const DAY: i64 = 86_400;

fn node(id: u128, parent: Option<u128>, title: &str) -> FocusNode {
    FocusNode {
        id,
        parent_id: parent,
        title: title.to_string(),
        content: format!("{} body", title),
        created_at: Timestamp { secs: 100 * DAY, nanos: 0 },
        status: NodeStatus::Active,
        streak_days: 0,
    }
}

/// R(1) with children A(2) and B(3); A has the child C(4).
/// Displayed as R, A, C, B.
fn family_app() -> App {
    let mut tree = FocusTree::new();
    tree.insert_node(node(1, None, "R")).unwrap();
    tree.insert_node(node(2, Some(1), "A")).unwrap();
    tree.insert_node(node(3, Some(1), "B")).unwrap();
    tree.insert_node(node(4, Some(2), "C")).unwrap();
    App::new(tree)
}

fn type_text(app: &mut App, text: &str) {
    for c in text.chars() {
        assert!(!app.dispatch(Action::Input(c)));
    }
}

fn ids(app: &App) -> Vec<u128> {
    app.display_list.iter().map(|(_, id)| *id).collect()
}

#[test]
fn new_app_shows_the_tree_in_normal_mode() {
    let app = family_app();
    assert_eq!(app.display_list, vec![(0, 1), (1, 2), (2, 4), (1, 3)]);
    assert_eq!(app.selected_index, 0);
    assert_eq!(app.mode, AppMode::Normal);
    assert_eq!(app.input_field, InputField::Title);
    assert!(app.input_buffer.is_empty());
    assert!(app.temp_title.is_empty());
    assert_eq!(app.message, None);
    assert_eq!(app.selected_node_id(), Some(1));
    assert_eq!(app.selected_node().unwrap().title, "R");
}

#[test]
fn empty_app_has_nothing_selected() {
    let mut app = App::new(FocusTree::new());
    assert!(app.display_list.is_empty());
    assert_eq!(app.selected_node_id(), None);
    assert!(app.selected_node().is_none());
    for action in [
        Action::MoveSelectionUp,
        Action::MoveSelectionDown,
        Action::StartEditContent,
        Action::StartEditTitle,
        Action::StartMoveNode,
        Action::StartDeleteNode,
        Action::StartFailNode,
    ] {
        assert!(!app.dispatch(action));
        assert_eq!(app.mode, AppMode::Normal);
        assert_eq!(app.selected_index, 0);
    }
}

#[test]
fn selection_moves_and_stops_at_the_ends() {
    let mut app = family_app();
    app.dispatch(Action::MoveSelectionUp);
    assert_eq!(app.selected_index, 0);
    app.dispatch(Action::MoveSelectionDown);
    app.dispatch(Action::MoveSelectionDown);
    assert_eq!(app.selected_index, 2);
    app.dispatch(Action::MoveSelectionDown);
    app.dispatch(Action::MoveSelectionDown);
    assert_eq!(app.selected_index, 3);
    app.dispatch(Action::MoveSelectionUp);
    assert_eq!(app.selected_index, 2);
    assert_eq!(app.selected_node_id(), Some(4));
}

#[test]
fn quit_ends_the_session_and_changes_nothing() {
    let mut app = family_app();
    assert!(app.dispatch(Action::Quit));
    assert_eq!(app.mode, AppMode::Normal);
    assert_eq!(app.selected_index, 0);
    app.dispatch(Action::StartAddNode);
    assert!(app.dispatch(Action::Quit));
    assert_eq!(app.mode, AppMode::AddingNode);
}

#[test]
fn adding_a_node_under_the_selection() {
    let mut app = family_app();
    app.dispatch(Action::MoveSelectionDown); // A
    app.dispatch(Action::StartAddNode);
    assert_eq!(app.mode, AppMode::AddingNode);
    assert_eq!(app.input_field, InputField::Title);
    type_text(&mut app, "New");
    assert_eq!(app.input_buffer, "New");
    app.dispatch(Action::Submit);
    assert_eq!(app.input_field, InputField::Content);
    assert_eq!(app.temp_title, "New");
    assert!(app.input_buffer.is_empty());
    type_text(&mut app, "text");
    app.dispatch(Action::Submit);
    assert_eq!(app.mode, AppMode::Normal);
    assert_eq!(app.message, Some(Notice::NodeAdded));
    assert!(app.temp_title.is_empty());
    assert_eq!(app.tree.len(), 5);
    assert_eq!(app.display_list.len(), 5);
    // the new node follows C, the last node below A
    let (depth, new_id) = app.display_list[3];
    assert_eq!(depth, 2);
    assert_eq!(ids(&app)[..3], [1, 2, 4]);
    assert_eq!(ids(&app)[4], 3);
    let added = app.tree.get(new_id).unwrap();
    assert_eq!(added.title, "New");
    assert_eq!(added.content, "text");
    assert_eq!(added.parent_id, Some(2));
    assert_eq!(added.status, NodeStatus::Active);
    assert!(app.tree.dirty);
}

#[test]
fn adding_into_an_empty_tree_makes_a_root() {
    let mut app = App::new(FocusTree::new());
    app.dispatch(Action::StartAddNode);
    type_text(&mut app, "first");
    app.dispatch(Action::Submit);
    app.dispatch(Action::Submit);
    assert_eq!(app.mode, AppMode::Normal);
    assert_eq!(app.display_list.len(), 1);
    assert_eq!(app.display_list[0].0, 0);
    let n = app.selected_node().unwrap();
    assert_eq!(n.title, "first");
    assert_eq!(n.content, "");
    assert!(n.is_root());
}

#[test]
fn an_empty_title_is_not_accepted() {
    let mut app = family_app();
    app.dispatch(Action::StartAddNode);
    app.dispatch(Action::Submit);
    assert_eq!(app.mode, AppMode::AddingNode);
    assert_eq!(app.input_field, InputField::Title);
    assert_eq!(app.tree.len(), 4);
}

#[test]
fn start_add_clears_what_was_typed() {
    let mut app = family_app();
    app.input_buffer = "left over".to_string();
    app.temp_title = "old".to_string();
    app.start_add_node();
    assert!(app.input_buffer.is_empty());
    assert!(app.temp_title.is_empty());
}

#[test]
fn delete_char_takes_back_the_last_character() {
    let mut app = family_app();
    app.dispatch(Action::StartAddNode);
    type_text(&mut app, "ab");
    app.dispatch(Action::DeleteChar);
    assert_eq!(app.input_buffer, "a");
    app.dispatch(Action::DeleteChar);
    app.dispatch(Action::DeleteChar);
    assert_eq!(app.input_buffer, "");
}

#[test]
fn characters_are_ignored_outside_text_entry() {
    let mut app = family_app();
    app.dispatch(Action::Input('x'));
    app.dispatch(Action::DeleteChar);
    assert!(app.input_buffer.is_empty());
    app.dispatch(Action::StartMoveNode);
    app.dispatch(Action::Input('x'));
    assert!(app.input_buffer.is_empty());
    app.dispatch(Action::Cancel);
    app.dispatch(Action::StartDeleteNode);
    app.dispatch(Action::Input('x'));
    assert!(app.input_buffer.is_empty());
}

#[test]
fn cancel_leaves_the_form() {
    let mut app = family_app();
    app.dispatch(Action::StartAddNode);
    type_text(&mut app, "abc");
    app.dispatch(Action::Cancel);
    assert_eq!(app.mode, AppMode::Normal);
    assert!(app.input_buffer.is_empty());
    assert_eq!(app.message, None);
    assert_eq!(app.tree.len(), 4);
}

#[test]
fn cancel_in_normal_mode_is_ignored() {
    let mut app = family_app();
    app.message = Some(Notice::NodeMoved);
    app.input_buffer = "kept".to_string();
    app.dispatch(Action::Cancel);
    assert_eq!(app.message, Some(Notice::NodeMoved));
    assert_eq!(app.input_buffer, "kept");
}

#[test]
fn editing_the_content_of_the_selected_node() {
    let mut app = family_app();
    app.tree.dirty = false;
    app.dispatch(Action::MoveSelectionDown);
    app.dispatch(Action::StartEditContent);
    assert_eq!(app.mode, AppMode::EditingContent(2));
    assert_eq!(app.input_buffer, "A body");
    type_text(&mut app, "!");
    app.dispatch(Action::Submit);
    assert_eq!(app.mode, AppMode::Normal);
    assert_eq!(app.tree.get(2).unwrap().content, "A body!");
    assert_eq!(app.tree.get(2).unwrap().title, "A");
    assert_eq!(app.message, Some(Notice::ContentUpdated));
    assert!(app.input_buffer.is_empty());
    assert!(app.tree.dirty);
    assert_eq!(app.display_list, vec![(0, 1), (1, 2), (2, 4), (1, 3)]);
}

#[test]
fn editing_the_title_of_the_selected_node() {
    let mut app = family_app();
    app.dispatch(Action::StartEditTitle);
    assert_eq!(app.mode, AppMode::EditingTitle(1));
    assert_eq!(app.input_buffer, "R");
    app.dispatch(Action::DeleteChar);
    type_text(&mut app, "Root");
    app.dispatch(Action::Submit);
    assert_eq!(app.tree.get(1).unwrap().title, "Root");
    assert_eq!(app.tree.get(1).unwrap().content, "R body");
    assert_eq!(app.message, Some(Notice::TitleUpdated));
    assert_eq!(app.mode, AppMode::Normal);
}

#[test]
fn cancelled_edit_changes_no_node() {
    let mut app = family_app();
    app.dispatch(Action::StartEditTitle);
    type_text(&mut app, "xyz");
    app.dispatch(Action::Cancel);
    assert_eq!(app.tree.get(1).unwrap().title, "R");
}

#[test]
fn moving_a_node_under_another() {
    let mut app = family_app();
    app.dispatch(Action::MoveSelectionDown); // A
    app.dispatch(Action::StartMoveNode);
    assert_eq!(app.mode, AppMode::MovingNode(2));
    assert_eq!(app.message, Some(Notice::ChooseNewParent));
    app.dispatch(Action::MoveSelectionDown);
    app.dispatch(Action::MoveSelectionDown); // B
    assert_eq!(app.selected_node_id(), Some(3));
    app.dispatch(Action::Submit);
    assert_eq!(app.mode, AppMode::Normal);
    assert_eq!(app.message, Some(Notice::NodeMoved));
    assert_eq!(app.display_list, vec![(0, 1), (1, 3), (2, 2), (3, 4)]);
    assert_eq!(app.tree.get(2).unwrap().parent_id, Some(3));
}

#[test]
fn moving_a_node_under_itself_is_refused() {
    let mut app = family_app();
    app.dispatch(Action::MoveSelectionDown);
    app.dispatch(Action::StartMoveNode);
    app.dispatch(Action::Submit);
    assert_eq!(app.mode, AppMode::Normal);
    assert_eq!(app.message, Some(Notice::CannotMoveUnderItself));
    assert_eq!(app.display_list, vec![(0, 1), (1, 2), (2, 4), (1, 3)]);
}

#[test]
fn moving_a_node_under_its_descendant_is_refused() {
    let mut app = family_app();
    app.dispatch(Action::MoveSelectionDown); // A
    app.dispatch(Action::StartMoveNode);
    app.dispatch(Action::MoveSelectionDown); // C, below A
    app.dispatch(Action::Submit);
    assert_eq!(app.mode, AppMode::Normal);
    assert_eq!(app.message, Some(Notice::CannotMoveUnderDescendant));
    assert_eq!(app.display_list, vec![(0, 1), (1, 2), (2, 4), (1, 3)]);
    assert_eq!(app.tree.get(2).unwrap().parent_id, Some(1));
}

#[test]
fn deleting_waits_for_confirmation() {
    let mut app = family_app();
    app.dispatch(Action::MoveSelectionDown);
    app.dispatch(Action::StartDeleteNode);
    assert_eq!(app.mode, AppMode::Confirm(ConfirmAction::Delete(2)));
    assert_eq!(app.tree.len(), 4);
    app.dispatch(Action::Cancel);
    assert_eq!(app.mode, AppMode::Normal);
    assert_eq!(app.tree.len(), 4);
    app.dispatch(Action::StartDeleteNode);
    app.dispatch(Action::Submit);
    assert_eq!(app.mode, AppMode::Normal);
    assert_eq!(app.message, Some(Notice::Deleted(2)));
    assert_eq!(app.display_list, vec![(0, 1), (1, 3)]);
    assert_eq!(app.selected_index, 1);
}

#[test]
fn selection_clamps_after_deleting_the_last_entry() {
    let mut tree = FocusTree::new();
    tree.insert_node(node(1, None, "a")).unwrap();
    tree.insert_node(node(2, None, "b")).unwrap();
    tree.insert_node(node(3, None, "c")).unwrap();
    let mut app = App::new(tree);
    assert_eq!(app.display_list.len(), 3);
    app.dispatch(Action::MoveSelectionDown);
    app.dispatch(Action::MoveSelectionDown);
    assert_eq!(app.selected_index, 2);
    app.dispatch(Action::StartDeleteNode);
    app.dispatch(Action::Submit);
    assert_eq!(app.display_list.len(), 2);
    assert_eq!(app.selected_index, 1);
    assert_eq!(app.selected_node_id(), Some(2));
}

#[test]
fn selection_returns_to_zero_when_the_list_empties() {
    let mut tree = FocusTree::new();
    tree.insert_node(node(1, None, "only")).unwrap();
    let mut app = App::new(tree);
    app.dispatch(Action::StartDeleteNode);
    app.dispatch(Action::Submit);
    assert!(app.display_list.is_empty());
    assert_eq!(app.selected_index, 0);
    assert_eq!(app.message, Some(Notice::Deleted(1)));
}

#[test]
fn failing_an_active_node_waits_for_confirmation() {
    let mut app = family_app();
    app.dispatch(Action::MoveSelectionDown);
    app.dispatch(Action::StartFailNode);
    assert_eq!(app.mode, AppMode::Confirm(ConfirmAction::Fail(2)));
    app.dispatch(Action::Submit);
    assert_eq!(app.mode, AppMode::Normal);
    assert_eq!(app.message, Some(Notice::Failed(1)));
    assert_eq!(app.tree.get(2).unwrap().status, NodeStatus::Failed);
    assert_eq!(app.display_list, vec![(0, 1), (1, 2), (1, 3)]);
}

#[test]
fn failing_a_failed_node_recovers_it_at_once() {
    let mut app = family_app();
    app.dispatch(Action::MoveSelectionDown);
    app.dispatch(Action::StartFailNode);
    app.dispatch(Action::Submit);
    app.dispatch(Action::StartFailNode);
    assert_eq!(app.mode, AppMode::Normal);
    assert_eq!(app.message, Some(Notice::NodeRecovered));
    assert_eq!(app.tree.get(2).unwrap().status, NodeStatus::Active);
    assert_eq!(app.tree.len(), 3);
}

#[test]
fn a_completed_node_is_neither_failed_nor_recovered() {
    let mut tree = FocusTree::new();
    let mut n = node(1, None, "done");
    n.status = NodeStatus::Completed;
    tree.insert_node(n).unwrap();
    let mut app = App::new(tree);
    app.dispatch(Action::StartFailNode);
    assert_eq!(app.mode, AppMode::Normal);
    assert_eq!(app.message, None);
    assert_eq!(app.tree.get(1).unwrap().status, NodeStatus::Completed);
}

#[test]
fn intents_without_meaning_in_a_mode_are_ignored() {
    let mut app = family_app();
    app.dispatch(Action::Submit);
    assert_eq!(app.mode, AppMode::Normal);
    app.dispatch(Action::StartAddNode);
    for action in [
        Action::StartAddNode,
        Action::StartEditContent,
        Action::StartEditTitle,
        Action::StartMoveNode,
        Action::StartDeleteNode,
        Action::StartFailNode,
        Action::MoveSelectionDown,
        Action::MoveSelectionUp,
    ] {
        type_text(&mut app, "x");
        app.dispatch(action);
        assert_eq!(app.mode, AppMode::AddingNode);
        assert_eq!(app.selected_index, 0);
    }
    assert_eq!(app.input_buffer, "xxxxxxxx");
    assert_eq!(app.tree.len(), 4);
}

#[test]
fn refresh_follows_the_tree() {
    let mut app = family_app();
    app.selected_index = 3;
    app.tree.delete_node(2);
    app.refresh_display_list();
    assert_eq!(app.display_list, vec![(0, 1), (1, 3)]);
    assert_eq!(app.selected_index, 1);
}

#[test]
fn keys_in_normal_mode() {
    let m = AppMode::Normal;
    assert_eq!(get_action(&m, Key::Char('q')), Some(Action::Quit));
    assert_eq!(get_action(&m, Key::Char('j')), Some(Action::MoveSelectionDown));
    assert_eq!(get_action(&m, Key::Down), Some(Action::MoveSelectionDown));
    assert_eq!(get_action(&m, Key::Char('k')), Some(Action::MoveSelectionUp));
    assert_eq!(get_action(&m, Key::Up), Some(Action::MoveSelectionUp));
    assert_eq!(get_action(&m, Key::Char('a')), Some(Action::StartAddNode));
    assert_eq!(get_action(&m, Key::Char('e')), Some(Action::StartEditContent));
    assert_eq!(get_action(&m, Key::Char('r')), Some(Action::StartEditTitle));
    assert_eq!(get_action(&m, Key::Char('m')), Some(Action::StartMoveNode));
    assert_eq!(get_action(&m, Key::Char('d')), Some(Action::StartDeleteNode));
    assert_eq!(get_action(&m, Key::Char('f')), Some(Action::StartFailNode));
    assert_eq!(get_action(&m, Key::Char('z')), None);
    assert_eq!(get_action(&m, Key::Enter), None);
    assert_eq!(get_action(&m, Key::Esc), None);
    assert_eq!(get_action(&m, Key::Other), None);
}

#[test]
fn keys_in_text_entry() {
    for m in [AppMode::AddingNode, AppMode::EditingContent(1), AppMode::EditingTitle(1)] {
        assert_eq!(get_action(&m, Key::Esc), Some(Action::Cancel));
        assert_eq!(get_action(&m, Key::Enter), Some(Action::Submit));
        assert_eq!(get_action(&m, Key::Backspace), Some(Action::DeleteChar));
        assert_eq!(get_action(&m, Key::Char('q')), Some(Action::Input('q')));
        assert_eq!(get_action(&m, Key::Up), None);
        assert_eq!(get_action(&m, Key::Other), None);
    }
}

#[test]
fn keys_while_moving_and_confirming() {
    let m = AppMode::MovingNode(1);
    assert_eq!(get_action(&m, Key::Esc), Some(Action::Cancel));
    assert_eq!(get_action(&m, Key::Char('m')), Some(Action::Submit));
    assert_eq!(get_action(&m, Key::Char('M')), Some(Action::Submit));
    assert_eq!(get_action(&m, Key::Char('j')), Some(Action::MoveSelectionDown));
    assert_eq!(get_action(&m, Key::Up), Some(Action::MoveSelectionUp));
    assert_eq!(get_action(&m, Key::Enter), None);
    let c = AppMode::Confirm(ConfirmAction::Delete(1));
    assert_eq!(get_action(&c, Key::Char('y')), Some(Action::Submit));
    assert_eq!(get_action(&c, Key::Char('Y')), Some(Action::Submit));
    assert_eq!(get_action(&c, Key::Char('n')), Some(Action::Cancel));
    assert_eq!(get_action(&c, Key::Char('N')), Some(Action::Cancel));
    assert_eq!(get_action(&c, Key::Esc), Some(Action::Cancel));
    assert_eq!(get_action(&c, Key::Enter), None);
}

#[test]
fn key_events_drive_the_controller() {
    let mut app = family_app();
    assert!(!handle_key_event(&mut app, Key::Char('j')));
    assert_eq!(app.selected_index, 1);
    assert!(!handle_key_event(&mut app, Key::Char('x')));
    assert_eq!(app.selected_index, 1);
    assert!(!handle_key_event(&mut app, Key::Char('d')));
    assert!(!handle_key_event(&mut app, Key::Char('y')));
    assert_eq!(app.tree.len(), 2);
    assert!(!handle_key_event(&mut app, Key::Char('a')));
    assert!(!handle_key_event(&mut app, Key::Char('q')));
    assert_eq!(app.input_buffer, "q");
    assert!(!handle_key_event(&mut app, Key::Esc));
    assert!(handle_key_event(&mut app, Key::Char('q')));
}

#[test]
fn projection_shows_each_entry() {
    let mut app = family_app();
    app.dispatch(Action::MoveSelectionDown);
    app.tree.fail_node(3);
    let rows = app.project_at(&Timestamp { secs: 103 * DAY + 5, nanos: 0 });
    assert_eq!(rows.len(), 4);
    assert_eq!(rows[0].depth, 0);
    assert_eq!(rows[0].id, 1);
    assert_eq!(rows[0].title, "R");
    assert_eq!(rows[0].days_active, 3);
    assert!(!rows[0].selected);
    assert!(rows[1].selected);
    assert_eq!(rows[2].depth, 2);
    assert_eq!(rows[2].id, 4);
    assert_eq!(rows[3].status, NodeStatus::Failed);
    assert_eq!(rows[3].glyph, '✗');
    assert_eq!(rows[0].glyph, '●');
}

#[test]
fn projection_at_the_present_moment() {
    let app = family_app();
    let rows = app.project();
    assert_eq!(rows.len(), 4);
    assert!(rows[0].days_active > 19_000);
    assert!(rows[0].selected);
}

#[test]
fn glyphs() {
    assert_eq!(status_glyph(NodeStatus::Active), '●');
    assert_eq!(status_glyph(NodeStatus::Failed), '✗');
    assert_eq!(status_glyph(NodeStatus::Completed), '✓');
}
