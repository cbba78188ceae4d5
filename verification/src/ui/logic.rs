//! The transitions of the controller: what each intent does in each mode.

use vstd::prelude::*;
use crate::node::{FocusNode, NodeStatus};
use crate::tree::MoveError;
use crate::ui::actions::Action;
use crate::ui::state::{clamp_index, list_keys, App, AppMode, ConfirmAction, InputField, Notice};

verus! {

/// Whether text is being typed in this mode.
pub open spec fn is_text_entry(mode: AppMode) -> bool {
    mode is AddingNode || mode is EditingContent || mode is EditingTitle
}

impl App {
    /// `post` is `pre` with the display list recomputed from the tree of
    /// `post` and the selection brought back into it.
    pub open spec fn refreshed(pre: App, post: App) -> bool {
        &&& list_keys(post.display_list@) == post.tree@.display_rows()
        &&& post.selected_index == clamp_index(
            pre.selected_index,
            post.tree@.display_rows().len(),
        )
    }

    /// The selection moved one entry up, unless it was on the first.
    pub open spec fn moved_up(pre: App, post: App) -> bool {
        post == (App {
            selected_index: if pre.selected_index > 0 {
                (pre.selected_index - 1) as usize
            } else {
                pre.selected_index
            },
            ..pre
        })
    }

    /// The selection moved one entry down, unless it was on the last.
    pub open spec fn moved_down(pre: App, post: App) -> bool {
        post == (App {
            selected_index: if pre.selected_index + 1 < pre.display_list@.len() {
                (pre.selected_index + 1) as usize
            } else {
                pre.selected_index
            },
            ..pre
        })
    }

    /// The form for a new node opened, empty, at the title.
    pub open spec fn add_started(pre: App, post: App) -> bool {
        &&& post == (App {
            mode: AppMode::AddingNode,
            input_field: InputField::Title,
            input_buffer: post.input_buffer,
            temp_title: post.temp_title,
            ..pre
        })
        &&& post.input_buffer@ == Seq::<char>::empty()
        &&& post.temp_title@ == Seq::<char>::empty()
    }

    /// The text typed was kept as the title, and the form went on to the
    /// content.
    pub open spec fn title_entered(pre: App, post: App) -> bool {
        &&& post == (App {
            input_field: InputField::Content,
            input_buffer: post.input_buffer,
            temp_title: post.temp_title,
            ..pre
        })
        &&& post.temp_title@ == pre.input_buffer@
        &&& post.input_buffer@ == Seq::<char>::empty()
    }

    /// Whether `node` is the node that the form of `pre` describes: active,
    /// with the title kept and the content typed, under the selected node, or
    /// a root when nothing is selected; whatever its identity and the time of
    /// its creation.
    pub open spec fn form_node(pre: App, node: FocusNode) -> bool {
        &&& node.title@ == pre.temp_title@
        &&& node.content@ == pre.input_buffer@
        &&& node.parent_id == pre.selected_id()
        &&& node.status == NodeStatus::Active
        &&& node.streak_days == 0
    }

    /// The node that the form describes was made and, if it can be
    /// inserted, added as the last child of the selected node, or as the last
    /// root when nothing was selected. It is refused, the tree staying as it
    /// was, only when it cannot be inserted: its identity is in use, or is
    /// that of the selected node or of a node above it. An empty tree always
    /// takes the node. Either way the display list is recomputed and the
    /// controller is back in normal mode.
    pub open spec fn add_confirmed(pre: App, post: App) -> bool {
        &&& post == (App {
            tree: post.tree,
            display_list: post.display_list,
            selected_index: post.selected_index,
            mode: AppMode::Normal,
            temp_title: post.temp_title,
            message: post.message,
            ..pre
        })
        &&& post.temp_title@ == Seq::<char>::empty()
        &&& Self::refreshed(pre, post)
        &&& exists|node: FocusNode|
            {
                &&& #[trigger] Self::form_node(pre, node)
                &&& if pre.tree@.can_insert(node) {
                    &&& post.tree@ == pre.tree@.after_insert(node)
                    &&& post.tree.dirty
                    &&& post.message == Some(Notice::NodeAdded)
                } else {
                    &&& post.tree == pre.tree
                    &&& post.message == Some(Notice::NodeNotAdded)
                }
            }
        &&& pre.tree@.nodes.len() == 0 ==> post.message == Some(Notice::NodeAdded)
    }

    /// The content of the selected node was loaded for editing; nothing
    /// happened when nothing was selected.
    pub open spec fn content_edit_started(pre: App, post: App) -> bool {
        match pre.selected_id() {
            Some(id) => {
                &&& post == (App {
                    mode: AppMode::EditingContent(id),
                    input_buffer: post.input_buffer,
                    ..pre
                })
                &&& post.input_buffer@ == pre.tree@.nodes[id].content@
            },
            None => post == pre,
        }
    }

    /// The title of the selected node was loaded for editing; nothing
    /// happened when nothing was selected.
    pub open spec fn title_edit_started(pre: App, post: App) -> bool {
        match pre.selected_id() {
            Some(id) => {
                &&& post == (App {
                    mode: AppMode::EditingTitle(id),
                    input_buffer: post.input_buffer,
                    ..pre
                })
                &&& post.input_buffer@ == pre.tree@.nodes[id].title@
            },
            None => post == pre,
        }
    }

    /// The text typed became the content of `id`.
    pub open spec fn content_confirmed(pre: App, id: u128, post: App) -> bool {
        &&& post == (App {
            tree: post.tree,
            mode: AppMode::Normal,
            input_buffer: post.input_buffer,
            message: Some(Notice::ContentUpdated),
            ..pre
        })
        &&& post.input_buffer@ == Seq::<char>::empty()
        &&& post.tree@.has(id) == pre.tree@.has(id)
        &&& pre.tree@.has(id) ==> post.tree@.nodes[id].content@ == pre.input_buffer@
        &&& post.tree@ == pre.tree@.after_rewrite(id, post.tree@.nodes[id].content)
        &&& post.tree.dirty == (pre.tree.dirty || pre.tree@.has(id))
    }

    /// The text typed became the title of `id`.
    pub open spec fn title_confirmed(pre: App, id: u128, post: App) -> bool {
        &&& post == (App {
            tree: post.tree,
            mode: AppMode::Normal,
            input_buffer: post.input_buffer,
            message: Some(Notice::TitleUpdated),
            ..pre
        })
        &&& post.input_buffer@ == Seq::<char>::empty()
        &&& post.tree@.has(id) == pre.tree@.has(id)
        &&& pre.tree@.has(id) ==> post.tree@.nodes[id].title@ == pre.input_buffer@
        &&& post.tree@ == pre.tree@.after_retitle(id, post.tree@.nodes[id].title)
        &&& post.tree.dirty == (pre.tree.dirty || pre.tree@.has(id))
    }

    /// The selected node was picked up to be moved; nothing happened when
    /// nothing was selected.
    pub open spec fn move_started(pre: App, post: App) -> bool {
        match pre.selected_id() {
            Some(id) => post == (App {
                mode: AppMode::MovingNode(id),
                message: Some(Notice::ChooseNewParent),
                ..pre
            }),
            None => post == pre,
        }
    }

    /// The node `id` was moved under the selected node, or to the roots
    /// when nothing was selected; or the move was refused, with the reason as
    /// the message, because the selected node is `id` or lies below it.
    pub open spec fn move_confirmed(pre: App, id: u128, post: App) -> bool {
        let target = pre.selected_id();
        if target == Some(id) {
            post == (App {
                mode: AppMode::Normal,
                message: Some(Notice::CannotMoveUnderItself),
                ..pre
            })
        } else if target is Some && pre.tree@.is_descendant(target->0, id) {
            post == (App {
                mode: AppMode::Normal,
                message: Some(Notice::CannotMoveUnderDescendant),
                ..pre
            })
        } else {
            &&& post == (App {
                tree: post.tree,
                display_list: post.display_list,
                selected_index: post.selected_index,
                mode: AppMode::Normal,
                message: Some(Notice::NodeMoved),
                ..pre
            })
            &&& post.tree@ == pre.tree@.after_move(id, target)
            &&& post.tree.dirty == (pre.tree.dirty || pre.tree@.has(id))
            &&& Self::refreshed(pre, post)
        }
    }

    /// The controller asks whether to delete the selected node; nothing
    /// happened when nothing was selected.
    pub open spec fn delete_started(pre: App, post: App) -> bool {
        match pre.selected_id() {
            Some(id) => post == (App {
                mode: AppMode::Confirm(ConfirmAction::Delete(id)),
                ..pre
            }),
            None => post == pre,
        }
    }

    /// For an active selected node the controller asks whether to fail it;
    /// a failed one was recovered at once; otherwise nothing happened.
    pub open spec fn fail_started(pre: App, post: App) -> bool {
        match pre.selected_id() {
            Some(id) => match pre.tree@.nodes[id].status {
                NodeStatus::Active => post == (App {
                    mode: AppMode::Confirm(ConfirmAction::Fail(id)),
                    ..pre
                }),
                NodeStatus::Failed => {
                    &&& post == (App {
                        tree: post.tree,
                        message: Some(Notice::NodeRecovered),
                        ..pre
                    })
                    &&& post.tree@ == pre.tree@.after_recover(id)
                    &&& post.tree.dirty
                },
                NodeStatus::Completed => post == pre,
            },
            None => post == pre,
        }
    }

    /// The pending action was carried out: the node was deleted, or marked
    /// failed, with the nodes below it; the message tells how many nodes left
    /// the tree. The controller is back in normal mode.
    pub open spec fn confirm_executed(pre: App, post: App) -> bool {
        &&& post == (App {
            tree: post.tree,
            display_list: post.display_list,
            selected_index: post.selected_index,
            mode: AppMode::Normal,
            message: post.message,
            ..pre
        })
        &&& Self::refreshed(pre, post)
        &&& match pre.mode {
            AppMode::Confirm(ConfirmAction::Delete(id)) => {
                &&& post.tree@ == pre.tree@.after_delete(id)
                &&& post.tree.dirty == (pre.tree.dirty || pre.tree@.has(id))
                &&& post.message matches Some(Notice::Deleted(count))
                &&& count == pre.tree@.nodes.len() - post.tree@.nodes.len()
            },
            AppMode::Confirm(ConfirmAction::Fail(id)) => {
                &&& post.tree@ == pre.tree@.after_fail(id)
                &&& post.tree.dirty == (pre.tree.dirty || pre.tree@.has(id))
                &&& post.message matches Some(Notice::Failed(count))
                &&& count == pre.tree@.nodes.len() - post.tree@.nodes.len()
            },
            _ => post.tree == pre.tree && post.message == pre.message,
        }
    }

    /// The form or dialog was left: normal mode, no text, no message.
    pub open spec fn cancelled(pre: App, post: App) -> bool {
        &&& post == (App {
            mode: AppMode::Normal,
            input_buffer: post.input_buffer,
            message: None,
            ..pre
        })
        &&& post.input_buffer@ == Seq::<char>::empty()
    }

    /// The character was appended to the text typed.
    pub open spec fn typed(pre: App, c: char, post: App) -> bool {
        &&& post == (App { input_buffer: post.input_buffer, ..pre })
        &&& post.input_buffer@ == pre.input_buffer@.push(c)
    }

    /// The last character typed was taken back, if there was one.
    pub open spec fn erased(pre: App, post: App) -> bool {
        &&& post == (App { input_buffer: post.input_buffer, ..pre })
        &&& post.input_buffer@ == if pre.input_buffer@.len() > 0 {
            pre.input_buffer@.drop_last()
        } else {
            pre.input_buffer@
        }
    }

    /// What an intent does in each mode. An intent that has no meaning in
    /// the mode of `pre` changes nothing. `quit` is set by `Quit` alone.
    pub open spec fn stepped(pre: App, action: Action, post: App, quit: bool) -> bool {
        &&& quit == (action is Quit)
        &&& match action {
            Action::Quit => post == pre,
            Action::MoveSelectionUp => if pre.mode is Normal || pre.mode is MovingNode {
                Self::moved_up(pre, post)
            } else {
                post == pre
            },
            Action::MoveSelectionDown => if pre.mode is Normal || pre.mode is MovingNode {
                Self::moved_down(pre, post)
            } else {
                post == pre
            },
            Action::StartAddNode => if pre.mode is Normal {
                Self::add_started(pre, post)
            } else {
                post == pre
            },
            Action::StartEditContent => if pre.mode is Normal {
                Self::content_edit_started(pre, post)
            } else {
                post == pre
            },
            Action::StartEditTitle => if pre.mode is Normal {
                Self::title_edit_started(pre, post)
            } else {
                post == pre
            },
            Action::StartMoveNode => if pre.mode is Normal {
                Self::move_started(pre, post)
            } else {
                post == pre
            },
            Action::StartDeleteNode => if pre.mode is Normal {
                Self::delete_started(pre, post)
            } else {
                post == pre
            },
            Action::StartFailNode => if pre.mode is Normal {
                Self::fail_started(pre, post)
            } else {
                post == pre
            },
            Action::Cancel => if pre.mode is Normal {
                post == pre
            } else {
                Self::cancelled(pre, post)
            },
            Action::Submit => match pre.mode {
                AppMode::Normal => post == pre,
                AppMode::AddingNode => match pre.input_field {
                    InputField::Title => if pre.input_buffer@.len() > 0 {
                        Self::title_entered(pre, post)
                    } else {
                        post == pre
                    },
                    InputField::Content => Self::add_confirmed(pre, post),
                },
                AppMode::EditingContent(id) => Self::content_confirmed(pre, id, post),
                AppMode::EditingTitle(id) => Self::title_confirmed(pre, id, post),
                AppMode::MovingNode(id) => Self::move_confirmed(pre, id, post),
                AppMode::Confirm(_) => Self::confirm_executed(pre, post),
            },
            Action::Input(c) => if is_text_entry(pre.mode) {
                Self::typed(pre, c, post)
            } else {
                post == pre
            },
            Action::DeleteChar => if is_text_entry(pre.mode) {
                Self::erased(pre, post)
            } else {
                post == pre
            },
        }
    }

    /// Carries out one intent. Returns whether the session is to end.
    pub fn dispatch(&mut self, action: Action) -> (quit: bool)
        requires
            old(self).wf(),
        ensures
            final(self).wf(),
            Self::stepped(*old(self), action, *final(self), quit),
    {
        match action {
            Action::Quit => {
                return true;
            },
            Action::MoveSelectionUp => {
                if matches!(self.mode, AppMode::Normal | AppMode::MovingNode(_)) {
                    self.move_up();
                }
            },
            Action::MoveSelectionDown => {
                if matches!(self.mode, AppMode::Normal | AppMode::MovingNode(_)) {
                    self.move_down();
                }
            },
            Action::StartAddNode => {
                if matches!(self.mode, AppMode::Normal) {
                    self.start_add_node();
                }
            },
            Action::StartEditContent => {
                if matches!(self.mode, AppMode::Normal) {
                    self.start_edit_content();
                }
            },
            Action::StartEditTitle => {
                if matches!(self.mode, AppMode::Normal) {
                    self.start_edit_title();
                }
            },
            Action::StartMoveNode => {
                if matches!(self.mode, AppMode::Normal) {
                    self.start_move_node();
                }
            },
            Action::StartDeleteNode => {
                if matches!(self.mode, AppMode::Normal) {
                    self.start_delete_node();
                }
            },
            Action::StartFailNode => {
                if matches!(self.mode, AppMode::Normal) {
                    self.start_fail_node();
                }
            },
            Action::Cancel => {
                if !matches!(self.mode, AppMode::Normal) {
                    self.cancel();
                }
            },
            Action::Submit => match self.mode {
                AppMode::AddingNode => match self.input_field {
                    InputField::Title => {
                        if !self.input_buffer.as_str().is_empty() {
                            self.move_to_content_input();
                        }
                    },
                    InputField::Content => self.confirm_add_node(),
                },
                AppMode::EditingContent(id) => self.confirm_edit_content(id),
                AppMode::EditingTitle(id) => self.confirm_edit_title(id),
                AppMode::MovingNode(id) => self.confirm_move_node(id),
                AppMode::Confirm(_) => self.execute_confirm(),
                AppMode::Normal => {},
            },
            Action::Input(c) => {
                if matches!(
                    self.mode,
                    AppMode::AddingNode | AppMode::EditingContent(_) | AppMode::EditingTitle(_)
                ) {
                    self.input_buffer.push(c);
                }
            },
            Action::DeleteChar => {
                if matches!(
                    self.mode,
                    AppMode::AddingNode | AppMode::EditingContent(_) | AppMode::EditingTitle(_)
                ) {
                    self.input_buffer.pop();
                }
            },
        }
        false
    }

    /// Moves the selection one entry up.
    pub fn move_up(&mut self)
        requires
            old(self).wf(),
        ensures
            final(self).wf(),
            Self::moved_up(*old(self), *final(self)),
    {
        if self.selected_index > 0 {
            self.selected_index -= 1;
        }
    }

    /// Moves the selection one entry down.
    pub fn move_down(&mut self)
        requires
            old(self).wf(),
        ensures
            final(self).wf(),
            Self::moved_down(*old(self), *final(self)),
    {
        let len = self.display_list.len();
        if len > 0 && self.selected_index < len - 1 {
            self.selected_index += 1;
        }
    }

    /// Opens the form for a new node.
    pub fn start_add_node(&mut self)
        requires
            old(self).wf(),
        ensures
            final(self).wf(),
            Self::add_started(*old(self), *final(self)),
    {
        self.mode = AppMode::AddingNode;
        self.input_buffer.clear();
        self.input_field = InputField::Title;
        self.temp_title.clear();
    }

    /// Keeps the text typed as the title and goes on to the content.
    pub fn move_to_content_input(&mut self)
        requires
            old(self).wf(),
        ensures
            final(self).wf(),
            Self::title_entered(*old(self), *final(self)),
    {
        self.temp_title = self.input_buffer.clone();
        self.input_buffer.clear();
        self.input_field = InputField::Content;
    }

    /// Adds the node that the form describes under the selected node.
    pub fn confirm_add_node(&mut self)
        requires
            old(self).wf(),
        ensures
            final(self).wf(),
            Self::add_confirmed(*old(self), *final(self)),
    {
        let title = self.temp_title.clone();
        let content = self.input_buffer.clone();
        let parent_id = self.selected_node_id();
        proof {
            if self.tree@.nodes.len() == 0 {
                self.lemma_nothing_displayed();
            }
        }
        let added = self.tree.add_node(title, content, parent_id);
        let ghost made = choose|node: FocusNode|
            {
                &&& #[trigger] node.made_of(title, content, parent_id)
                &&& if old(self).tree@.can_insert(node) {
                    &&& added == Some(node.id)
                    &&& self.tree@ == old(self).tree@.after_insert(node)
                } else {
                    added is None
                }
            };
        self.refresh_display_list();
        self.mode = AppMode::Normal;
        self.temp_title.clear();
        match added {
            Some(_) => {
                self.message = Some(Notice::NodeAdded);
            },
            None => {
                self.message = Some(Notice::NodeNotAdded);
            },
        }
        proof {
            assert(Self::form_node(*old(self), made));
        }
    }

    /// Loads the content of the selected node for editing.
    pub fn start_edit_content(&mut self)
        requires
            old(self).wf(),
        ensures
            final(self).wf(),
            Self::content_edit_started(*old(self), *final(self)),
    {
        proof {
            self.lemma_displayed_exist();
        }
        let loaded = match self.selected_node() {
            Some(node) => Some((node.id, node.content.clone())),
            None => None,
        };
        match loaded {
            Some((id, content)) => {
                self.mode = AppMode::EditingContent(id);
                self.input_buffer = content;
            },
            None => {},
        }
    }

    /// Writes the text typed into the content of `node_id`.
    pub fn confirm_edit_content(&mut self, node_id: u128)
        requires
            old(self).wf(),
        ensures
            final(self).wf(),
            Self::content_confirmed(*old(self), node_id, *final(self)),
    {
        let content = self.input_buffer.clone();
        self.tree.set_content(node_id, content);
        self.mode = AppMode::Normal;
        self.input_buffer.clear();
        self.message = Some(Notice::ContentUpdated);
        proof {
            assert(self.tree@.nodes.dom() =~= old(self).tree@.nodes.dom());
            old(self).tree@.lemma_display_rows_same_links(self.tree@);
        }
    }

    /// Loads the title of the selected node for editing.
    pub fn start_edit_title(&mut self)
        requires
            old(self).wf(),
        ensures
            final(self).wf(),
            Self::title_edit_started(*old(self), *final(self)),
    {
        proof {
            self.lemma_displayed_exist();
        }
        let loaded = match self.selected_node() {
            Some(node) => Some((node.id, node.title.clone())),
            None => None,
        };
        match loaded {
            Some((id, title)) => {
                self.mode = AppMode::EditingTitle(id);
                self.input_buffer = title;
            },
            None => {},
        }
    }

    /// Writes the text typed into the title of `node_id`.
    pub fn confirm_edit_title(&mut self, node_id: u128)
        requires
            old(self).wf(),
        ensures
            final(self).wf(),
            Self::title_confirmed(*old(self), node_id, *final(self)),
    {
        let title = self.input_buffer.clone();
        self.tree.set_title(node_id, title);
        self.mode = AppMode::Normal;
        self.input_buffer.clear();
        self.message = Some(Notice::TitleUpdated);
        proof {
            assert(self.tree@.nodes.dom() =~= old(self).tree@.nodes.dom());
            old(self).tree@.lemma_display_rows_same_links(self.tree@);
        }
    }

    /// Picks up the selected node to be moved.
    pub fn start_move_node(&mut self)
        requires
            old(self).wf(),
        ensures
            final(self).wf(),
            Self::move_started(*old(self), *final(self)),
    {
        match self.selected_node_id() {
            Some(id) => {
                self.mode = AppMode::MovingNode(id);
                self.message = Some(Notice::ChooseNewParent);
            },
            None => {},
        }
    }

    /// Moves `node_id` under the selected node.
    pub fn confirm_move_node(&mut self, node_id: u128)
        requires
            old(self).wf(),
        ensures
            final(self).wf(),
            Self::move_confirmed(*old(self), node_id, *final(self)),
    {
        let new_parent_id = self.selected_node_id();
        match self.tree.move_node(node_id, new_parent_id) {
            Err(MoveError::SelfParent) => {
                self.message = Some(Notice::CannotMoveUnderItself);
                self.mode = AppMode::Normal;
            },
            Err(MoveError::UnderDescendant) => {
                self.message = Some(Notice::CannotMoveUnderDescendant);
                self.mode = AppMode::Normal;
            },
            Ok(()) => {
                self.refresh_display_list();
                self.mode = AppMode::Normal;
                self.message = Some(Notice::NodeMoved);
            },
        }
    }

    /// Asks whether to delete the selected node.
    pub fn start_delete_node(&mut self)
        requires
            old(self).wf(),
        ensures
            final(self).wf(),
            Self::delete_started(*old(self), *final(self)),
    {
        match self.selected_node_id() {
            Some(id) => {
                self.mode = AppMode::Confirm(ConfirmAction::Delete(id));
            },
            None => {},
        }
    }

    /// Asks whether to fail the selected node, or recovers it at once when
    /// it is failed.
    pub fn start_fail_node(&mut self)
        requires
            old(self).wf(),
        ensures
            final(self).wf(),
            Self::fail_started(*old(self), *final(self)),
    {
        proof {
            self.lemma_displayed_exist();
        }
        let found = match self.selected_node() {
            Some(node) => Some((node.id, node.status)),
            None => None,
        };
        match found {
            Some((id, NodeStatus::Active)) => {
                self.mode = AppMode::Confirm(ConfirmAction::Fail(id));
            },
            Some((id, NodeStatus::Failed)) => {
                self.tree.recover_node(id);
                self.message = Some(Notice::NodeRecovered);
                proof {
                    assert(self.tree@.nodes.dom() =~= old(self).tree@.nodes.dom());
                    old(self).tree@.lemma_display_rows_same_links(self.tree@);
                }
            },
            _ => {},
        }
    }

    /// Carries out the action that waited for confirmation.
    pub fn execute_confirm(&mut self)
        requires
            old(self).wf(),
        ensures
            final(self).wf(),
            Self::confirm_executed(*old(self), *final(self)),
    {
        match self.mode {
            AppMode::Confirm(ConfirmAction::Delete(id)) => {
                let deleted = self.tree.delete_node(id);
                self.message = Some(Notice::Deleted(deleted.len()));
            },
            AppMode::Confirm(ConfirmAction::Fail(id)) => {
                let deleted = self.tree.fail_node(id);
                self.message = Some(Notice::Failed(deleted.len()));
            },
            _ => {},
        }
        self.refresh_display_list();
        self.mode = AppMode::Normal;
    }

    /// Leaves the current form or dialog.
    pub fn cancel(&mut self)
        requires
            old(self).wf(),
        ensures
            final(self).wf(),
            Self::cancelled(*old(self), *final(self)),
    {
        self.mode = AppMode::Normal;
        self.input_buffer.clear();
        self.message = None;
    }
}

} // verus!
