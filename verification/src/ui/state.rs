//! The state of the controller.

use vstd::prelude::*;
use vstd::std_specs::hash::group_hash_axioms;
use crate::node::FocusNode;
use crate::tree::{row_keys, rows_of, FocusTree};

verus! {

broadcast use group_hash_axioms;

/// What the controller is doing.
#[derive(Clone, Copy, Debug, PartialEq, Eq, Structural)]
pub enum AppMode {
    Normal,
    /// Entering a new node; [`InputField`] tells which part.
    AddingNode,
    /// Editing the content of this node.
    EditingContent(u128),
    /// Editing the title of this node.
    EditingTitle(u128),
    /// Choosing a new parent for this node.
    MovingNode(u128),
    /// Waiting for the user to confirm.
    Confirm(ConfirmAction),
}

/// An action that waits for confirmation.
#[derive(Clone, Copy, Debug, PartialEq, Eq, Structural)]
pub enum ConfirmAction {
    Delete(u128),
    Fail(u128),
}

/// The part of a new node that is being entered.
#[derive(Clone, Copy, Debug, PartialEq, Eq, Structural)]
pub enum InputField {
    Title,
    Content,
}

/// What the controller tells the user about its last step.
#[derive(Clone, Copy, Debug, PartialEq, Eq, Structural)]
pub enum Notice {
    NodeAdded,
    /// The identity drawn for a new node could not be used.
    NodeNotAdded,
    ContentUpdated,
    TitleUpdated,
    /// A node is being moved: choose its new parent.
    ChooseNewParent,
    CannotMoveUnderItself,
    CannotMoveUnderDescendant,
    NodeMoved,
    NodeRecovered,
    /// So many nodes were deleted.
    Deleted(usize),
    /// The node was marked failed, and so many nodes below it were deleted.
    Failed(usize),
}

/// The depth and identity of each entry of a display list.
pub open spec fn list_keys(list: Seq<(usize, u128)>) -> Seq<(nat, u128)> {
    list.map_values(|r: (usize, u128)| (r.0 as nat, r.1))
}

/// The index kept for a list of `len` entries: `index` itself while it
/// points into the list, else the last entry, and zero for an empty list.
pub open spec fn clamp_index(index: usize, len: nat) -> usize {
    if len == 0 {
        0
    } else if index >= len {
        (len - 1) as usize
    } else {
        index
    }
}

/// The state of the controller.
pub struct App {
    pub tree: FocusTree,
    /// The entry of `display_list` that is selected.
    pub selected_index: usize,
    /// The displayed nodes in display order, each with its depth.
    pub display_list: Vec<(usize, u128)>,
    pub mode: AppMode,
    /// The text being typed.
    pub input_buffer: String,
    pub input_field: InputField,
    pub message: Option<Notice>,
    /// The title of a new node, kept while its content is typed.
    pub temp_title: String,
}

impl App {
    /// Whether the selection points into the display list, or is zero when
    /// the list is empty.
    pub open spec fn selection_valid(&self) -> bool {
        if self.display_list@.len() == 0 {
            self.selected_index == 0
        } else {
            self.selected_index < self.display_list@.len()
        }
    }

    /// The invariant of the controller: the tree meets its invariant, the
    /// display list is the display order of the tree, and the selection is
    /// valid.
    pub open spec fn wf(&self) -> bool {
        &&& self.tree.wf()
        &&& list_keys(self.display_list@) == self.tree@.display_rows()
        &&& self.selection_valid()
    }

    /// The identity of the selected entry.
    pub open spec fn selected_id(&self) -> Option<u128> {
        if self.selected_index < self.display_list@.len() {
            Some(self.display_list@[self.selected_index as int].1)
        } else {
            None
        }
    }

    /// Under the invariant every displayed identity is a node of the tree.
    pub proof fn lemma_displayed_exist(&self)
        requires
            self.wf(),
        ensures
            forall|i: int|
                0 <= i < self.display_list@.len() ==> self.tree@.has(
                    (#[trigger] self.display_list@[i]).1,
                ),
    {
        self.tree@.lemma_display_rows_are_nodes();
        assert forall|i: int| 0 <= i < self.display_list@.len() implies self.tree@.has(
            (#[trigger] self.display_list@[i]).1,
        ) by {
            assert(list_keys(self.display_list@)[i].1 == self.display_list@[i].1);
        }
    }

    /// Under the invariant an empty tree displays nothing, so nothing is
    /// selected.
    pub proof fn lemma_nothing_displayed(&self)
        requires
            self.wf(),
            self.tree@.nodes.len() == 0,
        ensures
            self.display_list@.len() == 0,
            self.selected_id() is None,
    {
        let f = self.tree@;
        if f.roots.len() > 0 {
            assert(f.roots.contains(f.roots[0]));
            assert(f.nodes.dom().contains(f.roots[0]));
            assert(f.nodes.dom().len() > 0);
        }
        assert(f.display_rows().len() == 0);
        assert(list_keys(self.display_list@).len() == self.display_list@.len());
    }

    /// A controller over `tree`, in normal mode, the first entry selected.
    pub fn new(tree: FocusTree) -> (app: App)
        requires
            tree.wf(),
        ensures
            app.wf(),
            app.tree == tree,
            app.selected_index == 0,
            app.mode == AppMode::Normal,
            app.input_buffer@.len() == 0,
            app.input_field == InputField::Title,
            app.message is None,
            app.temp_title@.len() == 0,
    {
        let mut app = App {
            tree,
            selected_index: 0,
            display_list: Vec::new(),
            mode: AppMode::Normal,
            input_buffer: String::new(),
            input_field: InputField::Title,
            message: None,
            temp_title: String::new(),
        };
        app.refresh_display_list();
        app
    }

    /// Recomputes the display list from the tree and brings the selection
    /// back into it: a selection past the end moves to the last entry.
    pub fn refresh_display_list(&mut self)
        requires
            old(self).tree.wf(),
        ensures
            final(self).wf(),
            list_keys(final(self).display_list@) == old(self).tree@.display_rows(),
            *final(self) == (App {
                display_list: final(self).display_list,
                selected_index: clamp_index(
                    old(self).selected_index,
                    old(self).tree@.display_rows().len(),
                ),
                ..*old(self)
            }),
    {
        let rows = self.tree.flatten_for_display();
        let mut list: Vec<(usize, u128)> = Vec::new();
        let mut i: usize = 0;
        while i < rows.len()
            invariant
                i <= rows.len(),
                list@.len() == i,
                forall|j: int|
                    0 <= j < i ==> (#[trigger] list@[j]) == (rows@[j].0, rows@[j].1.id),
            decreases rows.len() - i,
        {
            list.push((rows[i].0, rows[i].1.id));
            i += 1;
        }
        assert(list_keys(list@) =~= row_keys(rows@));
        self.display_list = list;
        if self.display_list.len() == 0 {
            self.selected_index = 0;
        } else if self.selected_index >= self.display_list.len() {
            self.selected_index = self.display_list.len() - 1;
        }
    }

    /// The selected node.
    pub fn selected_node(&self) -> (node: Option<&FocusNode>)
        ensures
            match node {
                Some(n) => self.selected_id() matches Some(id) && self.tree@.has(id) && *n
                    == self.tree@.nodes[id],
                None => self.selected_id() matches Some(id) ==> !self.tree@.has(id),
            },
    {
        if self.selected_index < self.display_list.len() {
            self.tree.get(self.display_list[self.selected_index].1)
        } else {
            None
        }
    }

    /// The identity of the selected entry, if the list has one.
    pub fn selected_node_id(&self) -> (id: Option<u128>)
        ensures
            id == self.selected_id(),
    {
        if self.selected_index < self.display_list.len() {
            Some(self.display_list[self.selected_index].1)
        } else {
            None
        }
    }
}

} // verus!
