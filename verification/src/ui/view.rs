//! The projection of the controller's state for display: one row for each
//! displayed node, computed afresh from the tree each time.

use vstd::prelude::*;
use crate::node::NodeStatus;
use crate::time::{current_time, Timestamp};
use crate::ui::state::App;

verus! {

/// One line of the displayed list.
#[derive(Clone, Debug)]
pub struct DisplayRow {
    /// How deep the node stands below its root; zero for a root.
    pub depth: usize,
    pub id: u128,
    pub title: String,
    /// Whole days since the node was created.
    pub days_active: i64,
    pub status: NodeStatus,
    /// The sign shown for the status.
    pub glyph: char,
    /// Whether this line is the selected one.
    pub selected: bool,
}

/// The sign shown for a status.
pub open spec fn glyph_of(status: NodeStatus) -> char {
    match status {
        NodeStatus::Active => '●',
        NodeStatus::Failed => '✗',
        NodeStatus::Completed => '✓',
    }
}

/// The sign shown for a status.
pub fn status_glyph(status: NodeStatus) -> (glyph: char)
    ensures
        glyph == glyph_of(status),
{
    match status {
        NodeStatus::Active => '●',
        NodeStatus::Failed => '✗',
        NodeStatus::Completed => '✓',
    }
}

impl App {
    /// Whether `row` shows entry `i` of the display list as it stands at
    /// the time `now`.
    pub open spec fn shows(&self, row: DisplayRow, i: int, now: Timestamp) -> bool {
        let entry = self.display_list@[i];
        let node = self.tree@.nodes[entry.1];
        &&& row.depth == entry.0
        &&& row.id == entry.1
        &&& row.title@ == node.title@
        &&& row.days_active == node.created_at.whole_days_until(now)
        &&& row.status == node.status
        &&& row.glyph == glyph_of(node.status)
        &&& row.selected == (i == self.selected_index)
    }

    /// Whether `rows` are the displayed list at the time `now`: one row for
    /// each entry of the display list, in order.
    pub open spec fn projected(&self, rows: Seq<DisplayRow>, now: Timestamp) -> bool {
        &&& rows.len() == self.display_list@.len()
        &&& forall|i: int| 0 <= i < rows.len() ==> self.shows(#[trigger] rows[i], i, now)
    }

    /// The displayed list at the time `now`.
    pub fn project_at(&self, now: &Timestamp) -> (rows: Vec<DisplayRow>)
        requires
            self.wf(),
        ensures
            self.projected(rows@, *now),
    {
        let mut rows: Vec<DisplayRow> = Vec::new();
        let mut i: usize = 0;
        proof {
            self.lemma_displayed_exist();
        }
        while i < self.display_list.len()
            invariant
                i <= self.display_list.len(),
                rows@.len() == i,
                forall|j: int|
                    0 <= j < self.display_list@.len() ==> self.tree@.has(
                        (#[trigger] self.display_list@[j]).1,
                    ),
                forall|j: int| 0 <= j < i ==> self.shows(#[trigger] rows@[j], j, *now),
            decreases self.display_list.len() - i,
        {
            let (depth, id) = self.display_list[i];
            assert(self.tree@.has(self.display_list@[i as int].1));
            match self.tree.get(id) {
                Some(node) => {
                    rows.push(
                        DisplayRow {
                            depth,
                            id,
                            title: node.title.clone(),
                            days_active: node.days_active_at(now),
                            status: node.status,
                            glyph: status_glyph(node.status),
                            selected: i == self.selected_index,
                        },
                    );
                },
                None => {},
            }
            i += 1;
        }
        rows
    }

    /// The displayed list at the present moment of the system clock.
    pub fn project(&self) -> (rows: Vec<DisplayRow>)
        requires
            self.wf(),
        ensures
            exists|now: Timestamp| #[trigger] self.projected(rows@, now),
    {
        let now = current_time();
        self.project_at(&now)
    }
}

} // verus!
