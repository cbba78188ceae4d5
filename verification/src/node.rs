//! A focus node: one tracked commitment.

use vstd::prelude::*;
use crate::time::{current_time, Timestamp};

verus! {

/// Where a commitment stands.
#[derive(Clone, Copy, Debug, PartialEq, Eq, Structural)]
pub enum NodeStatus {
    /// Being pursued.
    Active,
    /// Given up; can be recovered to `Active`.
    Failed,
    /// Reserved: no operation produces it, but it is kept when stored.
    Completed,
}

impl Default for NodeStatus {
    fn default() -> (status: NodeStatus)
        ensures
            status == NodeStatus::Active,
    {
        NodeStatus::Active
    }
}

/// Draws a random version-4 identifier with `uuid::Uuid::new_v4` and packs
/// its bytes into an integer with `Uuid::as_u128`. Nothing is claimed of the
/// value: every draw may differ, and a draw may repeat an earlier one.
#[verifier::external_body]
pub(crate) fn random_id() -> (id: u128) {
    uuid::Uuid::new_v4().as_u128()
}

/// One commitment of the tree.
#[derive(Clone, Debug)]
pub struct FocusNode {
    /// Identity, fixed at creation.
    pub id: u128,
    /// The parent's identity; `None` for a root.
    pub parent_id: Option<u128>,
    pub title: String,
    pub content: String,
    /// When the node was created.
    pub created_at: Timestamp,
    pub status: NodeStatus,
    pub streak_days: u32,
}

impl FocusNode {
    /// Whether `self` is a node as [`FocusNode::new`] makes it of these
    /// arguments: active, with no streak, whatever its identity and the time
    /// of its creation.
    pub open spec fn made_of(
        self,
        title: String,
        content: String,
        parent_id: Option<u128>,
    ) -> bool {
        &&& self.title == title
        &&& self.content == content
        &&& self.parent_id == parent_id
        &&& self.status == NodeStatus::Active
        &&& self.streak_days == 0
    }

    /// A new active node with a random identity, created now.
    pub fn new(title: String, content: String, parent_id: Option<u128>) -> (node: FocusNode)
        ensures
            node.title == title,
            node.content == content,
            node.parent_id == parent_id,
            node.status == NodeStatus::Active,
            node.streak_days == 0,
    {
        FocusNode {
            id: random_id(),
            parent_id,
            title,
            content,
            created_at: current_time(),
            status: NodeStatus::Active,
            streak_days: 0,
        }
    }

    /// Whether the node has no parent.
    pub fn is_root(&self) -> (root: bool)
        ensures
            root == (self.parent_id is None),
    {
        self.parent_id.is_none()
    }

    /// Whole days from creation until `now`, never negative.
    pub fn days_active_at(&self, now: &Timestamp) -> (days: i64)
        ensures
            days == self.created_at.whole_days_until(*now),
            days >= 0,
    {
        self.created_at.days_until(now)
    }

    /// Whole days from creation until the present moment of the system
    /// clock, never negative: the count that [`FocusNode::days_active_at`]
    /// gives for the moment that the clock showed.
    pub fn days_active(&self) -> (days: i64)
        ensures
            days >= 0,
            exists|now: Timestamp| #[trigger] self.created_at.whole_days_until(now) == days,
    {
        let now = current_time();
        let days = self.days_active_at(&now);
        assert(self.created_at.whole_days_until(now) == days);
        days
    }

    /// A copy equal to `self` in every field.
    pub fn duplicate(&self) -> (copy: FocusNode)
        ensures
            copy == *self,
    {
        FocusNode {
            id: self.id,
            parent_id: self.parent_id,
            title: self.title.clone(),
            content: self.content.clone(),
            created_at: self.created_at,
            status: self.status,
            streak_days: self.streak_days,
        }
    }
}

} // verus!
