//! The mathematical model of the tree: a forest over node identities, the
//! invariant that keeps it a forest, and what each mutation makes of it.

use vstd::prelude::*;
use crate::node::{FocusNode, NodeStatus};
use crate::seqs::without;

verus! {

/// The nodes by identity, the roots in display order, and for each parent
/// the identities of its children in display order.
pub struct Forest {
    pub nodes: Map<u128, FocusNode>,
    pub roots: Seq<u128>,
    pub children: Map<u128, Seq<u128>>,
}

impl Forest {
    /// The forest with no node.
    pub open spec fn empty() -> Forest {
        Forest { nodes: Map::empty(), roots: Seq::empty(), children: Map::empty() }
    }

    /// Whether a node with this identity exists.
    pub open spec fn has(self, id: u128) -> bool {
        self.nodes.contains_key(id)
    }

    /// The children listed under `p`, in order; empty when none is listed.
    pub open spec fn kids(self, p: u128) -> Seq<u128> {
        if self.children.contains_key(p) {
            self.children[p]
        } else {
            Seq::empty()
        }
    }

    /// Whether `a` is reached from the node `d` by following parent
    /// references at least once and at most `n` times.
    pub open spec fn climbs_to(self, d: u128, a: u128, n: nat) -> bool
        decreases n,
    {
        n > 0 && self.has(d) && match self.nodes[d].parent_id {
            Some(p) => p == a || self.climbs_to(p, a, (n - 1) as nat),
            None => false,
        }
    }

    /// Whether the node `d` lies below `a`: `a` is its parent, or its
    /// parent's parent, and so on.
    pub open spec fn is_descendant(self, d: u128, a: u128) -> bool {
        exists|n: nat| self.climbs_to(d, a, n)
    }

    /// Every node that lies below `a`.
    pub open spec fn descendants(self, a: u128) -> Set<u128> {
        Set::new(|d: u128| self.is_descendant(d, a))
    }

    /// Whether `r` grows along every parent reference, from parent to child.
    pub open spec fn ranked_by(self, r: spec_fn(u128) -> nat) -> bool {
        forall|id: u128| #[trigger]
            self.has(id) ==> match self.nodes[id].parent_id {
                Some(p) => r(p) < r(id),
                None => true,
            }
    }

    /// No chain of parent references leads back to where it began.
    pub open spec fn acyclic(self) -> bool {
        exists|r: spec_fn(u128) -> nat| self.ranked_by(r)
    }

    /// The invariant of the tree. Every node is stored under its own
    /// identity; the roots are exactly the nodes without a parent, each listed
    /// once; the children listed under `p` are exactly the nodes whose parent
    /// is `p`, each listed once; no empty child list is kept; and the parent
    /// references form no cycle.
    pub open spec fn wf(self) -> bool {
        &&& self.nodes.dom().finite()
        &&& forall|id: u128| #[trigger] self.has(id) ==> self.nodes[id].id == id
        &&& self.roots.no_duplicates()
        &&& forall|id: u128| #[trigger]
            self.roots.contains(id) <==> self.has(id) && self.nodes[id].parent_id is None
        &&& forall|p: u128| #[trigger]
            self.children.contains_key(p) ==> self.children[p].len() > 0
        &&& forall|p: u128| #[trigger] self.kids(p).no_duplicates()
        &&& forall|p: u128, c: u128| #[trigger]
            self.kids(p).contains(c) <==> self.has(c) && self.nodes[c].parent_id == Some(p)
        &&& self.acyclic()
    }

    /// Whether giving `id` the parent `parent` keeps the forest free of
    /// cycles: the parent is neither `id` itself nor a node below `id`.
    pub open spec fn link_ok(self, id: u128, parent: Option<u128>) -> bool {
        match parent {
            Some(p) => p != id && !self.is_descendant(p, id),
            None => true,
        }
    }

    /// The roots once `id` has been appended under `parent`.
    pub open spec fn roots_with(self, id: u128, parent: Option<u128>) -> Seq<u128> {
        match parent {
            Some(_) => self.roots,
            None => self.roots.push(id),
        }
    }

    /// The child lists once `id` has been appended under `parent`.
    pub open spec fn children_with(self, id: u128, parent: Option<u128>) -> Map<u128, Seq<u128>> {
        match parent {
            Some(p) => self.children.insert(p, self.kids(p).push(id)),
            None => self.children,
        }
    }

    /// The child lists once `c` has been taken out of the list under `p`;
    /// a list left empty is dropped.
    pub open spec fn children_without(self, p: u128, c: u128) -> Map<u128, Seq<u128>> {
        let rest = without(self.kids(p), c);
        if rest.len() == 0 {
            self.children.remove(p)
        } else {
            self.children.insert(p, rest)
        }
    }

    /// The forest with `id` taken out of the list that holds it: the roots,
    /// or the child list of its parent. The node itself stays.
    pub open spec fn unlinked(self, id: u128) -> Forest {
        if !self.has(id) {
            self
        } else {
            match self.nodes[id].parent_id {
                None => Forest { roots: without(self.roots, id), ..self },
                Some(p) => Forest { children: self.children_without(p, id), ..self },
            }
        }
    }

    /// Whether `node` can be inserted: its identity is not in use and its
    /// parent reference closes no cycle.
    pub open spec fn can_insert(self, node: FocusNode) -> bool {
        !self.has(node.id) && self.link_ok(node.id, node.parent_id)
    }

    /// The forest with `node` added as the last root or as the last child of
    /// its parent.
    pub open spec fn after_insert(self, node: FocusNode) -> Forest {
        Forest {
            nodes: self.nodes.insert(node.id, node),
            roots: self.roots_with(node.id, node.parent_id),
            children: self.children_with(node.id, node.parent_id),
        }
    }

    /// The forest with `id` and every node below it removed; unchanged when
    /// `id` does not exist.
    pub open spec fn after_delete(self, id: u128) -> Forest {
        if !self.has(id) {
            self
        } else {
            let gone = self.descendants(id).insert(id);
            let cut = self.unlinked(id);
            Forest {
                nodes: self.nodes.remove_keys(gone),
                roots: cut.roots,
                children: cut.children.remove_keys(gone),
            }
        }
    }

    /// The forest with `id` marked failed and every node below it removed;
    /// unchanged when `id` does not exist.
    pub open spec fn after_fail(self, id: u128) -> Forest {
        if !self.has(id) {
            self
        } else {
            let gone = self.descendants(id);
            Forest {
                nodes: self.nodes.remove_keys(gone).insert(
                    id,
                    FocusNode { status: NodeStatus::Failed, ..self.nodes[id] },
                ),
                roots: self.roots,
                children: self.children.remove_keys(gone.insert(id)),
            }
        }
    }

    /// The forest with `id` active again if it was failed; unchanged
    /// otherwise.
    pub open spec fn after_recover(self, id: u128) -> Forest {
        if self.has(id) && self.nodes[id].status == NodeStatus::Failed {
            Forest {
                nodes: self.nodes.insert(
                    id,
                    FocusNode { status: NodeStatus::Active, ..self.nodes[id] },
                ),
                ..self
            }
        } else {
            self
        }
    }

    /// The forest with `id` moved to the end of the roots or of the children
    /// of `parent`, the nodes below `id` following it; unchanged when `id` does
    /// not exist.
    pub open spec fn after_move(self, id: u128, parent: Option<u128>) -> Forest {
        if !self.has(id) {
            self
        } else {
            let cut = self.unlinked(id);
            Forest {
                nodes: self.nodes.insert(id, FocusNode { parent_id: parent, ..self.nodes[id] }),
                roots: cut.roots_with(id, parent),
                children: cut.children_with(id, parent),
            }
        }
    }

    /// The forest with the title of `id` replaced; unchanged when `id` does
    /// not exist.
    pub open spec fn after_retitle(self, id: u128, title: String) -> Forest {
        if self.has(id) {
            Forest { nodes: self.nodes.insert(id, FocusNode { title, ..self.nodes[id] }), ..self }
        } else {
            self
        }
    }

    /// The forest with the content of `id` replaced; unchanged when `id` does
    /// not exist.
    pub open spec fn after_rewrite(self, id: u128, content: String) -> Forest {
        if self.has(id) {
            Forest {
                nodes: self.nodes.insert(id, FocusNode { content, ..self.nodes[id] }),
                ..self
            }
        } else {
            self
        }
    }

    /// The rows that the node `id` and the nodes below it take in the
    /// display, parents before children and children in listed order, `id`
    /// standing at `depth`. At most `fuel` levels are descended.
    pub open spec fn subtree_rows(self, id: u128, depth: nat, fuel: nat) -> Seq<(nat, u128)>
        decreases fuel, 0nat,
    {
        if fuel == 0 || !self.has(id) {
            Seq::empty()
        } else {
            seq![(depth, id)] + self.forest_rows(self.kids(id), depth + 1, (fuel - 1) as nat)
        }
    }

    /// The rows of the nodes `ids` and of the nodes below them, one subtree
    /// after the other, each of `ids` standing at `depth`.
    pub open spec fn forest_rows(self, ids: Seq<u128>, depth: nat, fuel: nat) -> Seq<(nat, u128)>
        decreases fuel, 1 + ids.len(),
    {
        if ids.len() == 0 {
            Seq::empty()
        } else {
            self.forest_rows(ids.drop_last(), depth, fuel) + self.subtree_rows(
                ids.last(),
                depth,
                fuel,
            )
        }
    }

    /// The display order: every root with the nodes below it, depth first,
    /// roots at depth zero.
    pub open spec fn display_rows(self) -> Seq<(nat, u128)> {
        self.forest_rows(self.roots, 0, self.nodes.len())
    }
}

} // verus!
