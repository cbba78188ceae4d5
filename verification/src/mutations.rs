//! Every mutation keeps the invariant of the forest, and what each of them
//! changes and leaves alone.

use vstd::prelude::*;
use crate::forest::Forest;
use crate::node::{FocusNode, NodeStatus};
use crate::seqs::{lemma_push, lemma_without, without};

verus! {

impl Forest {
    /// A forest whose parent references are among those of a forest without
    /// cycles has no cycle either.
    pub proof fn lemma_fewer_links_acyclic(self, after: Forest)
        requires
            self.acyclic(),
            forall|x: u128| #[trigger]
                after.has(x) ==> self.has(x) && (after.nodes[x].parent_id is None
                    || after.nodes[x].parent_id == self.nodes[x].parent_id),
        ensures
            after.acyclic(),
    {
        let r = choose|r: spec_fn(u128) -> nat| self.ranked_by(r);
        assert forall|x: u128| #[trigger] after.has(x) implies match after.nodes[x].parent_id {
            Some(p) => r(p) < r(x),
            None => true,
        } by {
            assert(self.has(x));
        }
        assert(after.ranked_by(r));
    }

    /// Giving `id` a parent that is neither `id` nor below `id`, all other
    /// parent references kept, closes no cycle.
    pub proof fn lemma_relink_acyclic(self, after: Forest, id: u128, parent: Option<u128>)
        requires
            self.acyclic(),
            self.link_ok(id, parent),
            after.has(id),
            after.nodes[id].parent_id == parent,
            forall|x: u128| #[trigger]
                after.has(x) && x != id ==> self.has(x) && after.nodes[x].parent_id
                    == self.nodes[x].parent_id,
        ensures
            after.acyclic(),
    {
        let r = choose|r: spec_fn(u128) -> nat| self.ranked_by(r);
        let lift: nat = match parent {
            Some(p) => r(p) + 1,
            None => 0,
        };
        let r2 = |x: u128|
            if x == id || self.is_descendant(x, id) {
                r(x) + lift
            } else {
                r(x)
            };
        assert forall|x: u128| #[trigger] after.has(x) implies match after.nodes[x].parent_id {
            Some(p) => r2(p) < r2(x),
            None => true,
        } by {
            if x != id {
                assert(self.has(x));
                if self.nodes[x].parent_id is Some {
                    let q = self.nodes[x].parent_id->0;
                    if self.is_descendant(x, id) {
                        self.lemma_parent_of_descendant(x, id);
                    } else if q == id || self.is_descendant(q, id) {
                        self.lemma_child_is_descendant(x, id);
                    }
                }
            }
        }
        assert(after.ranked_by(r2));
    }

    /// Inserting a node that can be inserted keeps the invariant.
    pub proof fn lemma_insert_wf(self, node: FocusNode)
        requires
            self.wf(),
            self.can_insert(node),
        ensures
            self.after_insert(node).wf(),
    {
        let after = self.after_insert(node);
        let id = node.id;
        self.lemma_relink_acyclic(after, id, node.parent_id);
        lemma_push(self.roots, id);
        assert forall|p: u128| #[trigger] after.kids(p).no_duplicates() by {
            assert(self.kids(p).no_duplicates());
            lemma_push(self.kids(p), id);
            assert(!self.kids(p).contains(id));
        }
        assert forall|p: u128, c: u128| #[trigger]
            after.kids(p).contains(c) <==> after.has(c) && after.nodes[c].parent_id == Some(
                p,
            ) by {
            lemma_push(self.kids(p), id);
            assert(self.kids(p).contains(c) <==> self.has(c) && self.nodes[c].parent_id == Some(
                p,
            ));
        }
        assert forall|x: u128| #[trigger]
            after.roots.contains(x) <==> after.has(x) && after.nodes[x].parent_id is None by {
            assert(self.roots.contains(x) <==> self.has(x) && self.nodes[x].parent_id is None);
        }
        assert forall|x: u128| #[trigger] after.has(x) implies after.nodes[x].id == x by {
            if x != id {
                assert(self.has(x));
            }
        }
        assert(!self.roots.contains(id));
    }
}

impl Forest {
    /// What taking `id` out of the list that holds it leaves: the same
    /// lists without `id`.
    pub proof fn lemma_unlinked(self, id: u128)
        requires
            self.wf(),
            self.has(id),
        ensures
            self.unlinked(id).nodes == self.nodes,
            self.unlinked(id).roots == without(self.roots, id),
            self.unlinked(id).roots.no_duplicates(),
            forall|x: u128| #[trigger]
                self.unlinked(id).roots.contains(x) <==> self.roots.contains(x) && x != id,
            forall|p: u128| #[trigger] self.unlinked(id).kids(p) == without(self.kids(p), id),
            forall|p: u128| #[trigger] self.unlinked(id).kids(p).no_duplicates(),
            forall|p: u128, c: u128| #[trigger]
                self.unlinked(id).kids(p).contains(c) <==> self.kids(p).contains(c) && c != id,
            forall|p: u128| #[trigger]
                self.unlinked(id).children.contains_key(p) ==> self.unlinked(id).children[p].len()
                    > 0,
    {
        let cut = self.unlinked(id);
        lemma_without(self.roots, id);
        assert forall|p: u128| #[trigger] cut.kids(p) == without(self.kids(p), id) by {
            assert(self.kids(p).no_duplicates());
            lemma_without(self.kids(p), id);
            assert(self.kids(p).contains(id) <==> self.has(id) && self.nodes[id].parent_id
                == Some(p));
        }
        assert forall|p: u128| #[trigger] cut.kids(p).no_duplicates() by {
            assert(cut.kids(p) == without(self.kids(p), id));
            assert(self.kids(p).no_duplicates());
            lemma_without(self.kids(p), id);
        }
        assert forall|p: u128, c: u128| #[trigger]
            cut.kids(p).contains(c) <==> self.kids(p).contains(c) && c != id by {
            assert(cut.kids(p) == without(self.kids(p), id));
            assert(self.kids(p).no_duplicates());
            lemma_without(self.kids(p), id);
        }
        assert forall|p: u128| #[trigger] cut.children.contains_key(p) implies cut.children[p].len()
            > 0 by {
            if self.children.contains_key(p) {
                assert(self.children[p].len() > 0);
            }
        }
    }

    /// The parent of a node is neither the node nor a node below it.
    pub proof fn lemma_parent_outside(self, id: u128)
        requires
            self.acyclic(),
            self.has(id),
            self.nodes[id].parent_id is Some,
        ensures
            self.nodes[id].parent_id->0 != id,
            !self.is_descendant(self.nodes[id].parent_id->0, id),
    {
        let p = self.nodes[id].parent_id->0;
        self.lemma_child_is_descendant(id, p);
        self.lemma_no_cycle(id, p);
        self.lemma_no_cycle(id, id);
    }

    /// Deleting keeps the invariant and removes `id` with the nodes below
    /// it, and no other node.
    pub proof fn lemma_delete_wf(self, id: u128)
        requires
            self.wf(),
        ensures
            self.after_delete(id).wf(),
            self.has(id) ==> self.after_delete(id).nodes.dom() == self.nodes.dom().difference(
                self.descendants(id).insert(id),
            ),
            self.has(id) ==> self.after_delete(id).nodes.len() + self.descendants(id).len() + 1
                == self.nodes.len(),
            forall|x: u128| #[trigger]
                self.after_delete(id).has(x) ==> self.after_delete(id).nodes[x] == self.nodes[x],
    {
        if self.has(id) {
            let after = self.after_delete(id);
            let below = self.descendants(id);
            let gone = below.insert(id);
            let cut = self.unlinked(id);
            self.lemma_unlinked(id);
            self.lemma_descendants_finite(id);
            self.lemma_no_cycle(id, id);
            self.lemma_fewer_links_acyclic(after);
            assert(after.nodes.dom() =~= self.nodes.dom().difference(gone));
            assert(self.nodes.dom().intersect(gone) =~= gone);
            vstd::set_lib::lemma_set_difference_len(self.nodes.dom(), gone);
            assert(after.roots == cut.roots);
            assert forall|x: u128| #[trigger] after.has(x) implies after.nodes[x].id == x by {
                assert(self.has(x));
            }
            assert forall|x: u128| #[trigger]
                after.roots.contains(x) <==> after.has(x) && after.nodes[x].parent_id is None by {
                assert(self.roots.contains(x) <==> self.has(x) && self.nodes[x].parent_id is None);
                assert(cut.roots.contains(x) <==> self.roots.contains(x) && x != id);
                if below.contains(x) {
                    self.lemma_parent_of_descendant(x, id);
                }
            }
            assert forall|p: u128| #[trigger] after.kids(p).no_duplicates() by {
                assert(cut.kids(p).no_duplicates());
            }
            assert forall|p: u128, c: u128| #[trigger]
                after.kids(p).contains(c) <==> after.has(c) && after.nodes[c].parent_id == Some(
                    p,
                ) by {
                assert(cut.kids(p).contains(c) <==> self.kids(p).contains(c) && c != id);
                assert(self.kids(p).contains(c) <==> self.has(c) && self.nodes[c].parent_id
                    == Some(p));
                if self.has(c) && self.nodes[c].parent_id == Some(p) {
                    if gone.contains(p) {
                        self.lemma_child_is_descendant(c, id);
                    } else if below.contains(c) {
                        self.lemma_parent_of_descendant(c, id);
                    }
                }
            }
            assert forall|p: u128| #[trigger] after.children.contains_key(p) implies after.children[p].len()
                > 0 by {
                assert(cut.children.contains_key(p));
            }
        }
    }

    /// A node with a node below it has a child.
    pub proof fn lemma_descendant_top(self, d: u128, a: u128, n: nat) -> (c: u128)
        requires
            self.climbs_to(d, a, n),
        ensures
            self.has(c),
            self.nodes[c].parent_id == Some(a),
        decreases n,
    {
        let p = self.nodes[d].parent_id->0;
        if p == a {
            d
        } else {
            self.lemma_descendant_top(p, a, (n - 1) as nat)
        }
    }

    /// A node without children has no node below it.
    pub proof fn lemma_childless(self, a: u128)
        requires
            self.wf(),
            self.kids(a).len() == 0,
        ensures
            self.descendants(a) == Set::<u128>::empty(),
    {
        assert forall|d: u128| !self.descendants(a).contains(d) by {
            if self.is_descendant(d, a) {
                let n = choose|n: nat| self.climbs_to(d, a, n);
                let c = self.lemma_descendant_top(d, a, n);
                assert(self.kids(a).contains(c));
            }
        }
        assert(self.descendants(a) =~= Set::<u128>::empty());
    }

    /// Failing keeps the invariant. The node stays, marked failed; the
    /// nodes below it, and no others, are removed.
    pub proof fn lemma_fail_wf(self, id: u128)
        requires
            self.wf(),
        ensures
            self.after_fail(id).wf(),
            self.has(id) ==> self.after_fail(id).nodes.dom() == self.nodes.dom().difference(
                self.descendants(id),
            ),
            self.has(id) ==> self.after_fail(id).nodes.len() + self.descendants(id).len()
                == self.nodes.len(),
            self.has(id) ==> self.after_fail(id).kids(id).len() == 0,
            self.has(id) ==> self.after_fail(id).descendants(id) == Set::<u128>::empty(),
            self.has(id) ==> self.after_fail(id).has(id) && self.after_fail(id).nodes[id] == (
            FocusNode { status: NodeStatus::Failed, ..self.nodes[id] }),
            self.after_fail(id).roots == self.roots,
            forall|x: u128| #[trigger]
                self.after_fail(id).has(x) && x != id ==> self.after_fail(id).nodes[x]
                    == self.nodes[x],
            forall|p: u128| #[trigger]
                self.after_fail(id).has(p) && p != id ==> self.after_fail(id).kids(p) == self.kids(
                    p,
                ),
    {
        if self.has(id) {
            let after = self.after_fail(id);
            let below = self.descendants(id);
            let gone = below.insert(id);
            self.lemma_descendants_finite(id);
            self.lemma_no_cycle(id, id);
            self.lemma_fewer_links_acyclic(after);
            assert(after.nodes.dom() =~= self.nodes.dom().difference(below));
            assert(self.nodes.dom().intersect(below) =~= below);
            vstd::set_lib::lemma_set_difference_len(self.nodes.dom(), below);
            assert forall|x: u128| #[trigger]
                after.roots.contains(x) <==> after.has(x) && after.nodes[x].parent_id is None by {
                assert(self.roots.contains(x) <==> self.has(x) && self.nodes[x].parent_id is None);
                if below.contains(x) {
                    self.lemma_parent_of_descendant(x, id);
                }
            }
            assert forall|p: u128| #[trigger] after.kids(p).no_duplicates() by {
                assert(self.kids(p).no_duplicates());
            }
            assert forall|p: u128, c: u128| #[trigger]
                after.kids(p).contains(c) <==> after.has(c) && after.nodes[c].parent_id == Some(
                    p,
                ) by {
                assert(self.kids(p).contains(c) <==> self.has(c) && self.nodes[c].parent_id
                    == Some(p));
                if self.has(c) && self.nodes[c].parent_id == Some(p) {
                    if gone.contains(p) {
                        self.lemma_child_is_descendant(c, id);
                    } else if below.contains(c) {
                        self.lemma_parent_of_descendant(c, id);
                    }
                }
            }
            assert forall|p: u128| #[trigger] after.children.contains_key(p) implies after.children[p].len()
                > 0 by {
                assert(self.children.contains_key(p));
            }
            assert forall|x: u128| #[trigger] after.has(x) implies after.nodes[x].id == x by {
                assert(self.has(x));
            }
            assert(after.wf());
            after.lemma_childless(id);
        }
    }

    /// Recovering keeps the invariant.
    pub proof fn lemma_recover_wf(self, id: u128)
        requires
            self.wf(),
        ensures
            self.after_recover(id).wf(),
    {
        let after = self.after_recover(id);
        assert(after.nodes.dom() =~= self.nodes.dom());
        self.lemma_same_links_wf(after);
    }

    /// A forest that differs from one that meets the invariant only in
    /// fields of its nodes other than identity and parent meets it too.
    pub proof fn lemma_same_links_wf(self, after: Forest)
        requires
            self.wf(),
            after.roots == self.roots,
            after.children == self.children,
            after.nodes.dom() == self.nodes.dom(),
            forall|x: u128| #[trigger]
                self.has(x) ==> after.nodes[x].id == self.nodes[x].id && after.nodes[x].parent_id
                    == self.nodes[x].parent_id,
        ensures
            after.wf(),
    {
        assert forall|x: u128| after.has(x) == self.has(x) by {
            assert(after.nodes.dom().contains(x) == self.nodes.dom().contains(x));
        }
        assert forall|x: u128| #[trigger] after.has(x) implies self.has(x) && after.nodes[x].id
            == x && after.nodes[x].parent_id == self.nodes[x].parent_id by {
            assert(after.has(x) == self.has(x));
        }
        self.lemma_fewer_links_acyclic(after);
        assert forall|x: u128| #[trigger]
            after.roots.contains(x) <==> after.has(x) && after.nodes[x].parent_id is None by {
            assert(after.has(x) == self.has(x));
            assert(self.roots.contains(x) <==> self.has(x) && self.nodes[x].parent_id is None);
        }
        assert forall|p: u128| #[trigger] after.kids(p).no_duplicates() by {
            assert(self.kids(p).no_duplicates());
        }
        assert forall|p: u128, c: u128| #[trigger]
            after.kids(p).contains(c) <==> after.has(c) && after.nodes[c].parent_id == Some(
                p,
            ) by {
            assert(after.has(c) == self.has(c));
            assert(self.kids(p).contains(c) <==> self.has(c) && self.nodes[c].parent_id == Some(
                p,
            ));
        }
    }

    /// Moving a node under a parent that is neither the node nor below it
    /// keeps the invariant.
    pub proof fn lemma_move_wf(self, id: u128, parent: Option<u128>)
        requires
            self.wf(),
            self.link_ok(id, parent),
        ensures
            self.after_move(id, parent).wf(),
    {
        if self.has(id) {
            let after = self.after_move(id, parent);
            let cut = self.unlinked(id);
            self.lemma_unlinked(id);
            self.lemma_relink_acyclic(after, id, parent);
            lemma_push(cut.roots, id);
            assert forall|x: u128| #[trigger] after.has(x) implies after.nodes[x].id == x by {
                assert(self.has(x));
            }
            assert forall|x: u128| #[trigger]
                after.roots.contains(x) <==> after.has(x) && after.nodes[x].parent_id is None by {
                assert(self.roots.contains(x) <==> self.has(x) && self.nodes[x].parent_id is None);
                assert(cut.roots.contains(x) <==> self.roots.contains(x) && x != id);
            }
            assert forall|p: u128| #[trigger] after.kids(p).no_duplicates() by {
                assert(cut.kids(p).no_duplicates());
                assert(cut.kids(p).contains(id) <==> self.kids(p).contains(id) && id != id);
                lemma_push(cut.kids(p), id);
            }
            assert forall|p: u128, c: u128| #[trigger]
                after.kids(p).contains(c) <==> after.has(c) && after.nodes[c].parent_id == Some(
                    p,
                ) by {
                lemma_push(cut.kids(p), id);
                assert(cut.kids(p).contains(c) <==> self.kids(p).contains(c) && c != id);
                assert(self.kids(p).contains(c) <==> self.has(c) && self.nodes[c].parent_id
                    == Some(p));
            }
            assert forall|p: u128| #[trigger] after.children.contains_key(p) implies after.children[p].len()
                > 0 by {
                if parent != Some(p) {
                    assert(cut.children.contains_key(p));
                }
            }
        }
    }
}

impl Forest {
    /// No dangling reference: every identity listed among the roots or
    /// among the children of some parent is a node of the forest.
    pub proof fn lemma_listed_nodes_exist(self)
        requires
            self.wf(),
        ensures
            forall|i: int| 0 <= i < self.roots.len() ==> self.has(#[trigger] self.roots[i]),
            forall|p: u128, j: int|
                0 <= j < self.kids(p).len() ==> self.has(#[trigger] self.kids(p)[j]),
    {
        assert forall|i: int| 0 <= i < self.roots.len() implies self.has(
            #[trigger] self.roots[i],
        ) by {
            assert(self.roots.contains(self.roots[i]));
        }
        assert forall|p: u128, j: int| 0 <= j < self.kids(p).len() implies self.has(
            #[trigger] self.kids(p)[j],
        ) by {
            assert(self.kids(p).contains(self.kids(p)[j]));
        }
    }

    /// Recovering a node that is not failed changes nothing.
    pub proof fn lemma_recover_unfailed(self, id: u128)
        requires
            self.has(id) ==> self.nodes[id].status != NodeStatus::Failed,
        ensures
            self.after_recover(id) == self,
    {
    }

    /// Recover, fail, recover leaves the node active. What else has changed
    /// is what failing changes: the nodes below `id` are gone. For a node with
    /// nothing below it, nothing else has changed.
    pub proof fn lemma_recover_fail_recover(self, id: u128)
        requires
            self.wf(),
            self.has(id),
        ensures
            ({
                let last = self.after_recover(id).after_fail(id).after_recover(id);
                &&& last.wf()
                &&& last.nodes == self.after_fail(id).nodes.insert(
                    id,
                    FocusNode { status: NodeStatus::Active, ..self.nodes[id] },
                )
                &&& last.roots == self.roots
                &&& last.children == self.after_fail(id).children
                &&& self.descendants(id) == Set::<u128>::empty() ==> last == (Forest {
                    nodes: self.nodes.insert(
                        id,
                        FocusNode { status: NodeStatus::Active, ..self.nodes[id] },
                    ),
                    ..self
                })
            }),
    {
        let first = self.after_recover(id);
        let second = first.after_fail(id);
        let last = second.after_recover(id);
        self.lemma_recover_wf(id);
        first.lemma_fail_wf(id);
        second.lemma_recover_wf(id);
        assert(first.nodes.dom() =~= self.nodes.dom());
        assert forall|d: u128, a: u128, n: nat|
            first.climbs_to(d, a, n) == self.climbs_to(d, a, n) by {
            self.lemma_climbs_same_links(first, d, a, n);
        }
        assert(first.descendants(id) =~= self.descendants(id));
        assert(last.nodes =~= self.after_fail(id).nodes.insert(
            id,
            FocusNode { status: NodeStatus::Active, ..self.nodes[id] },
        ));
        if self.descendants(id) == Set::<u128>::empty() {
            assert(!self.children.contains_key(id)) by {
                if self.children.contains_key(id) {
                    let c = self.children[id][0];
                    assert(self.kids(id).contains(c));
                    self.lemma_child_is_descendant(c, id);
                    assert(self.descendants(id).contains(c));
                }
            }
            assert(last.children =~= self.children);
            assert(last.nodes =~= self.nodes.insert(
                id,
                FocusNode { status: NodeStatus::Active, ..self.nodes[id] },
            ));
        }
    }

    /// Chains of parent references are the same in two forests whose nodes
    /// have the same parents.
    pub proof fn lemma_climbs_same_links(self, other: Forest, d: u128, a: u128, n: nat)
        requires
            other.nodes.dom() == self.nodes.dom(),
            forall|x: u128| #[trigger]
                self.has(x) ==> other.nodes[x].parent_id == self.nodes[x].parent_id,
        ensures
            other.climbs_to(d, a, n) == self.climbs_to(d, a, n),
        decreases n,
    {
        assert(other.has(d) == self.has(d)) by {
            assert(other.nodes.dom().contains(d) == self.nodes.dom().contains(d));
        }
        if n > 0 && self.has(d) {
            match self.nodes[d].parent_id {
                Some(p) => {
                    self.lemma_climbs_same_links(other, p, a, (n - 1) as nat);
                },
                None => {},
            }
        }
    }
}

impl Forest {
    /// A chain of parent references that ends at `id` is the same chain
    /// after `id` has been moved: it never leaves `id` upwards.
    proof fn lemma_climb_to_moved(self, id: u128, parent: Option<u128>, d: u128, n: nat)
        requires
            self.acyclic(),
            self.has(id),
            self.link_ok(id, parent),
        ensures
            self.after_move(id, parent).climbs_to(d, id, n) == self.climbs_to(d, id, n),
        decreases n,
    {
        let after = self.after_move(id, parent);
        self.lemma_no_cycle(id, id);
        assert(after.has(d) == self.has(d));
        if n > 0 && self.has(d) {
            if d == id {
                assert(!self.climbs_to(id, id, n)) by {
                    if self.climbs_to(id, id, n) {
                        assert(self.is_descendant(id, id));
                    }
                }
                assert(after.nodes[id].parent_id == parent);
                assert(!after.climbs_to(id, id, n)) by {
                    if parent is Some {
                        let p = parent->0;
                        self.lemma_climb_to_moved(id, parent, p, (n - 1) as nat);
                        if self.climbs_to(p, id, (n - 1) as nat) {
                            assert(self.is_descendant(p, id));
                        }
                    }
                }
            } else {
                assert(after.nodes[d] == self.nodes[d]);
                match self.nodes[d].parent_id {
                    Some(p) => {
                        self.lemma_climb_to_moved(id, parent, p, (n - 1) as nat);
                    },
                    None => {},
                }
            }
        }
    }

    /// Moving a node takes along what lies below it: the node keeps its
    /// children in their order, so does every node below it, and the nodes
    /// below it are the same as before.
    pub proof fn lemma_move_keeps_subtree(self, id: u128, parent: Option<u128>)
        requires
            self.wf(),
            self.has(id),
            self.link_ok(id, parent),
        ensures
            self.after_move(id, parent).descendants(id) == self.descendants(id),
            self.after_move(id, parent).kids(id) == self.kids(id),
            forall|d: u128| #[trigger]
                self.is_descendant(d, id) ==> self.after_move(id, parent).kids(d) == self.kids(d)
                    && self.after_move(id, parent).nodes[d] == self.nodes[d],
    {
        let after = self.after_move(id, parent);
        self.lemma_unlinked(id);
        self.lemma_no_cycle(id, id);
        assert forall|d: u128| after.descendants(id).contains(d) == self.descendants(id).contains(
            d,
        ) by {
            if after.is_descendant(d, id) {
                let n = choose|n: nat| after.climbs_to(d, id, n);
                self.lemma_climb_to_moved(id, parent, d, n);
            }
            if self.is_descendant(d, id) {
                let n = choose|n: nat| self.climbs_to(d, id, n);
                self.lemma_climb_to_moved(id, parent, d, n);
            }
        }
        assert(after.descendants(id) =~= self.descendants(id));
        assert forall|y: u128| y == id || self.is_descendant(y, id) implies #[trigger] after.kids(
            y,
        ) == self.kids(y) by {
            assert(self.unlinked(id).kids(y) == without(self.kids(y), id));
            assert(!self.kids(y).contains(id)) by {
                if self.kids(y).contains(id) {
                    self.lemma_parent_outside(id);
                }
            }
            assert(parent != Some(y));
        }
    }
}

} // verus!
