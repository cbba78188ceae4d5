//! What loading makes of stored records: the lists of roots and children
//! follow the order of the records, so a tree stored in display order is
//! displayed after loading as it was before.

use vstd::prelude::*;
use crate::data::{lists_nodes_of, loaded};
use crate::descent::among_or_below;
use crate::forest::Forest;
use crate::seqs::lemma_push;
use crate::node::FocusNode;

verus! {

/// Records that list every node of a forest once are as many as its nodes.
pub proof fn lemma_listing_is_complete(records: Seq<FocusNode>, f: Forest)
    requires
        f.wf(),
        lists_nodes_of(records, f),
        forall|id: u128|
            f.has(id) ==> exists|i: int| 0 <= i < records.len() && (#[trigger] records[i]).id == id,
    ensures
        records.len() == f.nodes.len(),
{
    let ids = records.map_values(|n: FocusNode| n.id);
    assert(ids.no_duplicates()) by {
        assert forall|i: int, j: int| 0 <= i < ids.len() && 0 <= j < ids.len() && i
            != j implies ids[i] != ids[j] by {
            if i < j {
                assert(records[i].id != records[j].id);
            } else {
                assert(records[j].id != records[i].id);
            }
        }
    }
    assert forall|id: u128| ids.to_set().contains(id) == f.nodes.dom().contains(id) by {
        if ids.to_set().contains(id) {
            let i = choose|i: int| 0 <= i < ids.len() && ids[i] == id;
            assert(f.has(records[i].id));
        }
        if f.has(id) {
            let i = choose|i: int| 0 <= i < records.len() && (#[trigger] records[i]).id == id;
            assert(ids[i] == id);
        }
    }
    assert(ids.to_set() =~= f.nodes.dom());
    ids.unique_seq_to_set();
}

/// A chain of parent references in a forest is a chain in every forest that
/// holds the same nodes with the same parents, and maybe more.
pub proof fn lemma_climbs_in_larger(g: Forest, f: Forest, d: u128, a: u128, n: nat)
    requires
        forall|x: u128| #[trigger]
            g.has(x) ==> f.has(x) && f.nodes[x].parent_id == g.nodes[x].parent_id,
        g.climbs_to(d, a, n),
    ensures
        f.climbs_to(d, a, n),
    decreases n,
{
    let p = g.nodes[d].parent_id->0;
    if p != a {
        lemma_climbs_in_larger(g, f, p, a, (n - 1) as nat);
    }
}

/// Whether `g` holds exactly the nodes that `records` list, each as
/// listed.
pub open spec fn holds_listed(g: Forest, records: Seq<FocusNode>) -> bool {
    &&& forall|i: int|
        0 <= i < records.len() ==> g.has((#[trigger] records[i]).id) && g.nodes[records[i].id]
            == records[i]
    &&& forall|x: u128| #[trigger]
        g.has(x) ==> exists|i: int| 0 <= i < records.len() && (#[trigger] records[i]).id == x
}

/// Records that list nodes of a tree load, in any order, into a tree of
/// exactly these nodes.
pub proof fn lemma_listed_nodes_load(records: Seq<FocusNode>, f: Forest)
    requires
        f.wf(),
        lists_nodes_of(records, f),
    ensures
        loaded(records) is Some,
        loaded(records)->0.wf(),
        holds_listed(loaded(records)->0, records),
    decreases records.len(),
{
    if records.len() == 0 {
        let g = Forest::empty();
        assert(g.ranked_by(|id: u128| 0nat));
        assert(g.wf());
    } else {
        let front = records.drop_last();
        let node = records.last();
        assert(node == records[records.len() - 1]);
        assert forall|i: int| 0 <= i < front.len() implies front[i] == records[i] by {}
        assert(lists_nodes_of(front, f));
        lemma_listed_nodes_load(front, f);
        let g = loaded(front)->0;
        assert(!g.has(node.id)) by {
            if g.has(node.id) {
                let i = choose|i: int| 0 <= i < front.len() && (#[trigger] front[i]).id == node.id;
                assert(records[i].id != records[records.len() - 1].id);
            }
        }
        assert forall|x: u128| #[trigger] g.has(x) implies f.has(x) && f.nodes[x].parent_id
            == g.nodes[x].parent_id by {
            let i = choose|i: int| 0 <= i < front.len() && (#[trigger] front[i]).id == x;
            assert(g.nodes[front[i].id] == front[i]);
            assert(records[i] == f.nodes[records[i].id]);
        }
        assert(g.link_ok(node.id, node.parent_id)) by {
            if node.parent_id is Some {
                let p = node.parent_id->0;
                f.lemma_parent_outside(node.id);
                if g.is_descendant(p, node.id) {
                    let n = choose|n: nat| g.climbs_to(p, node.id, n);
                    lemma_climbs_in_larger(g, f, p, node.id, n);
                }
            }
        }
        g.lemma_insert_wf(node);
        let after = g.after_insert(node);
        assert(loaded(records) == Some(after));
        assert forall|i: int| 0 <= i < records.len() implies after.has((#[trigger] records[i]).id)
            && after.nodes[records[i].id] == records[i] by {
            if i < front.len() {
                assert(front[i] == records[i]);
                assert(g.has(front[i].id));
            }
        }
        assert forall|x: u128| #[trigger] after.has(x) implies exists|i: int|
            0 <= i < records.len() && (#[trigger] records[i]).id == x by {
            if x != node.id {
                assert(g.has(x));
                let i = choose|i: int| 0 <= i < front.len() && (#[trigger] front[i]).id == x;
                assert(records[i].id == x);
            } else {
                assert(records[records.len() - 1].id == x);
            }
        }
    }
}

/// What has been stored loads again: records that list every node of a tree
/// once load into a tree with the same nodes, each with the same fields and
/// so the same parent. Roots and children keep their order where the records
/// keep it.
pub proof fn lemma_stored_tree_loads(records: Seq<FocusNode>, f: Forest)
    requires
        f.wf(),
        lists_nodes_of(records, f),
        forall|id: u128|
            f.has(id) ==> exists|i: int| 0 <= i < records.len() && (#[trigger] records[i]).id == id,
    ensures
        loaded(records) matches Some(g) && g.wf() && g.nodes == f.nodes,
{
    lemma_listed_nodes_load(records, f);
    let g = loaded(records)->0;
    assert forall|x: u128| g.has(x) == f.has(x) && (g.has(x) ==> g.nodes[x] == f.nodes[x]) by {
        if g.has(x) {
            let i = choose|i: int| 0 <= i < records.len() && (#[trigger] records[i]).id == x;
            assert(f.has(records[i].id));
            assert(g.nodes[records[i].id] == records[i]);
            assert(records[i] == f.nodes[records[i].id]);
        }
        if f.has(x) {
            let i = choose|i: int| 0 <= i < records.len() && (#[trigger] records[i]).id == x;
            assert(g.has(records[i].id));
        }
    }
    assert forall|x: u128| g.nodes.dom().contains(x) == f.nodes.dom().contains(x) by {
        assert(g.has(x) == f.has(x));
    }
    assert forall|x: u128| g.nodes.dom().contains(x) implies g.nodes[x] == f.nodes[x] by {
        assert(g.has(x));
    }
    assert(g.nodes =~= f.nodes);
}

/// The identities of the records whose parent is `of`, in the order of the
/// records.
pub open spec fn listed_under(records: Seq<FocusNode>, of: Option<u128>) -> Seq<u128>
    decreases records.len(),
{
    if records.len() == 0 {
        Seq::empty()
    } else if records.last().parent_id == of {
        listed_under(records.drop_last(), of).push(records.last().id)
    } else {
        listed_under(records.drop_last(), of)
    }
}

/// The identities of the rows whose node in `f` has the parent `of`, in the
/// order of the rows.
pub open spec fn picked(f: Forest, rows: Seq<(nat, u128)>, of: Option<u128>) -> Seq<u128>
    decreases rows.len(),
{
    if rows.len() == 0 {
        Seq::empty()
    } else if f.nodes[rows.last().1].parent_id == of {
        picked(f, rows.drop_last(), of).push(rows.last().1)
    } else {
        picked(f, rows.drop_last(), of)
    }
}

/// The roots and children of a loaded forest are listed in the order of the
/// records.
pub proof fn lemma_loaded_lists(records: Seq<FocusNode>)
    requires
        loaded(records) is Some,
    ensures
        loaded(records)->0.roots == listed_under(records, None),
        forall|p: u128| #[trigger]
            loaded(records)->0.kids(p) == listed_under(records, Some(p)),
    decreases records.len(),
{
    if records.len() > 0 {
        let front = records.drop_last();
        let node = records.last();
        lemma_loaded_lists(front);
        let g = loaded(front)->0;
        let after = g.after_insert(node);
        assert forall|p: u128| #[trigger] after.kids(p) == listed_under(records, Some(p)) by {
            assert(g.kids(p) == listed_under(front, Some(p)));
        }
    } else {
        assert forall|p: u128| #[trigger]
            Forest::empty().kids(p) == listed_under(records, Some(p)) by {}
    }
}

/// Listing the records of two runs one after the other lists each run.
pub proof fn lemma_listed_under_concat(a: Seq<FocusNode>, b: Seq<FocusNode>, of: Option<u128>)
    ensures
        listed_under(a + b, of) == listed_under(a, of) + listed_under(b, of),
    decreases b.len(),
{
    if b.len() == 0 {
        assert(a + b =~= a);
        assert(listed_under(a, of) + listed_under(b, of) =~= listed_under(a, of));
    } else {
        assert((a + b).drop_last() =~= a + b.drop_last());
        assert((a + b).last() == b.last());
        lemma_listed_under_concat(a, b.drop_last(), of);
        if b.last().parent_id == of {
            assert(listed_under(a, of) + listed_under(b.drop_last(), of).push(b.last().id)
                =~= (listed_under(a, of) + listed_under(b.drop_last(), of)).push(b.last().id));
        }
    }
}

/// Picking from the rows of two runs one after the other picks from each
/// run.
pub proof fn lemma_picked_concat(
    f: Forest,
    a: Seq<(nat, u128)>,
    b: Seq<(nat, u128)>,
    of: Option<u128>,
)
    ensures
        picked(f, a + b, of) == picked(f, a, of) + picked(f, b, of),
    decreases b.len(),
{
    if b.len() == 0 {
        assert(a + b =~= a);
        assert(picked(f, a, of) + picked(f, b, of) =~= picked(f, a, of));
    } else {
        assert((a + b).drop_last() =~= a + b.drop_last());
        assert((a + b).last() == b.last());
        lemma_picked_concat(f, a, b.drop_last(), of);
        if f.nodes[b.last().1].parent_id == of {
            assert(picked(f, a, of) + picked(f, b.drop_last(), of).push(b.last().1) =~= (picked(
                f,
                a,
                of,
            ) + picked(f, b.drop_last(), of)).push(b.last().1));
        }
    }
}

/// Records that show the nodes of some rows list what the rows pick.
pub proof fn lemma_listed_is_picked(
    f: Forest,
    records: Seq<FocusNode>,
    rows: Seq<(nat, u128)>,
    of: Option<u128>,
)
    requires
        records.len() == rows.len(),
        forall|i: int|
            0 <= i < rows.len() ==> (#[trigger] records[i]).id == rows[i].1 && records[i]
                == f.nodes[rows[i].1],
    ensures
        listed_under(records, of) == picked(f, rows, of),
    decreases rows.len(),
{
    if rows.len() > 0 {
        let n = rows.len() - 1;
        assert(records.last() == records[n]);
        assert(rows.last() == rows[n]);
        assert forall|i: int| 0 <= i < n implies (#[trigger] records.drop_last()[i]).id
            == rows.drop_last()[i].1 && records.drop_last()[i] == f.nodes[rows.drop_last()[i].1] by {
            assert(records.drop_last()[i] == records[i]);
            assert(rows.drop_last()[i] == rows[i]);
        }
        lemma_listed_is_picked(f, records.drop_last(), rows.drop_last(), of);
    }
}

/// Every identity picked is the identity of a row.
pub proof fn lemma_picked_are_rows(f: Forest, rows: Seq<(nat, u128)>, of: Option<u128>, x: u128)
    requires
        picked(f, rows, of).contains(x),
    ensures
        exists|i: int| 0 <= i < rows.len() && (#[trigger] rows[i]).1 == x,
    decreases rows.len(),
{
    if rows.len() > 0 {
        let n = rows.len() - 1;
        let front = picked(f, rows.drop_last(), of);
        if f.nodes[rows.last().1].parent_id == of {
            lemma_push(front, rows.last().1);
        }
        if front.contains(x) {
            lemma_picked_are_rows(f, rows.drop_last(), of, x);
            let i = choose|i: int|
                0 <= i < rows.drop_last().len() && (#[trigger] rows.drop_last()[i]).1 == x;
            assert(rows[i] == rows.drop_last()[i]);
        } else {
            assert(rows[n].1 == x);
        }
    }
}

impl Forest {
    /// What the rows of a subtree pick for a parent: the top node when it
    /// has that parent; all children of the parent, in order, when the parent
    /// is the top node or lies below it; else nothing.
    pub proof fn lemma_picked_subtree(
        self,
        r: u128,
        depth: nat,
        fuel: nat,
        above: Set<u128>,
        of: Option<u128>,
    )
        requires
            self.wf(),
            self.has(r),
            self.fuel_suffices(fuel, above),
            forall|a: u128| above.contains(a) ==> self.is_descendant(r, a),
        ensures
            picked(self, self.subtree_rows(r, depth, fuel), of) == if self.nodes[r].parent_id
                == of {
                seq![r]
            } else if of is Some && (of->0 == r || self.is_descendant(of->0, r)) {
                self.kids(of->0)
            } else {
                Seq::empty()
            },
        decreases fuel, 0nat,
    {
        let inner = above.insert(r);
        self.lemma_no_cycle(r, r);
        assert(!above.contains(r));
        assert(inner.subset_of(self.nodes.dom()));
        vstd::set_lib::lemma_len_subset(inner, self.nodes.dom());
        assert(fuel >= 1);
        let kids = self.kids(r);
        let top = seq![(depth, r)];
        let below = self.forest_rows(kids, depth + 1, (fuel - 1) as nat);
        assert(self.subtree_rows(r, depth, fuel) == top + below);
        assert(kids.no_duplicates());
        assert forall|j: int| 0 <= j < kids.len() implies self.has(#[trigger] kids[j])
            && self.nodes[kids[j]].parent_id == Some(r) && (forall|a: u128|
            inner.contains(a) ==> self.is_descendant(kids[j], a)) by {
            let c = kids[j];
            assert(self.kids(r).contains(c));
            assert forall|a: u128| inner.contains(a) implies self.is_descendant(c, a) by {
                self.lemma_child_is_descendant(c, a);
            }
        }
        self.lemma_picked_forest(kids, Some(r), depth + 1, (fuel - 1) as nat, inner, of);
        lemma_picked_concat(self, top, below, of);
        assert(top.drop_last() =~= Seq::<(nat, u128)>::empty());
        assert(top.last() == (depth, r));
        assert(picked(self, top.drop_last(), of) == Seq::<u128>::empty());
        assert(Seq::<u128>::empty().push(r) =~= seq![r]);
        assert(picked(self, top, of) =~= if self.nodes[r].parent_id == of {
            seq![r]
        } else {
            Seq::<u128>::empty()
        });
        if of is Some {
            let p = of->0;
            if among_or_below(self, kids, p) {
                let j = choose|j: int|
                    0 <= j < kids.len() && (p == #[trigger] kids[j] || self.is_descendant(
                        p,
                        kids[j],
                    ));
                if p == kids[j] {
                    self.lemma_child_is_descendant(p, r);
                } else {
                    self.lemma_descendant_of_child(p, kids[j], r);
                }
                assert(self.is_descendant(p, r));
            }
            if self.is_descendant(p, r) {
                let n = choose|n: nat| self.climbs_to(p, r, n);
                self.lemma_descendant_via_child(p, r, n);
            }
            if self.nodes[r].parent_id == of {
                self.lemma_parent_outside(r);
            }
        }
        assert(picked(self, self.subtree_rows(r, depth, fuel), of) =~= if self.nodes[r].parent_id
            == of {
            seq![r]
        } else if of is Some && (of->0 == r || self.is_descendant(of->0, r)) {
            self.kids(of->0)
        } else {
            Seq::empty()
        });
    }

    /// What the rows of the subtrees of nodes with the parent `common`, or
    /// all roots, pick for a parent: the nodes themselves when it is their
    /// parent; all children of the parent, in order, when the parent is one of
    /// the nodes or lies below one; else nothing.
    pub proof fn lemma_picked_forest(
        self,
        ids: Seq<u128>,
        common: Option<u128>,
        depth: nat,
        fuel: nat,
        above: Set<u128>,
        of: Option<u128>,
    )
        requires
            self.wf(),
            self.fuel_suffices(fuel, above),
            ids.no_duplicates(),
            forall|j: int|
                0 <= j < ids.len() ==> self.has(#[trigger] ids[j]) && self.nodes[ids[j]].parent_id
                    == common && (forall|a: u128|
                    above.contains(a) ==> self.is_descendant(ids[j], a)),
        ensures
            picked(self, self.forest_rows(ids, depth, fuel), of) == if of == common {
                ids
            } else if of is Some && among_or_below(self, ids, of->0) {
                self.kids(of->0)
            } else {
                Seq::empty()
            },
        decreases fuel, 1 + ids.len(),
    {
        if ids.len() == 0 {
            assert(ids =~= Seq::<u128>::empty());
        } else {
            let front = ids.drop_last();
            let last = ids.last();
            let n = ids.len() - 1;
            assert(last == ids[n]);
            assert forall|j: int| 0 <= j < front.len() implies self.has(#[trigger] front[j])
                && self.nodes[front[j]].parent_id == common && front[j] != last && (
            forall|a: u128| above.contains(a) ==> self.is_descendant(front[j], a)) by {
                assert(front[j] == ids[j]);
            }
            assert(front.no_duplicates());
            let head = self.forest_rows(front, depth, fuel);
            let tail = self.subtree_rows(last, depth, fuel);
            self.lemma_picked_forest(front, common, depth, fuel, above, of);
            self.lemma_picked_subtree(last, depth, fuel, above, of);
            lemma_picked_concat(self, head, tail, of);
            if of == common {
                assert(front + seq![last] =~= ids);
            } else if of is Some {
                let p = of->0;
                let under_last = p == last || self.is_descendant(p, last);
                if among_or_below(self, front, p) {
                    let j = choose|j: int|
                        0 <= j < front.len() && (p == #[trigger] front[j] || self.is_descendant(
                            p,
                            front[j],
                        ));
                    self.lemma_siblings_apart(front[j], last, p);
                    assert(!under_last);
                    assert(p == ids[j] || self.is_descendant(p, ids[j]));
                    assert(among_or_below(self, ids, p));
                    assert(self.kids(p) + Seq::<u128>::empty() =~= self.kids(p));
                } else if under_last {
                    assert(p == ids[n] || self.is_descendant(p, ids[n]));
                    assert(among_or_below(self, ids, p));
                    assert(Seq::<u128>::empty() + self.kids(p) =~= self.kids(p));
                } else {
                    if among_or_below(self, ids, p) {
                        let j = choose|j: int|
                            0 <= j < ids.len() && (p == #[trigger] ids[j] || self.is_descendant(
                                p,
                                ids[j],
                            ));
                        if j < n {
                            assert(p == front[j] || self.is_descendant(p, front[j]));
                        }
                    }
                    assert(Seq::<u128>::empty() + Seq::<u128>::empty() =~= Seq::<u128>::empty());
                }
            } else {
                assert(Seq::<u128>::empty() + Seq::<u128>::empty() =~= Seq::<u128>::empty());
            }
        }
    }

    /// Two forests with the same nodes show the same rows for a subtree if
    /// they list the same children for every node that the rows show.
    pub proof fn lemma_subtree_rows_agree(self, other: Forest, r: u128, depth: nat, fuel: nat)
        requires
            other.nodes.dom() == self.nodes.dom(),
            forall|i: int|
                0 <= i < self.subtree_rows(r, depth, fuel).len() ==> other.kids(
                    (#[trigger] self.subtree_rows(r, depth, fuel)[i]).1,
                ) == self.kids(self.subtree_rows(r, depth, fuel)[i].1),
        ensures
            other.subtree_rows(r, depth, fuel) == self.subtree_rows(r, depth, fuel),
        decreases fuel, 0nat,
    {
        assert(other.has(r) == self.has(r)) by {
            assert(other.nodes.dom().contains(r) == self.nodes.dom().contains(r));
        }
        if fuel > 0 && self.has(r) {
            let rows = self.subtree_rows(r, depth, fuel);
            let kids = self.kids(r);
            let below = self.forest_rows(kids, depth + 1, (fuel - 1) as nat);
            assert(rows == seq![(depth, r)] + below);
            assert(rows[0].1 == r);
            assert(other.kids(r) == kids);
            assert forall|i: int| 0 <= i < below.len() implies other.kids((#[trigger] below[i]).1)
                == self.kids(below[i].1) by {
                assert(rows[i + 1] == below[i]);
            }
            self.lemma_forest_rows_agree(other, kids, depth + 1, (fuel - 1) as nat);
        }
    }

    /// Two forests with the same nodes show the same rows for several
    /// subtrees if they list the same children for every node that the rows
    /// show.
    pub proof fn lemma_forest_rows_agree(self, other: Forest, ids: Seq<u128>, depth: nat, fuel: nat)
        requires
            other.nodes.dom() == self.nodes.dom(),
            forall|i: int|
                0 <= i < self.forest_rows(ids, depth, fuel).len() ==> other.kids(
                    (#[trigger] self.forest_rows(ids, depth, fuel)[i]).1,
                ) == self.kids(self.forest_rows(ids, depth, fuel)[i].1),
        ensures
            other.forest_rows(ids, depth, fuel) == self.forest_rows(ids, depth, fuel),
        decreases fuel, 1 + ids.len(),
    {
        if ids.len() > 0 {
            let rows = self.forest_rows(ids, depth, fuel);
            let head = self.forest_rows(ids.drop_last(), depth, fuel);
            let tail = self.subtree_rows(ids.last(), depth, fuel);
            assert forall|i: int| 0 <= i < head.len() implies other.kids((#[trigger] head[i]).1)
                == self.kids(head[i].1) by {
                assert(rows[i] == head[i]);
            }
            assert forall|i: int| 0 <= i < tail.len() implies other.kids((#[trigger] tail[i]).1)
                == self.kids(tail[i].1) by {
                assert(rows[head.len() + i] == tail[i]);
            }
            self.lemma_forest_rows_agree(other, ids.drop_last(), depth, fuel);
            self.lemma_subtree_rows_agree(other, ids.last(), depth, fuel);
        }
    }
}

/// Records of which none has the parent `of` list nothing under it.
pub proof fn lemma_listed_under_none(records: Seq<FocusNode>, of: Option<u128>)
    requires
        forall|i: int| 0 <= i < records.len() ==> (#[trigger] records[i]).parent_id != of,
    ensures
        listed_under(records, of) == Seq::<u128>::empty(),
    decreases records.len(),
{
    if records.len() > 0 {
        assert(records.last() == records[records.len() - 1]);
        assert forall|i: int| 0 <= i < records.drop_last().len() implies (
        #[trigger] records.drop_last()[i]).parent_id != of by {
            assert(records.drop_last()[i] == records[i]);
        }
        lemma_listed_under_none(records.drop_last(), of);
    }
}

/// A tree stored in display order is displayed after loading as it was
/// before. Records that list every node of a tree once, the displayed nodes
/// first and in display order, load into a tree with the same nodes and the
/// same roots, with the same children under every displayed node, and so
/// with the same display order.
pub proof fn lemma_stored_in_display_order_loads(records: Seq<FocusNode>, f: Forest)
    requires
        f.wf(),
        lists_nodes_of(records, f),
        forall|id: u128|
            f.has(id) ==> exists|i: int| 0 <= i < records.len() && (#[trigger] records[i]).id == id,
        f.display_rows().len() <= records.len(),
        forall|i: int|
            0 <= i < f.display_rows().len() ==> (#[trigger] records[i]).id == f.display_rows()[i].1,
    ensures
        loaded(records) matches Some(g) && g.wf() && g.nodes == f.nodes && g.roots == f.roots
            && g.display_rows() == f.display_rows() && (forall|i: int|
            0 <= i < f.display_rows().len() ==> g.kids((#[trigger] f.display_rows()[i]).1)
                == f.kids(f.display_rows()[i].1)),
{
    lemma_stored_tree_loads(records, f);
    lemma_loaded_lists(records);
    let g = loaded(records)->0;
    let shown = f.display_rows();
    let n = shown.len() as int;
    let first = records.take(n);
    let rest = records.skip(n);
    let none = Set::<u128>::empty();
    assert(records =~= first + rest);
    assert forall|i: int| 0 <= i < shown.len() implies (#[trigger] first[i]).id == shown[i].1
        && first[i] == f.nodes[shown[i].1] by {
        assert(first[i] == records[i]);
    }
    assert forall|j: int| 0 <= j < f.roots.len() implies f.has(#[trigger] f.roots[j])
        && f.nodes[f.roots[j]].parent_id == None::<u128> && (forall|a: u128|
        none.contains(a) ==> f.is_descendant(f.roots[j], a)) by {
        assert(f.roots.contains(f.roots[j]));
    }
    f.lemma_forest_rows_within(f.roots, 0, f.nodes.len());
    // what the displayed rows pick under a parent is listed nowhere else
    assert forall|of: Option<u128>|
        (of is None || exists|i: int| 0 <= i < shown.len() && (#[trigger] shown[i]).1
            == of->0) implies #[trigger] listed_under(records, of) == picked(f, shown, of)
        && picked(f, shown, of) == (if of is None {
        f.roots
    } else {
        f.kids(of->0)
    }) by {
        f.lemma_picked_forest(f.roots, None, 0, f.nodes.len(), none, of);
        let wanted = if of is None {
            f.roots
        } else {
            f.kids(of->0)
        };
        if of is Some {
            let i = choose|i: int| 0 <= i < shown.len() && (#[trigger] shown[i]).1 == of->0;
            let j = choose|j: int|
                0 <= j < f.roots.len() && (shown[i].1 == f.roots[j] || f.is_descendant(
                    shown[i].1,
                    f.roots[j],
                ));
            assert(of->0 == f.roots[j] || f.is_descendant(of->0, f.roots[j]));
            assert(among_or_below(f, f.roots, of->0));
        }
        assert(picked(f, shown, of) == wanted);
        lemma_listed_is_picked(f, first, shown, of);
        lemma_listed_under_concat(first, rest, of);
        assert forall|k: int| 0 <= k < rest.len() implies (#[trigger] rest[k]).parent_id != of by {
            if rest[k].parent_id == of {
                let y = rest[k];
                assert(y == records[n + k]);
                assert(f.has(y.id) && y == f.nodes[y.id]);
                if of is None {
                    assert(f.roots.contains(y.id));
                } else {
                    assert(f.kids(of->0).contains(y.id));
                }
                lemma_picked_are_rows(f, shown, of, y.id);
                let i = choose|i: int| 0 <= i < shown.len() && (#[trigger] shown[i]).1 == y.id;
                assert(records[i].id != records[n + k].id);
            }
        }
        lemma_listed_under_none(rest, of);
        assert(listed_under(first, of) + Seq::<u128>::empty() =~= listed_under(first, of));
    }
    assert(listed_under(records, None) == f.roots);
    assert(g.roots == f.roots);
    assert forall|i: int| 0 <= i < shown.len() implies g.kids((#[trigger] shown[i]).1) == f.kids(
        shown[i].1,
    ) by {
        let of = Some(shown[i].1);
        assert(listed_under(records, of) == picked(f, shown, of));
        assert(g.kids(shown[i].1) == listed_under(records, of));
    }
    f.lemma_forest_rows_agree(g, f.roots, 0, f.nodes.len());
}

} // verus!
