//! The display order: what it depends on, that it shows every node at most
//! once, and where an inserted node appears in it.

use vstd::prelude::*;
use crate::forest::Forest;
use crate::node::FocusNode;

verus! {

impl Forest {
    /// The rows of a subtree depend only on which nodes exist and on the
    /// child lists.
    pub proof fn lemma_subtree_rows_same_links(self, other: Forest, id: u128, depth: nat, fuel: nat)
        requires
            other.nodes.dom() == self.nodes.dom(),
            other.children == self.children,
        ensures
            self.subtree_rows(id, depth, fuel) == other.subtree_rows(id, depth, fuel),
        decreases fuel, 0nat,
    {
        assert(other.has(id) == self.has(id)) by {
            assert(other.nodes.dom().contains(id) == self.nodes.dom().contains(id));
        }
        if fuel > 0 && self.has(id) {
            self.lemma_forest_rows_same_links(other, self.kids(id), depth + 1, (fuel - 1) as nat);
        }
    }

    /// The rows of several subtrees depend only on which nodes exist and on
    /// the child lists.
    pub proof fn lemma_forest_rows_same_links(
        self,
        other: Forest,
        ids: Seq<u128>,
        depth: nat,
        fuel: nat,
    )
        requires
            other.nodes.dom() == self.nodes.dom(),
            other.children == self.children,
        ensures
            self.forest_rows(ids, depth, fuel) == other.forest_rows(ids, depth, fuel),
        decreases fuel, 1 + ids.len(),
    {
        if ids.len() > 0 {
            self.lemma_forest_rows_same_links(other, ids.drop_last(), depth, fuel);
            self.lemma_subtree_rows_same_links(other, ids.last(), depth, fuel);
        }
    }

    /// A change to fields other than identity and parent leaves the display
    /// order as it was.
    pub proof fn lemma_display_rows_same_links(self, other: Forest)
        requires
            other.nodes.dom() == self.nodes.dom(),
            other.children == self.children,
            other.roots == self.roots,
        ensures
            self.display_rows() == other.display_rows(),
    {
        self.lemma_forest_rows_same_links(other, self.roots, 0, self.nodes.len());
    }

    /// Every row of a subtree shows a node of the forest.
    pub proof fn lemma_subtree_rows_are_nodes(self, id: u128, depth: nat, fuel: nat)
        ensures
            forall|i: int|
                0 <= i < self.subtree_rows(id, depth, fuel).len() ==> self.has(
                    (#[trigger] self.subtree_rows(id, depth, fuel)[i]).1,
                ),
        decreases fuel, 0nat,
    {
        if fuel > 0 && self.has(id) {
            let below = self.forest_rows(self.kids(id), depth + 1, (fuel - 1) as nat);
            let rows = self.subtree_rows(id, depth, fuel);
            self.lemma_forest_rows_are_nodes(self.kids(id), depth + 1, (fuel - 1) as nat);
            assert forall|i: int| 0 <= i < rows.len() implies self.has((#[trigger] rows[i]).1) by {
                if i > 0 {
                    assert(rows[i] == below[i - 1]);
                }
            }
        }
    }

    /// Every row of several subtrees shows a node of the forest.
    pub proof fn lemma_forest_rows_are_nodes(self, ids: Seq<u128>, depth: nat, fuel: nat)
        ensures
            forall|i: int|
                0 <= i < self.forest_rows(ids, depth, fuel).len() ==> self.has(
                    (#[trigger] self.forest_rows(ids, depth, fuel)[i]).1,
                ),
        decreases fuel, 1 + ids.len(),
    {
        if ids.len() > 0 {
            let front = self.forest_rows(ids.drop_last(), depth, fuel);
            let back = self.subtree_rows(ids.last(), depth, fuel);
            let rows = self.forest_rows(ids, depth, fuel);
            self.lemma_forest_rows_are_nodes(ids.drop_last(), depth, fuel);
            self.lemma_subtree_rows_are_nodes(ids.last(), depth, fuel);
            assert forall|i: int| 0 <= i < rows.len() implies self.has((#[trigger] rows[i]).1) by {
                if i < front.len() {
                    assert(rows[i] == front[i]);
                } else {
                    assert(rows[i] == back[i - front.len()]);
                }
            }
        }
    }

    /// Every row of the display shows a node of the forest.
    pub proof fn lemma_display_rows_are_nodes(self)
        ensures
            forall|i: int|
                0 <= i < self.display_rows().len() ==> self.has(
                    (#[trigger] self.display_rows()[i]).1,
                ),
    {
        self.lemma_forest_rows_are_nodes(self.roots, 0, self.nodes.len());
    }
}

impl Forest {
    /// Whether `fuel` levels suffice to list the subtrees of nodes that lie
    /// below every node of `above`.
    pub open spec fn fuel_suffices(self, fuel: nat, above: Set<u128>) -> bool {
        &&& above.finite()
        &&& above.subset_of(self.nodes.dom())
        &&& fuel + above.len() >= self.nodes.len()
    }

    /// Whether `new` is `old` with the rows of the inserted `node` put right
    /// after the rows of its parent and of the nodes that were below the
    /// parent; `new` is `old` when the parent is not shown. `total` is the
    /// depth of a row plus the levels that remain below it.
    pub open spec fn shows_inserted(
        self,
        node: FocusNode,
        total: nat,
        old: Seq<(nat, u128)>,
        new: Seq<(nat, u128)>,
    ) -> bool {
        let parent = node.parent_id->0;
        &&& (forall|k: int| 0 <= k < old.len() ==> (#[trigger] old[k]).1 != parent) ==> new == old
        &&& forall|k: int|
            0 <= k < old.len() && (#[trigger] old[k]).1 == parent ==> {
                let depth = old[k].0;
                let end = k + self.subtree_rows(parent, depth, (total - depth) as nat).len();
                &&& end <= old.len()
                &&& new == old.take(end) + self.after_insert(node).subtree_rows(
                    node.id,
                    depth + 1,
                    (total - depth) as nat,
                ) + old.skip(end)
            }
    }

    /// What inserting `node` under a parent leaves of a subtree that does
    /// not hold the parent: all of it, and the parent is not among its rows.
    pub proof fn lemma_subtree_rows_unaffected(
        self,
        node: FocusNode,
        r: u128,
        depth: nat,
        fuel: nat,
        above: Set<u128>,
    )
        requires
            self.wf(),
            self.can_insert(node),
            self.has(r),
            self.fuel_suffices(fuel, above),
            forall|a: u128| above.contains(a) ==> self.is_descendant(r, a),
            node.parent_id matches Some(x) ==> r != x && !self.is_descendant(x, r),
        ensures
            self.after_insert(node).subtree_rows(r, depth, fuel + 1) == self.subtree_rows(
                r,
                depth,
                fuel,
            ),
            forall|i: int|
                0 <= i < self.subtree_rows(r, depth, fuel).len() ==> Some(
                    (#[trigger] self.subtree_rows(r, depth, fuel)[i]).1,
                ) != node.parent_id,
        decreases fuel, 0nat,
    {
        let g = self.after_insert(node);
        let inner = above.insert(r);
        self.lemma_no_cycle(r, r);
        assert(!above.contains(r));
        assert(inner.subset_of(self.nodes.dom()));
        vstd::set_lib::lemma_len_subset(inner, self.nodes.dom());
        assert(fuel >= 1);
        assert(g.has(r));
        assert(g.kids(r) == self.kids(r));
        let kids = self.kids(r);
        assert forall|j: int| 0 <= j < kids.len() implies self.has(#[trigger] kids[j]) && (
        forall|a: u128| inner.contains(a) ==> self.is_descendant(kids[j], a)) && (
        node.parent_id matches Some(x) ==> kids[j] != x && !self.is_descendant(x, kids[j])) by {
            let c = kids[j];
            assert(self.kids(r).contains(c));
            assert forall|a: u128| inner.contains(a) implies self.is_descendant(c, a) by {
                self.lemma_child_is_descendant(c, a);
            }
            if node.parent_id is Some {
                let x = node.parent_id->0;
                if c == x {
                    self.lemma_child_is_descendant(x, r);
                }
                if self.is_descendant(x, c) {
                    self.lemma_descendant_of_child(x, c, r);
                }
            }
        }
        self.lemma_forest_rows_unaffected(node, kids, depth + 1, (fuel - 1) as nat, inner);
        let below = self.forest_rows(kids, depth + 1, (fuel - 1) as nat);
        let rows = self.subtree_rows(r, depth, fuel);
        assert(rows == seq![(depth, r)] + below);
        assert forall|i: int| 0 <= i < rows.len() implies Some((#[trigger] rows[i]).1)
            != node.parent_id by {
            if i > 0 {
                assert(rows[i] == below[i - 1]);
            }
        }
    }

    /// What inserting `node` under a parent leaves of several subtrees that
    /// do not hold the parent: all of them.
    pub proof fn lemma_forest_rows_unaffected(
        self,
        node: FocusNode,
        ids: Seq<u128>,
        depth: nat,
        fuel: nat,
        above: Set<u128>,
    )
        requires
            self.wf(),
            self.can_insert(node),
            self.fuel_suffices(fuel, above),
            forall|j: int|
                0 <= j < ids.len() ==> self.has(#[trigger] ids[j]) && (forall|a: u128|
                    above.contains(a) ==> self.is_descendant(ids[j], a)) && (
                node.parent_id matches Some(x) ==> ids[j] != x && !self.is_descendant(x, ids[j])),
        ensures
            self.after_insert(node).forest_rows(ids, depth, fuel + 1) == self.forest_rows(
                ids,
                depth,
                fuel,
            ),
            forall|i: int|
                0 <= i < self.forest_rows(ids, depth, fuel).len() ==> Some(
                    (#[trigger] self.forest_rows(ids, depth, fuel)[i]).1,
                ) != node.parent_id,
        decreases fuel, 1 + ids.len(),
    {
        if ids.len() > 0 {
            let front = ids.drop_last();
            assert forall|j: int| 0 <= j < front.len() implies self.has(#[trigger] front[j]) && (
            forall|a: u128| above.contains(a) ==> self.is_descendant(front[j], a)) && (
            node.parent_id matches Some(x) ==> front[j] != x && !self.is_descendant(
                x,
                front[j],
            )) by {
                assert(front[j] == ids[j]);
            }
            assert(ids.last() == ids[ids.len() - 1]);
            self.lemma_forest_rows_unaffected(node, front, depth, fuel, above);
            self.lemma_subtree_rows_unaffected(node, ids.last(), depth, fuel, above);
            let head = self.forest_rows(front, depth, fuel);
            let tail = self.subtree_rows(ids.last(), depth, fuel);
            let rows = self.forest_rows(ids, depth, fuel);
            assert forall|i: int| 0 <= i < rows.len() implies Some((#[trigger] rows[i]).1)
                != node.parent_id by {
                if i < head.len() {
                    assert(rows[i] == head[i]);
                } else {
                    assert(rows[i] == tail[i - head.len()]);
                }
            }
        }
    }
}

impl Forest {
    /// Rows shown as inserted stay so when rows without the parent, the
    /// same before and after, are put behind them.
    pub proof fn lemma_shows_inserted_front(
        self,
        node: FocusNode,
        total: nat,
        old: Seq<(nat, u128)>,
        new: Seq<(nat, u128)>,
        rest: Seq<(nat, u128)>,
    )
        requires
            self.shows_inserted(node, total, old, new),
            forall|i: int| 0 <= i < rest.len() ==> (#[trigger] rest[i]).1 != node.parent_id->0,
        ensures
            self.shows_inserted(node, total, old + rest, new + rest),
    {
        let parent = node.parent_id->0;
        let all = old + rest;
        if forall|k: int| 0 <= k < all.len() ==> (#[trigger] all[k]).1 != parent {
            assert forall|k: int| 0 <= k < old.len() implies (#[trigger] old[k]).1 != parent by {
                assert(all[k] == old[k]);
            }
        }
        assert forall|k: int| 0 <= k < all.len() && (#[trigger] all[k]).1 == parent implies {
            let depth = all[k].0;
            let end = k + self.subtree_rows(parent, depth, (total - depth) as nat).len();
            &&& end <= all.len()
            &&& new + rest == all.take(end) + self.after_insert(node).subtree_rows(
                node.id,
                depth + 1,
                (total - depth) as nat,
            ) + all.skip(end)
        } by {
            if k >= old.len() {
                assert(all[k] == rest[k - old.len()]);
            }
            assert(all[k] == old[k]);
            let depth = old[k].0;
            let end = k + self.subtree_rows(parent, depth, (total - depth) as nat).len();
            assert(all.take(end) =~= old.take(end));
            assert(all.skip(end) =~= old.skip(end) + rest);
            let extra = self.after_insert(node).subtree_rows(
                node.id,
                depth + 1,
                (total - depth) as nat,
            );
            assert(new + rest =~= old.take(end) + extra + (old.skip(end) + rest));
        }
    }

    /// Rows shown as inserted stay so when rows without the parent, the
    /// same before and after, are put before them.
    pub proof fn lemma_shows_inserted_back(
        self,
        node: FocusNode,
        total: nat,
        old: Seq<(nat, u128)>,
        new: Seq<(nat, u128)>,
        first: Seq<(nat, u128)>,
    )
        requires
            self.shows_inserted(node, total, old, new),
            forall|i: int| 0 <= i < first.len() ==> (#[trigger] first[i]).1 != node.parent_id->0,
        ensures
            self.shows_inserted(node, total, first + old, first + new),
    {
        let parent = node.parent_id->0;
        let all = first + old;
        if forall|k: int| 0 <= k < all.len() ==> (#[trigger] all[k]).1 != parent {
            assert forall|k: int| 0 <= k < old.len() implies (#[trigger] old[k]).1 != parent by {
                assert(all[first.len() + k] == old[k]);
            }
        }
        assert forall|k: int| 0 <= k < all.len() && (#[trigger] all[k]).1 == parent implies {
            let depth = all[k].0;
            let end = k + self.subtree_rows(parent, depth, (total - depth) as nat).len();
            &&& end <= all.len()
            &&& first + new == all.take(end) + self.after_insert(node).subtree_rows(
                node.id,
                depth + 1,
                (total - depth) as nat,
            ) + all.skip(end)
        } by {
            if k < first.len() {
                assert(all[k] == first[k]);
            }
            let k2 = k - first.len();
            assert(all[k] == old[k2]);
            let depth = old[k2].0;
            let end2 = k2 + self.subtree_rows(parent, depth, (total - depth) as nat).len();
            let end = first.len() + end2;
            assert(all.take(end) =~= first + old.take(end2));
            assert(all.skip(end) =~= old.skip(end2));
            let extra = self.after_insert(node).subtree_rows(
                node.id,
                depth + 1,
                (total - depth) as nat,
            );
            assert(first + new =~= (first + old.take(end2)) + extra + old.skip(end2));
        }
    }

    /// How inserting `node` changes the rows of a subtree that holds the
    /// parent of `node`.
    pub proof fn lemma_subtree_rows_inserted(
        self,
        node: FocusNode,
        r: u128,
        depth: nat,
        fuel: nat,
        above: Set<u128>,
    )
        requires
            self.wf(),
            self.can_insert(node),
            node.parent_id is Some,
            self.has(r),
            self.fuel_suffices(fuel, above),
            forall|a: u128| above.contains(a) ==> self.is_descendant(r, a),
            r == node.parent_id->0 || self.is_descendant(node.parent_id->0, r),
        ensures
            self.shows_inserted(
                node,
                depth + fuel,
                self.subtree_rows(r, depth, fuel),
                self.after_insert(node).subtree_rows(r, depth, fuel + 1),
            ),
        decreases fuel, 0nat,
    {
        let g = self.after_insert(node);
        let x = node.parent_id->0;
        let total = depth + fuel;
        let inner = above.insert(r);
        self.lemma_no_cycle(r, r);
        assert(!above.contains(r));
        assert(inner.subset_of(self.nodes.dom()));
        vstd::set_lib::lemma_len_subset(inner, self.nodes.dom());
        assert(fuel >= 1);
        assert(g.has(r));
        let kids = self.kids(r);
        let rows = self.subtree_rows(r, depth, fuel);
        let below = self.forest_rows(kids, depth + 1, (fuel - 1) as nat);
        assert(rows == seq![(depth, r)] + below);
        assert forall|j: int| 0 <= j < kids.len() implies self.has(#[trigger] kids[j])
            && self.nodes[kids[j]].parent_id == Some(r) && (forall|a: u128|
            inner.contains(a) ==> self.is_descendant(kids[j], a)) by {
            let c = kids[j];
            assert(self.kids(r).contains(c));
            assert forall|a: u128| inner.contains(a) implies self.is_descendant(c, a) by {
                self.lemma_child_is_descendant(c, a);
            }
        }
        if r == x {
            assert forall|j: int| 0 <= j < kids.len() implies (#[trigger] kids[j]) != x
                && !self.is_descendant(x, kids[j]) by {
                self.lemma_child_is_descendant(kids[j], x);
                self.lemma_no_cycle(x, kids[j]);
                self.lemma_no_cycle(x, x);
            }
            self.lemma_forest_rows_unaffected(node, kids, depth + 1, (fuel - 1) as nat, inner);
            let new_kids = g.kids(r);
            assert(new_kids == kids.push(node.id));
            assert(new_kids.drop_last() == kids);
            assert(new_kids.last() == node.id);
            let extra = g.subtree_rows(node.id, depth + 1, fuel);
            let grown = g.subtree_rows(r, depth, fuel + 1);
            assert(g.forest_rows(new_kids, depth + 1, fuel) == g.forest_rows(
                kids,
                depth + 1,
                fuel,
            ) + extra);
            assert(grown =~= rows + extra);
            assert forall|k: int| 0 <= k < rows.len() && (#[trigger] rows[k]).1 == x implies {
                let d = rows[k].0;
                let end = k + self.subtree_rows(x, d, (total - d) as nat).len();
                &&& end <= rows.len()
                &&& grown == rows.take(end) + g.subtree_rows(node.id, d + 1, (total - d) as nat)
                    + rows.skip(end)
            } by {
                if k > 0 {
                    assert(rows[k] == below[k - 1]);
                }
                assert(rows[0] == (depth, r));
                assert(rows.take(rows.len() as int) =~= rows);
                assert(rows.skip(rows.len() as int) =~= Seq::<(nat, u128)>::empty());
                assert(grown =~= rows.take(rows.len() as int) + extra + rows.skip(
                    rows.len() as int,
                ));
            }
            assert(rows[0].1 == x);
        } else {
            assert(g.kids(r) == kids);
            self.lemma_forest_rows_inserted(
                node,
                kids,
                Some(r),
                depth + 1,
                (fuel - 1) as nat,
                inner,
            );
            let first = seq![(depth, r)];
            self.lemma_shows_inserted_back(
                node,
                total,
                below,
                g.forest_rows(kids, depth + 1, fuel),
                first,
            );
        }
    }

    /// How inserting `node` changes the rows of the subtrees of nodes that
    /// share the parent `of`, or are all roots.
    pub proof fn lemma_forest_rows_inserted(
        self,
        node: FocusNode,
        ids: Seq<u128>,
        of: Option<u128>,
        depth: nat,
        fuel: nat,
        above: Set<u128>,
    )
        requires
            self.wf(),
            self.can_insert(node),
            node.parent_id is Some,
            self.fuel_suffices(fuel, above),
            ids.no_duplicates(),
            forall|j: int|
                0 <= j < ids.len() ==> self.has(#[trigger] ids[j]) && self.nodes[ids[j]].parent_id
                    == of && (forall|a: u128| above.contains(a) ==> self.is_descendant(ids[j], a)),
        ensures
            self.shows_inserted(
                node,
                depth + fuel,
                self.forest_rows(ids, depth, fuel),
                self.after_insert(node).forest_rows(ids, depth, fuel + 1),
            ),
        decreases fuel, 1 + ids.len(),
    {
        let g = self.after_insert(node);
        let x = node.parent_id->0;
        let total = depth + fuel;
        if ids.len() > 0 {
            let front = ids.drop_last();
            let last = ids.last();
            assert(last == ids[ids.len() - 1]);
            assert forall|j: int| 0 <= j < front.len() implies self.has(#[trigger] front[j])
                && self.nodes[front[j]].parent_id == of && front[j] != last && (forall|a: u128|
                above.contains(a) ==> self.is_descendant(front[j], a)) by {
                assert(front[j] == ids[j]);
            }
            assert(front.no_duplicates());
            let head = self.forest_rows(front, depth, fuel);
            let tail = self.subtree_rows(last, depth, fuel);
            if last == x || self.is_descendant(x, last) {
                assert forall|j: int| 0 <= j < front.len() implies (#[trigger] front[j]) != x
                    && !self.is_descendant(x, front[j]) by {
                    self.lemma_siblings_apart(last, front[j], x);
                }
                self.lemma_forest_rows_unaffected(node, front, depth, fuel, above);
                self.lemma_subtree_rows_inserted(node, last, depth, fuel, above);
                self.lemma_shows_inserted_back(
                    node,
                    total,
                    tail,
                    g.subtree_rows(last, depth, fuel + 1),
                    head,
                );
            } else {
                self.lemma_subtree_rows_unaffected(node, last, depth, fuel, above);
                self.lemma_forest_rows_inserted(node, front, of, depth, fuel, above);
                self.lemma_shows_inserted_front(
                    node,
                    total,
                    head,
                    g.forest_rows(front, depth, fuel + 1),
                    tail,
                );
            }
        }
    }

    /// Where an inserted node appears in the display order. A new root
    /// comes last. A node inserted under a parent that is shown comes right
    /// after the parent and all that was shown below the parent: after the
    /// parent's last child with what lies below that child, or directly after
    /// the parent when it had no child. Under a parent that is not shown, the
    /// node is not shown either. With the node come the nodes that waited for
    /// it as their parent, if there were any.
    pub proof fn lemma_insert_display(self, node: FocusNode)
        requires
            self.wf(),
            self.can_insert(node),
        ensures
            match node.parent_id {
                None => self.after_insert(node).display_rows() == self.display_rows()
                    + self.after_insert(node).subtree_rows(node.id, 0, self.nodes.len() + 1),
                Some(_) => self.shows_inserted(
                    node,
                    self.nodes.len(),
                    self.display_rows(),
                    self.after_insert(node).display_rows(),
                ),
            },
            self.kids(node.id).len() == 0 ==> forall|depth: nat, fuel: nat|
                fuel > 0 ==> #[trigger] self.after_insert(node).subtree_rows(node.id, depth, fuel)
                    == seq![(depth, node.id)],
    {
        let g = self.after_insert(node);
        let total = self.nodes.len();
        let none = Set::<u128>::empty();
        assert(g.nodes.len() == total + 1);
        assert forall|j: int| 0 <= j < self.roots.len() implies self.has(#[trigger] self.roots[j])
            && self.nodes[self.roots[j]].parent_id == None::<u128> && (forall|a: u128|
            none.contains(a) ==> self.is_descendant(self.roots[j], a)) && (
        node.parent_id matches Some(x) ==> true) by {
            assert(self.roots.contains(self.roots[j]));
        }
        match node.parent_id {
            None => {
                self.lemma_forest_rows_unaffected(node, self.roots, 0, total, none);
                assert(g.roots == self.roots.push(node.id));
                assert(g.roots.drop_last() == self.roots);
                assert(g.roots.last() == node.id);
            },
            Some(x) => {
                assert(g.roots == self.roots);
                self.lemma_forest_rows_inserted(node, self.roots, None, 0, total, none);
            },
        }
        if self.kids(node.id).len() == 0 {
            assert forall|depth: nat, fuel: nat| fuel > 0 implies #[trigger] g.subtree_rows(
                node.id,
                depth,
                fuel,
            ) == seq![(depth, node.id)] by {
                assert(g.has(node.id));
                assert(g.kids(node.id) =~= Seq::<u128>::empty());
                assert(g.forest_rows(g.kids(node.id), depth + 1, (fuel - 1) as nat)
                    =~= Seq::<(nat, u128)>::empty());
                assert(g.subtree_rows(node.id, depth, fuel) =~= seq![(depth, node.id)]);
            }
        }
    }
}

impl Forest {
    /// Every row of a subtree shows its top node or a node below it.
    pub proof fn lemma_subtree_rows_within(self, r: u128, depth: nat, fuel: nat)
        requires
            self.wf(),
        ensures
            forall|i: int|
                0 <= i < self.subtree_rows(r, depth, fuel).len() ==> {
                    let y = (#[trigger] self.subtree_rows(r, depth, fuel)[i]).1;
                    y == r || self.is_descendant(y, r)
                },
        decreases fuel, 0nat,
    {
        if fuel > 0 && self.has(r) {
            let kids = self.kids(r);
            let below = self.forest_rows(kids, depth + 1, (fuel - 1) as nat);
            let rows = self.subtree_rows(r, depth, fuel);
            self.lemma_forest_rows_within(kids, depth + 1, (fuel - 1) as nat);
            assert forall|i: int| 0 <= i < rows.len() implies {
                let y = (#[trigger] rows[i]).1;
                y == r || self.is_descendant(y, r)
            } by {
                if i > 0 {
                    assert(rows[i] == below[i - 1]);
                    let y = below[i - 1].1;
                    let j = choose|j: int|
                        0 <= j < kids.len() && (y == kids[j] || self.is_descendant(y, kids[j]));
                    assert(self.kids(r).contains(kids[j]));
                    if y == kids[j] {
                        self.lemma_child_is_descendant(y, r);
                    } else {
                        self.lemma_descendant_of_child(y, kids[j], r);
                    }
                }
            }
        }
    }

    /// Every row of several subtrees shows the top node of one of them or a
    /// node below that.
    pub proof fn lemma_forest_rows_within(self, ids: Seq<u128>, depth: nat, fuel: nat)
        requires
            self.wf(),
        ensures
            forall|i: int|
                0 <= i < self.forest_rows(ids, depth, fuel).len() ==> {
                    let y = (#[trigger] self.forest_rows(ids, depth, fuel)[i]).1;
                    exists|j: int|
                        0 <= j < ids.len() && (y == ids[j] || self.is_descendant(y, ids[j]))
                },
        decreases fuel, 1 + ids.len(),
    {
        if ids.len() > 0 {
            let front = ids.drop_last();
            let head = self.forest_rows(front, depth, fuel);
            let tail = self.subtree_rows(ids.last(), depth, fuel);
            let rows = self.forest_rows(ids, depth, fuel);
            self.lemma_forest_rows_within(front, depth, fuel);
            self.lemma_subtree_rows_within(ids.last(), depth, fuel);
            assert forall|i: int| 0 <= i < rows.len() implies {
                let y = (#[trigger] rows[i]).1;
                exists|j: int| 0 <= j < ids.len() && (y == ids[j] || self.is_descendant(y, ids[j]))
            } by {
                let y = rows[i].1;
                if i < head.len() {
                    assert(rows[i] == head[i]);
                    let j = choose|j: int|
                        0 <= j < front.len() && (y == front[j] || self.is_descendant(y, front[j]));
                    assert(front[j] == ids[j]);
                } else {
                    assert(rows[i] == tail[i - head.len()]);
                    assert(ids[ids.len() - 1] == ids.last());
                }
            }
        }
    }

    /// No node is shown twice among the rows of a subtree.
    pub proof fn lemma_subtree_rows_distinct(self, r: u128, depth: nat, fuel: nat)
        requires
            self.wf(),
        ensures
            forall|i: int, j: int|
                0 <= i < j < self.subtree_rows(r, depth, fuel).len() ==> (
                #[trigger] self.subtree_rows(r, depth, fuel)[i]).1 != (
                #[trigger] self.subtree_rows(r, depth, fuel)[j]).1,
        decreases fuel, 0nat,
    {
        if fuel > 0 && self.has(r) {
            let kids = self.kids(r);
            let below = self.forest_rows(kids, depth + 1, (fuel - 1) as nat);
            let rows = self.subtree_rows(r, depth, fuel);
            assert(kids.no_duplicates());
            assert forall|j: int| 0 <= j < kids.len() implies self.has(#[trigger] kids[j])
                && self.nodes[kids[j]].parent_id == Some(r) by {
                assert(self.kids(r).contains(kids[j]));
            }
            self.lemma_forest_rows_distinct(kids, Some(r), depth + 1, (fuel - 1) as nat);
            self.lemma_forest_rows_within(kids, depth + 1, (fuel - 1) as nat);
            self.lemma_no_cycle(r, r);
            assert forall|i: int, j: int| 0 <= i < j < rows.len() implies (#[trigger] rows[i]).1
                != (#[trigger] rows[j]).1 by {
                assert(rows[j] == below[j - 1]);
                if i > 0 {
                    assert(rows[i] == below[i - 1]);
                } else {
                    assert(rows[0] == (depth, r));
                    let y = below[j - 1].1;
                    let k = choose|k: int|
                        0 <= k < kids.len() && (y == kids[k] || self.is_descendant(y, kids[k]));
                    if y == kids[k] {
                        self.lemma_child_is_descendant(y, r);
                    } else {
                        self.lemma_descendant_of_child(y, kids[k], r);
                    }
                }
            }
        }
    }

    /// No node is shown twice among the rows of the subtrees of nodes that
    /// share the parent `of`, or are all roots.
    pub proof fn lemma_forest_rows_distinct(
        self,
        ids: Seq<u128>,
        of: Option<u128>,
        depth: nat,
        fuel: nat,
    )
        requires
            self.wf(),
            ids.no_duplicates(),
            forall|j: int|
                0 <= j < ids.len() ==> self.has(#[trigger] ids[j]) && self.nodes[ids[j]].parent_id
                    == of,
        ensures
            forall|i: int, j: int|
                0 <= i < j < self.forest_rows(ids, depth, fuel).len() ==> (
                #[trigger] self.forest_rows(ids, depth, fuel)[i]).1 != (
                #[trigger] self.forest_rows(ids, depth, fuel)[j]).1,
        decreases fuel, 1 + ids.len(),
    {
        if ids.len() > 0 {
            let front = ids.drop_last();
            let last = ids.last();
            let head = self.forest_rows(front, depth, fuel);
            let tail = self.subtree_rows(last, depth, fuel);
            let rows = self.forest_rows(ids, depth, fuel);
            assert(last == ids[ids.len() - 1]);
            assert forall|j: int| 0 <= j < front.len() implies self.has(#[trigger] front[j])
                && self.nodes[front[j]].parent_id == of && front[j] != last by {
                assert(front[j] == ids[j]);
            }
            assert(front.no_duplicates());
            self.lemma_forest_rows_distinct(front, of, depth, fuel);
            self.lemma_subtree_rows_distinct(last, depth, fuel);
            self.lemma_forest_rows_within(front, depth, fuel);
            self.lemma_subtree_rows_within(last, depth, fuel);
            assert forall|i: int, j: int| 0 <= i < j < rows.len() implies (#[trigger] rows[i]).1
                != (#[trigger] rows[j]).1 by {
                if j < head.len() {
                    assert(rows[i] == head[i] && rows[j] == head[j]);
                } else if i >= head.len() {
                    assert(rows[i] == tail[i - head.len()] && rows[j] == tail[j - head.len()]);
                } else {
                    assert(rows[i] == head[i]);
                    assert(rows[j] == tail[j - head.len()]);
                    let y = head[i].1;
                    let k = choose|k: int|
                        0 <= k < front.len() && (y == front[k] || self.is_descendant(y, front[k]));
                    self.lemma_siblings_apart(front[k], last, y);
                    let z = tail[j - head.len()].1;
                    assert(z == last || self.is_descendant(z, last));
                }
            }
        }
    }

    /// No node is displayed twice.
    pub proof fn lemma_display_rows_distinct(self)
        requires
            self.wf(),
        ensures
            forall|i: int, j: int|
                0 <= i < j < self.display_rows().len() ==> (#[trigger] self.display_rows()[i]).1
                    != (#[trigger] self.display_rows()[j]).1,
    {
        assert forall|j: int| 0 <= j < self.roots.len() implies self.has(#[trigger] self.roots[j])
            && self.nodes[self.roots[j]].parent_id == None::<u128> by {
            assert(self.roots.contains(self.roots[j]));
        }
        self.lemma_forest_rows_distinct(self.roots, None, 0, self.nodes.len());
    }
}

impl Forest {
    /// Levels beyond those that suffice add nothing to the rows of a
    /// subtree.
    pub proof fn lemma_subtree_rows_spare_fuel(
        self,
        r: u128,
        depth: nat,
        fuel: nat,
        more: nat,
        above: Set<u128>,
    )
        requires
            self.wf(),
            self.fuel_suffices(fuel, above),
            forall|a: u128| above.contains(a) ==> self.is_descendant(r, a),
            fuel <= more,
        ensures
            self.subtree_rows(r, depth, more) == self.subtree_rows(r, depth, fuel),
        decreases fuel, 0nat,
    {
        if self.has(r) {
            let inner = above.insert(r);
            self.lemma_no_cycle(r, r);
            assert(!above.contains(r));
            assert(inner.subset_of(self.nodes.dom()));
            vstd::set_lib::lemma_len_subset(inner, self.nodes.dom());
            assert(fuel >= 1);
            let kids = self.kids(r);
            assert forall|j: int| 0 <= j < kids.len() implies (forall|a: u128|
                inner.contains(a) ==> self.is_descendant(#[trigger] kids[j], a)) by {
                let c = kids[j];
                assert(self.kids(r).contains(c));
                assert forall|a: u128| inner.contains(a) implies self.is_descendant(c, a) by {
                    self.lemma_child_is_descendant(c, a);
                }
            }
            self.lemma_forest_rows_spare_fuel(
                kids,
                depth + 1,
                (fuel - 1) as nat,
                (more - 1) as nat,
                inner,
            );
        }
    }

    /// Levels beyond those that suffice add nothing to the rows of several
    /// subtrees.
    pub proof fn lemma_forest_rows_spare_fuel(
        self,
        ids: Seq<u128>,
        depth: nat,
        fuel: nat,
        more: nat,
        above: Set<u128>,
    )
        requires
            self.wf(),
            self.fuel_suffices(fuel, above),
            forall|j: int|
                0 <= j < ids.len() ==> (forall|a: u128|
                    above.contains(a) ==> self.is_descendant(#[trigger] ids[j], a)),
            fuel <= more,
        ensures
            self.forest_rows(ids, depth, more) == self.forest_rows(ids, depth, fuel),
        decreases fuel, 1 + ids.len(),
    {
        if ids.len() > 0 {
            let front = ids.drop_last();
            assert(ids.last() == ids[ids.len() - 1]);
            assert forall|j: int| 0 <= j < front.len() implies (forall|a: u128|
                above.contains(a) ==> self.is_descendant(#[trigger] front[j], a)) by {
                assert(front[j] == ids[j]);
            }
            self.lemma_forest_rows_spare_fuel(front, depth, fuel, more, above);
            self.lemma_subtree_rows_spare_fuel(ids.last(), depth, fuel, more, above);
        }
    }

    /// The display order leaves out no level of the forest: with as many
    /// levels as there are nodes every chain of children is followed to its
    /// end, and more levels would add no row.
    pub proof fn lemma_display_rows_complete(self, more: nat)
        requires
            self.wf(),
            self.nodes.len() <= more,
        ensures
            self.forest_rows(self.roots, 0, more) == self.display_rows(),
    {
        self.lemma_forest_rows_spare_fuel(
            self.roots,
            0,
            self.nodes.len(),
            more,
            Set::<u128>::empty(),
        );
    }
}

impl Forest {
    /// Whether every row of `rows` that shows `x` is followed by the rows
    /// of the nodes below `x`: from that row on, `rows` holds the rows of the
    /// subtree of `x`. `total` is the depth of a row plus the levels that
    /// remain below it.
    pub open spec fn shows_block(self, x: u128, total: nat, rows: Seq<(nat, u128)>) -> bool {
        forall|k: int|
            0 <= k < rows.len() && (#[trigger] rows[k]).1 == x ==> {
                let block = self.subtree_rows(x, rows[k].0, (total - rows[k].0) as nat);
                &&& k + block.len() <= rows.len()
                &&& rows.subrange(k, k + block.len()) == block
            }
    }

    /// The rows of a subtree stand at the depth of its top node or deeper,
    /// within the levels allowed.
    pub proof fn lemma_subtree_rows_depths(self, r: u128, depth: nat, fuel: nat)
        ensures
            forall|i: int|
                0 <= i < self.subtree_rows(r, depth, fuel).len() ==> depth <= (
                #[trigger] self.subtree_rows(r, depth, fuel)[i]).0 < depth + fuel,
        decreases fuel, 0nat,
    {
        if fuel > 0 && self.has(r) {
            let below = self.forest_rows(self.kids(r), depth + 1, (fuel - 1) as nat);
            let rows = self.subtree_rows(r, depth, fuel);
            self.lemma_forest_rows_depths(self.kids(r), depth + 1, (fuel - 1) as nat);
            assert forall|i: int| 0 <= i < rows.len() implies depth <= (#[trigger] rows[i]).0
                < depth + fuel by {
                if i > 0 {
                    assert(rows[i] == below[i - 1]);
                }
            }
        }
    }

    /// The rows of several subtrees stand at the depth of their top nodes
    /// or deeper, within the levels allowed.
    pub proof fn lemma_forest_rows_depths(self, ids: Seq<u128>, depth: nat, fuel: nat)
        ensures
            forall|i: int|
                0 <= i < self.forest_rows(ids, depth, fuel).len() ==> depth <= (
                #[trigger] self.forest_rows(ids, depth, fuel)[i]).0 < depth + fuel,
        decreases fuel, 1 + ids.len(),
    {
        if ids.len() > 0 {
            let head = self.forest_rows(ids.drop_last(), depth, fuel);
            let tail = self.subtree_rows(ids.last(), depth, fuel);
            let rows = self.forest_rows(ids, depth, fuel);
            self.lemma_forest_rows_depths(ids.drop_last(), depth, fuel);
            self.lemma_subtree_rows_depths(ids.last(), depth, fuel);
            assert forall|i: int| 0 <= i < rows.len() implies depth <= (#[trigger] rows[i]).0
                < depth + fuel by {
                if i < head.len() {
                    assert(rows[i] == head[i]);
                } else {
                    assert(rows[i] == tail[i - head.len()]);
                }
            }
        }
    }

    /// Among the rows of a subtree, a row that shows `x` is followed by the
    /// rows of the nodes below `x`.
    pub proof fn lemma_subtree_rows_block(self, x: u128, r: u128, depth: nat, fuel: nat)
        requires
            self.wf(),
        ensures
            self.shows_block(x, depth + fuel, self.subtree_rows(r, depth, fuel)),
        decreases fuel, 0nat,
    {
        let total = depth + fuel;
        let rows = self.subtree_rows(r, depth, fuel);
        if fuel > 0 && self.has(r) {
            let kids = self.kids(r);
            let below = self.forest_rows(kids, depth + 1, (fuel - 1) as nat);
            assert(rows == seq![(depth, r)] + below);
            self.lemma_forest_rows_block(x, kids, depth + 1, (fuel - 1) as nat);
            self.lemma_forest_rows_within(kids, depth + 1, (fuel - 1) as nat);
            self.lemma_no_cycle(r, r);
            assert forall|k: int| 0 <= k < rows.len() && (#[trigger] rows[k]).1 == x implies {
                let block = self.subtree_rows(x, rows[k].0, (total - rows[k].0) as nat);
                &&& k + block.len() <= rows.len()
                &&& rows.subrange(k, k + block.len()) == block
            } by {
                if k == 0 {
                    assert(rows[0] == (depth, r));
                    assert(rows.subrange(0, rows.len() as int) =~= rows);
                } else {
                    assert(rows[k] == below[k - 1]);
                    let block = self.subtree_rows(x, below[k - 1].0, (total - below[k - 1].0) as nat);
                    assert(below.subrange(k - 1, k - 1 + block.len()) == block);
                    assert(rows.subrange(k, k + block.len()) =~= below.subrange(
                        k - 1,
                        k - 1 + block.len(),
                    ));
                }
            }
        }
    }

    /// Among the rows of several subtrees, a row that shows `x` is followed
    /// by the rows of the nodes below `x`.
    pub proof fn lemma_forest_rows_block(self, x: u128, ids: Seq<u128>, depth: nat, fuel: nat)
        requires
            self.wf(),
        ensures
            self.shows_block(x, depth + fuel, self.forest_rows(ids, depth, fuel)),
        decreases fuel, 1 + ids.len(),
    {
        let total = depth + fuel;
        let rows = self.forest_rows(ids, depth, fuel);
        if ids.len() > 0 {
            let head = self.forest_rows(ids.drop_last(), depth, fuel);
            let tail = self.subtree_rows(ids.last(), depth, fuel);
            self.lemma_forest_rows_block(x, ids.drop_last(), depth, fuel);
            self.lemma_subtree_rows_block(x, ids.last(), depth, fuel);
            assert forall|k: int| 0 <= k < rows.len() && (#[trigger] rows[k]).1 == x implies {
                let block = self.subtree_rows(x, rows[k].0, (total - rows[k].0) as nat);
                &&& k + block.len() <= rows.len()
                &&& rows.subrange(k, k + block.len()) == block
            } by {
                if k < head.len() {
                    assert(rows[k] == head[k]);
                    let block = self.subtree_rows(x, head[k].0, (total - head[k].0) as nat);
                    assert(head.subrange(k, k + block.len()) == block);
                    assert(rows.subrange(k, k + block.len()) =~= head.subrange(
                        k,
                        k + block.len(),
                    ));
                } else {
                    let k2 = k - head.len();
                    assert(rows[k] == tail[k2]);
                    let block = self.subtree_rows(x, tail[k2].0, (total - tail[k2].0) as nat);
                    assert(tail.subrange(k2, k2 + block.len()) == block);
                    assert(rows.subrange(k, k + block.len()) =~= tail.subrange(
                        k2,
                        k2 + block.len(),
                    ));
                }
            }
        }
    }

    /// Where a new child appears in the display order, row by row. Let the
    /// parent be shown in row `k`, and let `end` be the row after the last
    /// row of the nodes below it, or after row `k` when it has no child. A
    /// node inserted under that parent, with no node waiting for it as their
    /// parent, takes row `end`, one level deeper than its parent: it follows
    /// every earlier child of the parent with all that lies below that child.
    /// The rows before `end` stay, and the rows from `end` on move down by
    /// one.
    pub proof fn lemma_insert_child_display(self, node: FocusNode, k: int)
        requires
            self.wf(),
            self.can_insert(node),
            self.kids(node.id).len() == 0,
            node.parent_id is Some,
            0 <= k < self.display_rows().len(),
            self.display_rows()[k].1 == node.parent_id->0,
        ensures
            ({
                let before = self.display_rows();
                let after = self.after_insert(node).display_rows();
                let depth = before[k].0;
                let block = self.subtree_rows(
                    node.parent_id->0,
                    depth,
                    (self.nodes.len() - depth) as nat,
                );
                let end = k + block.len();
                &&& k < end <= before.len()
                &&& before.subrange(k, end) == block
                &&& after.len() == before.len() + 1
                &&& after.take(end) == before.take(end)
                &&& after[end] == (depth + 1, node.id)
                &&& after.skip(end + 1) == before.skip(end)
            }),
    {
        let x = node.parent_id->0;
        let total = self.nodes.len();
        let before = self.display_rows();
        let after = self.after_insert(node).display_rows();
        let depth = before[k].0;
        let block = self.subtree_rows(x, depth, (total - depth) as nat);
        let end = k + block.len();
        self.lemma_insert_display(node);
        self.lemma_forest_rows_block(x, self.roots, 0, total);
        self.lemma_forest_rows_depths(self.roots, 0, total);
        self.lemma_display_rows_are_nodes();
        assert(before[k].1 == x);
        assert(depth < total);
        assert(self.has(x));
        assert(block.len() >= 1);
        let extra = self.after_insert(node).subtree_rows(
            node.id,
            depth + 1,
            (total - depth) as nat,
        );
        assert(extra == seq![(depth + 1, node.id)]);
        assert(after == before.take(end) + extra + before.skip(end));
        assert(after.take(end) =~= before.take(end));
        assert(after.skip(end + 1) =~= before.skip(end));
    }
}

} // verus!
