//! Which nodes lie below which: what follows from the definition, and the
//! depth-first walk that finds the nodes below a node.

use vstd::prelude::*;
use crate::forest::Forest;
use crate::seqs::{lemma_concat_contains, lemma_concat_no_duplicates, lemma_drop_last};

verus! {

/// Whether `p` is one of `ids` or lies below one of them.
pub open spec fn among_or_below(f: Forest, ids: Seq<u128>, p: u128) -> bool {
    exists|j: int| 0 <= j < ids.len() && (p == #[trigger] ids[j] || f.is_descendant(p, ids[j]))
}

impl Forest {
    /// One step up from a descendant of `a` lands on `a` or on another
    /// descendant of `a`.
    pub proof fn lemma_parent_of_descendant(self, d: u128, a: u128)
        requires
            self.is_descendant(d, a),
        ensures
            self.has(d),
            self.nodes[d].parent_id is Some,
            self.nodes[d].parent_id->0 == a || self.is_descendant(self.nodes[d].parent_id->0, a),
    {
        let n = choose|n: nat| self.climbs_to(d, a, n);
        let p = self.nodes[d].parent_id->0;
        if p != a {
            assert(self.climbs_to(p, a, (n - 1) as nat));
        }
    }

    /// A node whose parent is `a` or lies below `a` lies below `a`.
    pub proof fn lemma_child_is_descendant(self, c: u128, a: u128)
        requires
            self.has(c),
            self.nodes[c].parent_id is Some,
            self.nodes[c].parent_id->0 == a || self.is_descendant(self.nodes[c].parent_id->0, a),
        ensures
            self.is_descendant(c, a),
    {
        let p = self.nodes[c].parent_id->0;
        if p == a {
            assert(self.climbs_to(c, a, 1));
        } else {
            let n = choose|n: nat| self.climbs_to(p, a, n);
            assert(self.climbs_to(c, a, n + 1));
        }
    }

    /// A rank grows all the way down a chain of parent references.
    pub proof fn lemma_rank_grows(self, r: spec_fn(u128) -> nat, d: u128, a: u128, n: nat)
        requires
            self.ranked_by(r),
            self.climbs_to(d, a, n),
        ensures
            r(a) < r(d),
        decreases n,
    {
        let p = self.nodes[d].parent_id->0;
        if p != a {
            self.lemma_rank_grows(r, p, a, (n - 1) as nat);
        }
    }

    /// In a forest without cycles no node lies below itself, and of two
    /// nodes at most one lies below the other.
    pub proof fn lemma_no_cycle(self, x: u128, y: u128)
        requires
            self.acyclic(),
        ensures
            !self.is_descendant(x, x),
            !(self.is_descendant(x, y) && self.is_descendant(y, x)),
    {
        let r = choose|r: spec_fn(u128) -> nat| self.ranked_by(r);
        if self.is_descendant(x, x) {
            let n = choose|n: nat| self.climbs_to(x, x, n);
            self.lemma_rank_grows(r, x, x, n);
        }
        if self.is_descendant(x, y) && self.is_descendant(y, x) {
            let n = choose|n: nat| self.climbs_to(x, y, n);
            self.lemma_rank_grows(r, x, y, n);
            let m = choose|m: nat| self.climbs_to(y, x, m);
            self.lemma_rank_grows(r, y, x, m);
        }
    }

    /// A set that holds the children of `a` and the children of each of its
    /// members holds every node below `a`.
    pub proof fn lemma_closed_set_holds_descendants(self, a: u128, closed: Set<u128>, d: u128)
        requires
            forall|c: u128| #[trigger]
                self.has(c) && self.nodes[c].parent_id is Some && (self.nodes[c].parent_id->0 == a
                    || closed.contains(self.nodes[c].parent_id->0)) ==> closed.contains(c),
            self.is_descendant(d, a),
        ensures
            closed.contains(d),
    {
        let n = choose|n: nat| self.climbs_to(d, a, n);
        self.lemma_closed_set_climb(a, closed, d, n);
    }

    proof fn lemma_closed_set_climb(self, a: u128, closed: Set<u128>, d: u128, n: nat)
        requires
            forall|c: u128| #[trigger]
                self.has(c) && self.nodes[c].parent_id is Some && (self.nodes[c].parent_id->0 == a
                    || closed.contains(self.nodes[c].parent_id->0)) ==> closed.contains(c),
            self.climbs_to(d, a, n),
        ensures
            closed.contains(d),
        decreases n,
    {
        let p = self.nodes[d].parent_id->0;
        if p != a {
            self.lemma_closed_set_climb(a, closed, p, (n - 1) as nat);
        }
    }

    /// The nodes below `a` are nodes of the forest, so they are finitely
    /// many.
    pub proof fn lemma_descendants_finite(self, a: u128)
        requires
            self.nodes.dom().finite(),
        ensures
            self.descendants(a).finite(),
            self.descendants(a).subset_of(self.nodes.dom()),
            self.descendants(a).len() <= self.nodes.len(),
    {
        assert forall|d: u128| self.descendants(a).contains(d) implies self.nodes.dom().contains(
            d,
        ) by {
            self.lemma_parent_of_descendant(d, a);
        }
        vstd::set_lib::lemma_len_subset(self.descendants(a), self.nodes.dom());
    }
}

impl Forest {
    /// What a depth-first walk from `start` knows when `seen` are the nodes
    /// found so far and `stack` the nodes still to visit: both hold no node
    /// twice; every node seen lies below `start`; the stack holds only `start`
    /// and nodes seen; the parent of a node seen is `start` or a node seen, and
    /// has left the stack; and the children of each node that has left the
    /// stack have all been seen.
    pub closed spec fn walking(self, start: u128, seen: Seq<u128>, stack: Seq<u128>) -> bool {
        &&& seen.no_duplicates()
        &&& stack.no_duplicates()
        &&& seen.len() <= self.nodes.len()
        &&& forall|i: int| 0 <= i < seen.len() ==> self.is_descendant(#[trigger] seen[i], start)
        &&& forall|i: int|
            0 <= i < stack.len() ==> #[trigger] stack[i] == start || seen.contains(stack[i])
        &&& forall|i: int|
            #![trigger seen[i]]
            0 <= i < seen.len() ==> {
                let q = self.nodes[seen[i]].parent_id->0;
                (q == start || seen.contains(q)) && !stack.contains(q)
            }
        &&& forall|c: u128| #[trigger]
            self.has(c) && self.nodes[c].parent_id is Some && ({
                let p = self.nodes[c].parent_id->0;
                (p == start || seen.contains(p)) && !stack.contains(p)
            }) ==> seen.contains(c)
    }

    /// The walk begins with nothing seen and `start` alone on the stack.
    pub proof fn lemma_walk_start(self, start: u128)
        requires
            self.wf(),
        ensures
            self.walking(start, Seq::empty(), seq![start]),
    {
        let stack = seq![start];
        assert(stack[0] == start);
        assert(stack.contains(start));
    }

    /// One round of the walk: the last node leaves the stack, and its
    /// children, none of them seen before, join the stack and the nodes seen.
    /// The nodes seen stay fewer than the nodes of the forest.
    pub proof fn lemma_walk_step(self, start: u128, seen: Seq<u128>, before: Seq<u128>)
        requires
            self.wf(),
            self.walking(start, seen, before),
            before.len() > 0,
        ensures
            self.walking(
                start,
                seen + self.kids(before.last()),
                before.drop_last() + self.kids(before.last()),
            ),
            seen.len() + self.kids(before.last()).len() <= self.nodes.len(),
    {
        let current = before.last();
        let kids = self.kids(current);
        let found = seen + kids;
        assert(kids.no_duplicates());
        self.lemma_walk_kids(start, seen, before);
        assert forall|c: u128| #[trigger]
            self.has(c) && self.nodes[c].parent_id == Some(current) implies kids.contains(c) by {
            assert(self.kids(current).contains(c));
        }
        self.lemma_walk_advance(start, seen, before, kids);
        assert forall|x: u128| found.to_set().contains(x) implies self.nodes.dom().contains(
            x,
        ) by {
            let i = choose|i: int| 0 <= i < found.len() && found[i] == x;
            assert(self.is_descendant(found[i], start));
            self.lemma_parent_of_descendant(x, start);
        }
        found.unique_seq_to_set();
        vstd::set_lib::lemma_len_subset(found.to_set(), self.nodes.dom());
    }

    /// The children of the node on top of the stack are new to the walk.
    proof fn lemma_walk_kids(self, start: u128, seen: Seq<u128>, before: Seq<u128>)
        requires
            self.wf(),
            self.walking(start, seen, before),
            before.len() > 0,
        ensures
            before.last() == start || seen.contains(before.last()),
            forall|x: u128| #[trigger]
                self.kids(before.last()).contains(x) ==> {
                    &&& x != start
                    &&& !seen.contains(x)
                    &&& self.has(x)
                    &&& self.nodes[x].parent_id == Some(before.last())
                    &&& self.is_descendant(x, start)
                },
    {
        let current = before.last();
        assert(before[before.len() - 1] == current);
        assert(before.contains(current));
        if current != start {
            let i = choose|i: int| 0 <= i < seen.len() && seen[i] == current;
            assert(self.is_descendant(seen[i], start));
        }
        self.lemma_no_cycle(start, start);
        assert forall|x: u128| #[trigger] self.kids(current).contains(x) implies {
            &&& x != start
            &&& !seen.contains(x)
            &&& self.has(x)
            &&& self.nodes[x].parent_id == Some(current)
            &&& self.is_descendant(x, start)
        } by {
            self.lemma_child_is_descendant(x, start);
            if seen.contains(x) {
                let i = choose|i: int| 0 <= i < seen.len() && seen[i] == x;
                assert(!before.contains(self.nodes[seen[i]].parent_id->0));
            }
        }
    }

    /// The walk goes on once the children `kids` of the node on top of the
    /// stack, all of them new, have replaced it.
    proof fn lemma_walk_advance(self, start: u128, seen: Seq<u128>, before: Seq<u128>, kids: Seq<u128>)
        requires
            self.walking(start, seen, before),
            before.len() > 0,
            kids.no_duplicates(),
            before.last() == start || seen.contains(before.last()),
            forall|x: u128| #[trigger]
                kids.contains(x) ==> {
                    &&& x != start
                    &&& !seen.contains(x)
                    &&& self.has(x)
                    &&& self.nodes[x].parent_id == Some(before.last())
                    &&& self.is_descendant(x, start)
                },
            forall|c: u128| #[trigger]
                self.has(c) && self.nodes[c].parent_id == Some(before.last()) ==> kids.contains(c),
        ensures
            (seen + kids).no_duplicates(),
            (before.drop_last() + kids).no_duplicates(),
            forall|i: int|
                0 <= i < (seen + kids).len() ==> self.is_descendant(
                    #[trigger] (seen + kids)[i],
                    start,
                ),
            forall|i: int|
                0 <= i < (before.drop_last() + kids).len() ==> #[trigger] (before.drop_last()
                    + kids)[i] == start || (seen + kids).contains((before.drop_last() + kids)[i]),
            forall|i: int|
                #![trigger (seen + kids)[i]]
                0 <= i < (seen + kids).len() ==> {
                    let q = self.nodes[(seen + kids)[i]].parent_id->0;
                    (q == start || (seen + kids).contains(q)) && !(before.drop_last()
                        + kids).contains(q)
                },
            forall|c: u128| #[trigger]
                self.has(c) && self.nodes[c].parent_id is Some && ({
                    let p = self.nodes[c].parent_id->0;
                    (p == start || (seen + kids).contains(p)) && !(before.drop_last()
                        + kids).contains(p)
                }) ==> (seen + kids).contains(c),
    {
        let current = before.last();
        let rest = before.drop_last();
        let found = seen + kids;
        let stack = rest + kids;
        lemma_drop_last(before);
        lemma_concat_contains(seen, kids);
        lemma_concat_contains(rest, kids);
        assert forall|x: u128| rest.contains(x) implies x == start || seen.contains(x) by {
            let i = choose|i: int| 0 <= i < before.len() && before[i] == x;
        }
        lemma_concat_no_duplicates(seen, kids);
        lemma_concat_no_duplicates(rest, kids);
        assert forall|i: int| 0 <= i < found.len() implies self.is_descendant(
            #[trigger] found[i],
            start,
        ) by {
            if i < seen.len() {
                assert(found[i] == seen[i]);
            } else {
                assert(kids.contains(kids[i - seen.len()]));
            }
        }
        assert forall|i: int| 0 <= i < stack.len() implies #[trigger] stack[i] == start
            || found.contains(stack[i]) by {
            assert(stack.contains(stack[i]));
        }
        assert forall|i: int|
            #![trigger found[i]]
            0 <= i < found.len() implies {
            let q = self.nodes[found[i]].parent_id->0;
            (q == start || found.contains(q)) && !stack.contains(q)
        } by {
            let q = self.nodes[found[i]].parent_id->0;
            if i < seen.len() {
                assert(found[i] == seen[i]);
                assert((q == start || seen.contains(q)) && !before.contains(q));
            } else {
                assert(kids.contains(kids[i - seen.len()]));
                assert(q == current);
            }
        }
        assert forall|c: u128| #[trigger]
            self.has(c) && self.nodes[c].parent_id is Some && ({
                let p = self.nodes[c].parent_id->0;
                (p == start || found.contains(p)) && !stack.contains(p)
            }) implies found.contains(c) by {
            let p = self.nodes[c].parent_id->0;
            if p != current {
                assert(!before.contains(p));
            }
        }
    }

    /// When the stack is empty the nodes seen are exactly the nodes below
    /// `start`.
    pub proof fn lemma_walk_done(self, start: u128, seen: Seq<u128>)
        requires
            self.wf(),
            self.walking(start, seen, Seq::empty()),
        ensures
            seen.no_duplicates(),
            seen.to_set() == self.descendants(start),
    {
        let stack = Seq::<u128>::empty();
        assert forall|d: u128| seen.to_set().contains(d) <==> self.descendants(start).contains(
            d,
        ) by {
            if seen.to_set().contains(d) {
                let i = choose|i: int| 0 <= i < seen.len() && seen[i] == d;
                assert(self.is_descendant(seen[i], start));
            }
            if self.is_descendant(d, start) {
                assert forall|c: u128| #[trigger]
                    self.has(c) && self.nodes[c].parent_id is Some && (
                    self.nodes[c].parent_id->0 == start || seen.to_set().contains(
                        self.nodes[c].parent_id->0,
                    )) implies seen.to_set().contains(c) by {
                    assert(!stack.contains(self.nodes[c].parent_id->0));
                }
                self.lemma_closed_set_holds_descendants(start, seen.to_set(), d);
            }
        }
        assert(seen.to_set() =~= self.descendants(start));
    }
}

impl Forest {
    /// A node below a child of `a` lies below `a`.
    pub proof fn lemma_descendant_of_child(self, d: u128, c: u128, a: u128)
        requires
            self.is_descendant(d, c),
            self.has(c),
            self.nodes[c].parent_id == Some(a),
        ensures
            self.is_descendant(d, a),
    {
        let n = choose|n: nat| self.climbs_to(d, c, n);
        self.lemma_climb_on(d, c, a, n);
    }

    proof fn lemma_climb_on(self, d: u128, c: u128, a: u128, n: nat)
        requires
            self.climbs_to(d, c, n),
            self.has(c),
            self.nodes[c].parent_id == Some(a),
        ensures
            self.climbs_to(d, a, n + 1),
        decreases n,
    {
        let p = self.nodes[d].parent_id->0;
        if p == c {
            assert(self.climbs_to(c, a, 1));
            assert(self.climbs_to(d, a, 2));
            self.lemma_climb_longer(d, a, 2, n + 1);
        } else {
            self.lemma_climb_on(p, c, a, (n - 1) as nat);
        }
    }

    /// A chain of parent references that is short enough for `n` steps is
    /// short enough for more.
    pub proof fn lemma_climb_longer(self, d: u128, a: u128, n: nat, m: nat)
        requires
            self.climbs_to(d, a, n),
            n <= m,
        ensures
            self.climbs_to(d, a, m),
        decreases n,
    {
        let p = self.nodes[d].parent_id->0;
        if p != a {
            self.lemma_climb_longer(p, a, (n - 1) as nat, (m - 1) as nat);
        }
    }

    /// Of two nodes that have a common node below them, or at them, one
    /// lies below the other, unless they are the same node.
    pub proof fn lemma_ancestors_in_line(self, x: u128, a: u128, b: u128, n: nat)
        requires
            self.climbs_to(x, a, n),
            self.is_descendant(x, b),
        ensures
            a == b || self.is_descendant(a, b) || self.is_descendant(b, a),
        decreases n,
    {
        let p = self.nodes[x].parent_id->0;
        self.lemma_parent_of_descendant(x, b);
        if p == a {
        } else if p == b {
            assert(self.climbs_to(p, a, (n - 1) as nat));
        } else {
            self.lemma_ancestors_in_line(p, a, b, (n - 1) as nat);
        }
    }

    /// Two different nodes with the same parent, or both without a parent,
    /// have no node in common at or below them.
    pub proof fn lemma_siblings_apart(self, a: u128, b: u128, x: u128)
        requires
            self.wf(),
            self.has(a),
            self.has(b),
            a != b,
            self.nodes[a].parent_id == self.nodes[b].parent_id,
            x == a || self.is_descendant(x, a),
        ensures
            x != b,
            !self.is_descendant(x, b),
    {
        // neither sibling lies below the other
        assert(!self.is_descendant(a, b) && !self.is_descendant(b, a)) by {
            if self.is_descendant(a, b) {
                self.lemma_parent_of_descendant(a, b);
                let p = self.nodes[a].parent_id->0;
                self.lemma_child_is_descendant(b, p);
                self.lemma_no_cycle(b, p);
                self.lemma_no_cycle(b, b);
            }
            if self.is_descendant(b, a) {
                self.lemma_parent_of_descendant(b, a);
                let p = self.nodes[b].parent_id->0;
                self.lemma_child_is_descendant(a, p);
                self.lemma_no_cycle(a, p);
                self.lemma_no_cycle(a, a);
            }
        }
        if x != a && self.is_descendant(x, b) {
            let n = choose|n: nat| self.climbs_to(x, a, n);
            self.lemma_ancestors_in_line(x, a, b, n);
        }
    }

    /// A node below `r` is a child of `r` or lies below a child of `r`.
    pub proof fn lemma_descendant_via_child(self, p: u128, r: u128, n: nat)
        requires
            self.wf(),
            self.climbs_to(p, r, n),
        ensures
            among_or_below(self, self.kids(r), p),
        decreases n,
    {
        let kids = self.kids(r);
        let q = self.nodes[p].parent_id->0;
        if q == r {
            assert(self.kids(r).contains(p));
            let j = choose|j: int| 0 <= j < kids.len() && kids[j] == p;
            assert(p == kids[j] || self.is_descendant(p, kids[j]));
        } else {
            self.lemma_descendant_via_child(q, r, (n - 1) as nat);
            let j = choose|j: int|
                0 <= j < kids.len() && (q == #[trigger] kids[j] || self.is_descendant(q, kids[j]));
            self.lemma_child_is_descendant(p, kids[j]);
            assert(p == kids[j] || self.is_descendant(p, kids[j]));
        }
    }

    /// The nodes below `a`, told by children: a node lies below `a` exactly
    /// when it is a child of `a` or lies below a child of `a`.
    pub proof fn lemma_descendants_by_children(self, d: u128, a: u128)
        requires
            self.wf(),
        ensures
            self.is_descendant(d, a) <==> among_or_below(self, self.kids(a), d),
    {
        let kids = self.kids(a);
        if self.is_descendant(d, a) {
            let n = choose|n: nat| self.climbs_to(d, a, n);
            self.lemma_descendant_via_child(d, a, n);
        }
        if among_or_below(self, kids, d) {
            let j = choose|j: int|
                0 <= j < kids.len() && (d == #[trigger] kids[j] || self.is_descendant(d, kids[j]));
            assert(self.kids(a).contains(kids[j]));
            if d == kids[j] {
                self.lemma_child_is_descendant(d, a);
            } else {
                self.lemma_descendant_of_child(d, kids[j], a);
            }
        }
    }
}

} // verus!
