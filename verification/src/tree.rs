//! The tree of focus nodes as it is held in memory, and its mutations.

use std::collections::HashMap;
use vstd::prelude::*;
use vstd::std_specs::hash::group_hash_axioms;
use crate::forest::Forest;
use crate::seqs::{
    lemma_concat_contains, lemma_concat_no_duplicates, lemma_push, vec_contains, vec_remove_value,
    without,
};
use crate::node::{FocusNode, NodeStatus};

verus! {

broadcast use group_hash_axioms;

/// Why a node was not inserted.
#[derive(Clone, Copy, Debug, PartialEq, Eq, Structural)]
pub enum InsertError {
    /// A node with this identity exists already.
    DuplicateId,
    /// The node names itself, or a node below it, as its parent.
    Cycle,
}

/// Why a node was not moved.
#[derive(Clone, Copy, Debug, PartialEq, Eq, Structural)]
pub enum MoveError {
    /// The node was to become its own parent.
    SelfParent,
    /// The node was to be placed under a node that lies below it.
    UnderDescendant,
}

/// The depth and identity of each row of a display list.
pub open spec fn row_keys(rows: Seq<(usize, &FocusNode)>) -> Seq<(nat, u128)> {
    rows.map_values(|r: (usize, &FocusNode)| (r.0 as nat, r.1.id))
}

/// Whether each row of a display list carries a node of `f`, as `f` holds
/// it.
pub open spec fn rows_of(rows: Seq<(usize, &FocusNode)>, f: Forest) -> bool {
    forall|i: int|
        0 <= i < rows.len() ==> f.has((#[trigger] rows[i]).1.id) && *rows[i].1
            == f.nodes[rows[i].1.id]
}

/// All nodes by identity, with the roots and each parent's children in
/// display order.
#[derive(Clone, Debug)]
pub struct FocusTree {
    pub nodes: HashMap<u128, FocusNode>,
    pub root_ids: Vec<u128>,
    pub children_map: HashMap<u128, Vec<u128>>,
    /// Set by every mutation; cleared once the tree has been stored.
    pub dirty: bool,
}

impl View for FocusTree {
    type V = Forest;

    open spec fn view(&self) -> Forest {
        Forest {
            nodes: self.nodes@,
            roots: self.root_ids@,
            children: self.children_map@.map_values(|v: Vec<u128>| v@),
        }
    }
}

impl Default for FocusTree {
    /// An empty tree, not dirty.
    fn default() -> (tree: FocusTree)
        ensures
            tree.wf(),
            tree@ == Forest::empty(),
            !tree.dirty,
    {
        FocusTree::new()
    }
}

impl FocusTree {
    /// The invariant of the tree: that of its forest.
    pub open spec fn wf(&self) -> bool {
        self@.wf()
    }

    /// An empty tree, not dirty.
    pub fn new() -> (tree: FocusTree)
        ensures
            tree.wf(),
            tree@ == Forest::empty(),
            !tree.dirty,
    {
        let tree = FocusTree {
            nodes: HashMap::new(),
            root_ids: Vec::new(),
            children_map: HashMap::new(),
            dirty: false,
        };
        proof {
            assert(tree@.children =~= Map::<u128, Seq<u128>>::empty());
            assert(tree@.ranked_by(|id: u128| 0nat));
        }
        tree
    }

    /// Every node below `node_id`, each once, found by a depth-first walk
    /// that keeps the nodes still to visit on a stack.
    pub fn get_all_descendants(&self, node_id: u128) -> (found: Vec<u128>)
        requires
            self.wf(),
        ensures
            found@.no_duplicates(),
            found@.to_set() == self@.descendants(node_id),
    {
        let ghost f = self@;
        let mut descendants: Vec<u128> = Vec::new();
        let mut stack: Vec<u128> = Vec::new();
        stack.push(node_id);
        proof {
            assert(stack@ == seq![node_id]);
            f.lemma_walk_start(node_id);
        }
        while stack.len() > 0
            invariant
                f == self@,
                f.wf(),
                f.walking(node_id, descendants@, stack@),
            decreases f.nodes.len() - descendants@.len() + stack@.len(),
        {
            let ghost before = stack@;
            let ghost seen = descendants@;
            let current = stack.pop().unwrap();
            let ghost rest = stack@;
            let ghost kids = f.kids(current);
            proof {
                assert(rest == before.drop_last());
                assert(current == before.last());
                f.lemma_walk_step(node_id, seen, before);
            }
            match self.children_map.get(&current) {
                Some(children) => {
                    assert(children@ == kids);
                    let mut j: usize = 0;
                    while j < children.len()
                        invariant
                            j <= children.len(),
                            children@ == kids,
                            descendants@ == seen + kids.take(j as int),
                            stack@ == rest + kids.take(j as int),
                        decreases children.len() - j,
                    {
                        let child = children[j];
                        descendants.push(child);
                        stack.push(child);
                        proof {
                            assert(kids.take(j as int + 1) == kids.take(j as int).push(
                                kids[j as int],
                            ));
                        }
                        j += 1;
                    }
                    assert(kids.take(kids.len() as int) == kids);
                },
                None => {
                    assert(kids == Seq::<u128>::empty());
                },
            }
            assert(descendants@ == seen + kids);
            assert(stack@ == rest + kids);
        }
        proof {
            assert(stack@ == Seq::<u128>::empty());
            f.lemma_walk_done(node_id, descendants@);
        }
        descendants
    }

    /// Whether a node with this identity exists.
    pub fn contains(&self, id: u128) -> (found: bool)
        ensures
            found == self@.has(id),
    {
        self.nodes.contains_key(&id)
    }

    /// The node with this identity, if it exists.
    pub fn get(&self, id: u128) -> (node: Option<&FocusNode>)
        ensures
            match node {
                Some(n) => self@.has(id) && *n == self@.nodes[id],
                None => !self@.has(id),
            },
    {
        self.nodes.get(&id)
    }

    /// The number of nodes.
    pub fn len(&self) -> (count: usize)
        ensures
            count == self@.nodes.len(),
    {
        self.nodes.len()
    }

    /// Appends `id` to the roots, or to the children listed under `parent`.
    fn link(&mut self, id: u128, parent: Option<u128>)
        ensures
            final(self).nodes == old(self).nodes,
            final(self).dirty == old(self).dirty,
            final(self)@.roots == old(self)@.roots_with(id, parent),
            final(self)@.children == old(self)@.children_with(id, parent),
    {
        match parent {
            None => {
                self.root_ids.push(id);
            },
            Some(p) => {
                let mut list = match self.children_map.remove(&p) {
                    Some(l) => l,
                    None => Vec::new(),
                };
                assert(list@ == old(self)@.kids(p));
                list.push(id);
                self.children_map.insert(p, list);
                assert(self@.children =~= old(self)@.children_with(id, parent));
            },
        }
    }

    /// Takes `id` out of the roots, or out of the children listed under
    /// `parent`, dropping a child list left empty.
    fn unlink(&mut self, id: u128, parent: Option<u128>)
        requires
            old(self).wf(),
        ensures
            final(self).nodes == old(self).nodes,
            final(self).dirty == old(self).dirty,
            final(self)@.roots == match parent {
                None => without(old(self)@.roots, id),
                Some(_) => old(self)@.roots,
            },
            final(self)@.children == match parent {
                None => old(self)@.children,
                Some(p) => old(self)@.children_without(p, id),
            },
    {
        match parent {
            None => {
                vec_remove_value(&mut self.root_ids, id);
            },
            Some(p) => {
                assert(old(self)@.kids(p).no_duplicates());
                match self.children_map.remove(&p) {
                    Some(mut list) => {
                        assert(list@ == old(self)@.kids(p));
                        vec_remove_value(&mut list, id);
                        if list.len() > 0 {
                            self.children_map.insert(p, list);
                        }
                    },
                    None => {},
                }
                assert(self@.children =~= old(self)@.children_without(p, id));
            },
        }
    }

    /// Removes the nodes `ids` and the child lists kept under them.
    fn forget(&mut self, ids: &Vec<u128>)
        ensures
            final(self).root_ids == old(self).root_ids,
            final(self).dirty == old(self).dirty,
            final(self).nodes@ == old(self).nodes@.remove_keys(ids@.to_set()),
            final(self).children_map@ == old(self).children_map@.remove_keys(ids@.to_set()),
    {
        let ghost nodes = self.nodes@;
        let ghost lists = self.children_map@;
        let mut i: usize = 0;
        proof {
            assert(ids@.take(0).to_set() =~= Set::<u128>::empty());
            assert(self.nodes@ =~= nodes.remove_keys(ids@.take(0).to_set()));
            assert(self.children_map@ =~= lists.remove_keys(ids@.take(0).to_set()));
        }
        while i < ids.len()
            invariant
                i <= ids.len(),
                self.root_ids == old(self).root_ids,
                self.dirty == old(self).dirty,
                self.nodes@ == nodes.remove_keys(ids@.take(i as int).to_set()),
                self.children_map@ == lists.remove_keys(ids@.take(i as int).to_set()),
            decreases ids.len() - i,
        {
            let x = ids[i];
            self.nodes.remove(&x);
            self.children_map.remove(&x);
            proof {
                let done = ids@.take(i as int).to_set();
                assert(ids@.take(i as int + 1) == ids@.take(i as int).push(x));
                assert(ids@.take(i as int + 1).to_set() =~= done.insert(x)) by {
                    lemma_push(ids@.take(i as int), x);
                }
                assert(self.nodes@ =~= nodes.remove_keys(done.insert(x)));
                assert(self.children_map@ =~= lists.remove_keys(done.insert(x)));
            }
            i += 1;
        }
        assert(ids@.take(ids@.len() as int) == ids@);
    }

    /// Inserts `node` as the last root, or as the last child of its parent.
    /// The parent need not exist: a node under a missing parent is kept but
    /// not displayed. A node whose identity is in use, or whose parent
    /// reference would close a cycle, is refused and the tree stays as it was.
    pub fn insert_node(&mut self, node: FocusNode) -> (result: Result<(), InsertError>)
        requires
            old(self).wf(),
        ensures
            final(self).wf(),
            match result {
                Ok(()) => {
                    &&& old(self)@.can_insert(node)
                    &&& final(self)@ == old(self)@.after_insert(node)
                    &&& final(self).dirty
                },
                Err(InsertError::DuplicateId) => {
                    &&& old(self)@.has(node.id)
                    &&& *final(self) == *old(self)
                },
                Err(InsertError::Cycle) => {
                    &&& !old(self)@.has(node.id)
                    &&& !old(self)@.link_ok(node.id, node.parent_id)
                    &&& *final(self) == *old(self)
                },
            },
    {
        let id = node.id;
        let parent = node.parent_id;
        if self.nodes.contains_key(&id) {
            return Err(InsertError::DuplicateId);
        }
        match parent {
            Some(p) => {
                if p == id {
                    return Err(InsertError::Cycle);
                }
                let below = self.get_all_descendants(id);
                let under = vec_contains(&below, p);
                assert(under == self@.is_descendant(p, id)) by {
                    assert(self@.descendants(id).contains(p) == below@.to_set().contains(p));
                }
                if under {
                    return Err(InsertError::Cycle);
                }
            },
            None => {},
        }
        self.link(id, parent);
        self.nodes.insert(id, node);
        self.dirty = true;
        proof {
            assert(self@ == old(self)@.after_insert(node));
            old(self)@.lemma_insert_wf(node);
        }
        Ok(())
    }

    /// Creates an active node with a random identity, stamped with the
    /// present time, and inserts it as [`FocusTree::insert_node`] does.
    /// Returns its identity. Returns `None`, the tree unchanged, only when
    /// the node made cannot be inserted: its identity is in use, or is that
    /// of its parent or of a node above its parent. So a root is always added
    /// to an empty tree.
    pub fn add_node(
        &mut self,
        title: String,
        content: String,
        parent_id: Option<u128>,
    ) -> (added: Option<u128>)
        requires
            old(self).wf(),
        ensures
            final(self).wf(),
            match added {
                Some(id) => {
                    let node = final(self)@.nodes[id];
                    &&& final(self)@.has(id)
                    &&& node.id == id
                    &&& node.title == title
                    &&& node.content == content
                    &&& node.parent_id == parent_id
                    &&& node.status == NodeStatus::Active
                    &&& node.streak_days == 0
                    &&& old(self)@.can_insert(node)
                    &&& final(self)@ == old(self)@.after_insert(node)
                    &&& final(self).dirty
                },
                None => *final(self) == *old(self),
            },
            exists|node: FocusNode|
                {
                    &&& #[trigger] node.made_of(title, content, parent_id)
                    &&& if old(self)@.can_insert(node) {
                        &&& added == Some(node.id)
                        &&& final(self)@ == old(self)@.after_insert(node)
                    } else {
                        added is None
                    }
                },
            old(self)@.nodes.len() == 0 && parent_id is None ==> added is Some,
    {
        let node = FocusNode::new(title, content, parent_id);
        let id = node.id;
        let ghost made = node;
        proof {
            assert(made.made_of(title, content, parent_id));
            if self@.nodes.len() == 0 {
                assert(self@.nodes.dom().finite());
                assert(!self@.has(id)) by {
                    if self@.has(id) {
                        assert(self@.nodes.dom().contains(id));
                        assert(self@.nodes.dom().len() > 0);
                    }
                }
            }
        }
        match self.insert_node(node) {
            Ok(()) => Some(id),
            Err(_) => None,
        }
    }

    /// Removes `node_id` and every node below it, and returns the removed
    /// identities, `node_id` first. A missing `node_id` removes nothing.
    pub fn delete_node(&mut self, node_id: u128) -> (removed: Vec<u128>)
        requires
            old(self).wf(),
        ensures
            final(self).wf(),
            final(self)@ == old(self)@.after_delete(node_id),
            final(self).dirty == (old(self).dirty || old(self)@.has(node_id)),
            removed@.no_duplicates(),
            removed@.to_set() == if old(self)@.has(node_id) {
                old(self)@.descendants(node_id).insert(node_id)
            } else {
                Set::<u128>::empty()
            },
            old(self)@.has(node_id) ==> removed@[0] == node_id,
            final(self)@.nodes.len() + removed@.len() == old(self)@.nodes.len(),
    {
        let ghost f = self@;
        let parent = match self.nodes.get(&node_id) {
            None => {
                let none: Vec<u128> = Vec::new();
                assert(none@.to_set() =~= Set::<u128>::empty());
                return none;
            },
            Some(node) => node.parent_id,
        };
        let mut deleted: Vec<u128> = Vec::new();
        deleted.push(node_id);
        let mut below = self.get_all_descendants(node_id);
        let ghost below_seq = below@;
        deleted.append(&mut below);
        proof {
            f.lemma_no_cycle(node_id, node_id);
            assert(deleted@ == seq![node_id] + below_seq);
            assert forall|x: u128| seq![node_id].contains(x) implies !below_seq.contains(x) by {
                assert(below_seq.to_set().contains(x) == f.descendants(node_id).contains(x));
            }
            lemma_concat_no_duplicates(seq![node_id], below_seq);
            assert(deleted@.to_set() =~= f.descendants(node_id).insert(node_id)) by {
                lemma_concat_contains(seq![node_id], below_seq);
                assert forall|x: u128|
                    deleted@.to_set().contains(x) == f.descendants(node_id).insert(
                        node_id,
                    ).contains(x) by {
                    assert(below_seq.to_set().contains(x) == f.descendants(node_id).contains(x));
                    assert(seq![node_id].contains(x) <==> x == node_id) by {
                        if x == node_id {
                            assert(seq![node_id][0] == x);
                        }
                    }
                }
            }
        }
        self.unlink(node_id, parent);
        self.forget(&deleted);
        self.dirty = true;
        proof {
            let gone = f.descendants(node_id).insert(node_id);
            assert(self@.nodes =~= f.nodes.remove_keys(gone));
            assert(self@.children =~= f.unlinked(node_id).children.remove_keys(gone));
            assert(self@ == f.after_delete(node_id));
            f.lemma_delete_wf(node_id);
            f.lemma_descendants_finite(node_id);
            deleted@.unique_seq_to_set();
        }
        deleted
    }

    /// Marks `node_id` failed and removes every node below it; the node
    /// itself stays. Returns the removed identities. A missing `node_id`
    /// changes nothing.
    pub fn fail_node(&mut self, node_id: u128) -> (removed: Vec<u128>)
        requires
            old(self).wf(),
        ensures
            final(self).wf(),
            final(self)@ == old(self)@.after_fail(node_id),
            final(self).dirty == (old(self).dirty || old(self)@.has(node_id)),
            removed@.no_duplicates(),
            removed@.to_set() == if old(self)@.has(node_id) {
                old(self)@.descendants(node_id)
            } else {
                Set::<u128>::empty()
            },
            final(self)@.nodes.len() + removed@.len() == old(self)@.nodes.len(),
    {
        let ghost f = self@;
        if !self.nodes.contains_key(&node_id) {
            let none: Vec<u128> = Vec::new();
            assert(none@.to_set() =~= Set::<u128>::empty());
            return none;
        }
        let below = self.get_all_descendants(node_id);
        let mut node = self.nodes.remove(&node_id).unwrap();
        node.status = NodeStatus::Failed;
        self.nodes.insert(node_id, node);
        self.children_map.remove(&node_id);
        self.forget(&below);
        self.dirty = true;
        proof {
            let gone = f.descendants(node_id);
            f.lemma_no_cycle(node_id, node_id);
            assert(!gone.contains(node_id));
            assert(self@.nodes =~= f.after_fail(node_id).nodes);
            assert(self@.children =~= f.children.remove_keys(gone.insert(node_id)));
            assert(self@ == f.after_fail(node_id));
            f.lemma_fail_wf(node_id);
            f.lemma_descendants_finite(node_id);
            below@.unique_seq_to_set();
        }
        below
    }

    /// Makes a failed node active again. A node that is not failed, or is
    /// missing, is left as it is; nothing removed earlier comes back.
    pub fn recover_node(&mut self, node_id: u128)
        requires
            old(self).wf(),
        ensures
            final(self).wf(),
            final(self)@ == old(self)@.after_recover(node_id),
            final(self).dirty == (old(self).dirty || old(self)@ != old(self)@.after_recover(
                node_id,
            )),
    {
        let failed = match self.nodes.get(&node_id) {
            Some(node) => node.status == NodeStatus::Failed,
            None => false,
        };
        if failed {
            let mut node = self.nodes.remove(&node_id).unwrap();
            node.status = NodeStatus::Active;
            self.nodes.insert(node_id, node);
            self.dirty = true;
            proof {
                assert(self@.nodes =~= old(self)@.after_recover(node_id).nodes);
                assert(self@ == old(self)@.after_recover(node_id));
                old(self)@.lemma_recover_wf(node_id);
                assert(old(self)@.nodes[node_id] != self@.nodes[node_id]);
            }
        }
    }

    /// Moves `node_id` to the end of the roots (`None`) or of the children
    /// of `new_parent`; the nodes below it follow. Refused, the tree
    /// unchanged, when `new_parent` is the node itself or lies below it.
    /// A missing `node_id` moves nothing.
    pub fn move_node(
        &mut self,
        node_id: u128,
        new_parent: Option<u128>,
    ) -> (result: Result<(), MoveError>)
        requires
            old(self).wf(),
        ensures
            final(self).wf(),
            match result {
                Ok(()) => {
                    &&& old(self)@.link_ok(node_id, new_parent)
                    &&& final(self)@ == old(self)@.after_move(node_id, new_parent)
                    &&& final(self).dirty == (old(self).dirty || old(self)@.has(node_id))
                },
                Err(MoveError::SelfParent) => {
                    &&& new_parent == Some(node_id)
                    &&& *final(self) == *old(self)
                },
                Err(MoveError::UnderDescendant) => {
                    &&& new_parent is Some
                    &&& new_parent != Some(node_id)
                    &&& old(self)@.is_descendant(new_parent->0, node_id)
                    &&& *final(self) == *old(self)
                },
            },
    {
        let ghost f = self@;
        match new_parent {
            Some(p) => {
                if p == node_id {
                    return Err(MoveError::SelfParent);
                }
                let below = self.get_all_descendants(node_id);
                let under = vec_contains(&below, p);
                assert(under == f.is_descendant(p, node_id)) by {
                    assert(f.descendants(node_id).contains(p) == below@.to_set().contains(p));
                }
                if under {
                    return Err(MoveError::UnderDescendant);
                }
            },
            None => {},
        }
        let old_parent = match self.nodes.get(&node_id) {
            None => {
                return Ok(());
            },
            Some(node) => node.parent_id,
        };
        self.unlink(node_id, old_parent);
        let mut node = self.nodes.remove(&node_id).unwrap();
        node.parent_id = new_parent;
        self.nodes.insert(node_id, node);
        proof {
            assert(self@.roots == f.unlinked(node_id).roots);
            assert(self@.children == f.unlinked(node_id).children);
        }
        self.link(node_id, new_parent);
        self.dirty = true;
        proof {
            assert(self@.nodes =~= f.after_move(node_id, new_parent).nodes);
            assert(self@ == f.after_move(node_id, new_parent));
            f.lemma_move_wf(node_id, new_parent);
        }
        Ok(())
    }

    /// Records that the tree has been stored as it stands.
    pub fn mark_saved(&mut self)
        ensures
            *final(self) == (FocusTree { dirty: false, ..*old(self) }),
    {
        self.dirty = false;
    }

    /// Replaces the title of `node_id`; a missing node changes nothing.
    pub fn set_title(&mut self, node_id: u128, title: String)
        requires
            old(self).wf(),
        ensures
            final(self).wf(),
            final(self)@ == old(self)@.after_retitle(node_id, title),
            final(self).dirty == (old(self).dirty || old(self)@.has(node_id)),
    {
        if self.nodes.contains_key(&node_id) {
            let mut node = self.nodes.remove(&node_id).unwrap();
            node.title = title;
            self.nodes.insert(node_id, node);
            self.dirty = true;
            proof {
                assert(self@.nodes =~= old(self)@.after_retitle(node_id, title).nodes);
                assert(self@ == old(self)@.after_retitle(node_id, title));
                assert(self@.nodes.dom() =~= old(self)@.nodes.dom());
                old(self)@.lemma_same_links_wf(self@);
            }
        }
    }

    /// Replaces the content of `node_id`; a missing node changes nothing.
    pub fn set_content(&mut self, node_id: u128, content: String)
        requires
            old(self).wf(),
        ensures
            final(self).wf(),
            final(self)@ == old(self)@.after_rewrite(node_id, content),
            final(self).dirty == (old(self).dirty || old(self)@.has(node_id)),
    {
        if self.nodes.contains_key(&node_id) {
            let mut node = self.nodes.remove(&node_id).unwrap();
            node.content = content;
            self.nodes.insert(node_id, node);
            self.dirty = true;
            proof {
                assert(self@.nodes =~= old(self)@.after_rewrite(node_id, content).nodes);
                assert(self@ == old(self)@.after_rewrite(node_id, content));
                assert(self@.nodes.dom() =~= old(self)@.nodes.dom());
                old(self)@.lemma_same_links_wf(self@);
            }
        }
    }

    /// The children of `node_id`, in order.
    pub fn get_children(&self, node_id: u128) -> (children: Vec<&FocusNode>)
        requires
            self.wf(),
        ensures
            children@.len() == self@.kids(node_id).len(),
            forall|i: int|
                0 <= i < children@.len() ==> *#[trigger] children@[i] == self@.nodes[self@.kids(
                    node_id,
                )[i]],
    {
        let mut found: Vec<&FocusNode> = Vec::new();
        match self.children_map.get(&node_id) {
            Some(ids) => {
                let mut i: usize = 0;
                while i < ids.len()
                    invariant
                        self.wf(),
                        ids@ == self@.kids(node_id),
                        i <= ids.len(),
                        found@.len() == i,
                        forall|j: int|
                            0 <= j < i ==> *#[trigger] found@[j] == self@.nodes[ids@[j]],
                    decreases ids.len() - i,
                {
                    assert(self@.kids(node_id).contains(ids@[i as int]));
                    match self.nodes.get(&ids[i]) {
                        Some(node) => {
                            found.push(node);
                        },
                        None => {},
                    }
                    i += 1;
                }
            },
            None => {},
        }
        found
    }

    /// The roots, in order.
    pub fn get_roots(&self) -> (roots: Vec<&FocusNode>)
        requires
            self.wf(),
        ensures
            roots@.len() == self@.roots.len(),
            forall|i: int|
                0 <= i < roots@.len() ==> *#[trigger] roots@[i] == self@.nodes[self@.roots[i]],
    {
        let mut found: Vec<&FocusNode> = Vec::new();
        let mut i: usize = 0;
        while i < self.root_ids.len()
            invariant
                self.wf(),
                i <= self.root_ids.len(),
                found@.len() == i,
                forall|j: int| 0 <= j < i ==> *#[trigger] found@[j] == self@.nodes[self@.roots[j]],
            decreases self.root_ids.len() - i,
        {
            assert(self@.roots.contains(self@.roots[i as int]));
            match self.nodes.get(&self.root_ids[i]) {
                Some(node) => {
                    found.push(node);
                },
                None => {},
            }
            i += 1;
        }
        found
    }

    /// Appends to `rows` the node `node_id`, standing at `depth`, and then
    /// the nodes below it, children in order. `above` holds the nodes on the
    /// way down to `node_id`.
    fn traverse<'a>(
        &'a self,
        node_id: u128,
        depth: usize,
        rows: &mut Vec<(usize, &'a FocusNode)>,
        Ghost(above): Ghost<Set<u128>>,
    )
        requires
            self.wf(),
            above.finite(),
            above.len() == depth,
            above.subset_of(self@.nodes.dom()),
            forall|a: u128| above.contains(a) ==> self@.is_descendant(node_id, a),
            rows_of(old(rows)@, self@),
        ensures
            depth <= self@.nodes.len(),
            row_keys(final(rows)@) == row_keys(old(rows)@) + self@.subtree_rows(
                node_id,
                depth as nat,
                (self@.nodes.len() - depth) as nat,
            ),
            rows_of(final(rows)@, self@),
        decreases self@.nodes.len() - depth,
    {
        let ghost f = self@;
        let ghost before = row_keys(rows@);
        let total = self.nodes.len();
        proof {
            vstd::set_lib::lemma_len_subset(above, f.nodes.dom());
        }
        match self.nodes.get(&node_id) {
            None => {
                assert(row_keys(rows@) =~= before + Seq::<(nat, u128)>::empty());
            },
            Some(node) => {
                let ghost inner = above.insert(node_id);
                let ghost fuel = (f.nodes.len() - depth - 1) as nat;
                proof {
                    f.lemma_no_cycle(node_id, node_id);
                    assert(!above.contains(node_id));
                    assert(inner.subset_of(f.nodes.dom()));
                    vstd::set_lib::lemma_len_subset(inner, f.nodes.dom());
                }
                assert(f.has(node_id));
                assert(node.id == node_id);
                rows.push((depth, node));
                assert(row_keys(rows@) =~= before + seq![(depth as nat, node_id)]);
                match self.children_map.get(&node_id) {
                    Some(ids) => {
                        let mut j: usize = 0;
                        assert(ids@.take(0) =~= Seq::<u128>::empty());
                        while j < ids.len()
                            invariant
                                self.wf(),
                                f == self@,
                                ids@ == f.kids(node_id),
                                j <= ids.len(),
                                f.has(node_id),
                                inner == above.insert(node_id),
                                inner.finite(),
                                inner.len() == depth + 1,
                                inner.subset_of(f.nodes.dom()),
                                depth + 1 <= f.nodes.len(),
                                f.nodes.len() == total,
                                fuel == (f.nodes.len() - depth - 1) as nat,
                                forall|a: u128| above.contains(a) ==> f.is_descendant(node_id, a),
                                row_keys(rows@) == before + seq![(depth as nat, node_id)]
                                    + f.forest_rows(ids@.take(j as int), (depth + 1) as nat, fuel),
                                rows_of(rows@, f),
                            decreases ids.len() - j,
                        {
                            let child = ids[j];
                            let ghost sofar = row_keys(rows@);
                            proof {
                                assert(f.kids(node_id).contains(child));
                                assert forall|a: u128| inner.contains(a) implies f.is_descendant(
                                    child,
                                    a,
                                ) by {
                                    f.lemma_child_is_descendant(child, a);
                                }
                            }
                            self.traverse(child, depth + 1, rows, Ghost(inner));
                            proof {
                                let upto = ids@.take(j as int + 1);
                                assert(upto.drop_last() == ids@.take(j as int));
                                assert(upto.last() == child);
                            }
                            j += 1;
                        }
                        assert(ids@.take(ids@.len() as int) == ids@);
                    },
                    None => {
                        assert(f.kids(node_id) == Seq::<u128>::empty());
                    },
                }
            },
        }
    }

    /// The display order: every displayed node with its depth, roots at
    /// depth zero, each node before the nodes below it, children in order.
    pub fn flatten_for_display(&self) -> (rows: Vec<(usize, &FocusNode)>)
        requires
            self.wf(),
        ensures
            row_keys(rows@) == self@.display_rows(),
            rows_of(rows@, self@),
    {
        let mut rows: Vec<(usize, &FocusNode)> = Vec::new();
        let mut i: usize = 0;
        proof {
            assert(self@.roots.take(0) =~= Seq::<u128>::empty());
            assert(row_keys(rows@) =~= Seq::<(nat, u128)>::empty());
        }
        while i < self.root_ids.len()
            invariant
                self.wf(),
                i <= self.root_ids.len(),
                row_keys(rows@) == self@.forest_rows(
                    self@.roots.take(i as int),
                    0,
                    self@.nodes.len(),
                ),
                rows_of(rows@, self@),
            decreases self.root_ids.len() - i,
        {
            let root = self.root_ids[i];
            self.traverse(root, 0, &mut rows, Ghost(Set::empty()));
            proof {
                let upto = self@.roots.take(i as int + 1);
                assert(upto.drop_last() == self@.roots.take(i as int));
                assert(upto.last() == root);
            }
            i += 1;
        }
        assert(self@.roots.take(self@.roots.len() as int) == self@.roots);
        rows
    }
}

} // verus!
