//! The stored form of a tree: a header and the node records, and the
//! conversions between it and the tree in memory.

use std::collections::HashSet;
use vstd::prelude::*;
use vstd::std_specs::hash::group_hash_axioms;
use vstd::std_specs::iter::IteratorSpec;
use crate::forest::Forest;
use crate::node::FocusNode;
use crate::reload::{lemma_listing_is_complete, lemma_stored_in_display_order_loads};
use crate::time::{current_time, Timestamp};
use crate::tree::{row_keys, rows_of, FocusTree, InsertError};

verus! {

broadcast use group_hash_axioms;

/// The header of a stored tree.
#[derive(Clone, Debug)]
pub struct TreeMeta {
    /// The version of the format.
    pub version: String,
    pub created_at: Timestamp,
    pub last_modified: Timestamp,
}

/// A stored tree: the header and one record for each node.
#[derive(Clone, Debug)]
pub struct FocusTreeData {
    pub meta: TreeMeta,
    pub nodes: Vec<FocusNode>,
}

/// The version that this library writes.
pub open spec fn format_version() -> Seq<char> {
    "1.0"@
}

impl TreeMeta {
    /// A header of the current format version, created and last modified at
    /// `now`.
    pub fn stamped(now: Timestamp) -> (meta: TreeMeta)
        ensures
            meta.version@ == format_version(),
            meta.created_at == now,
            meta.last_modified == now,
    {
        TreeMeta { version: "1.0".to_owned(), created_at: now, last_modified: now }
    }
}

impl Default for FocusTreeData {
    /// No records, under a header stamped with the present time.
    fn default() -> (data: FocusTreeData)
        ensures
            data.nodes@.len() == 0,
            data.meta.version@ == format_version(),
            data.meta.created_at == data.meta.last_modified,
    {
        FocusTreeData { meta: TreeMeta::stamped(current_time()), nodes: Vec::new() }
    }
}

/// Why stored records do not make a tree: the record at `index` is the first
/// that cannot be inserted after those before it, for the reason given.
#[derive(Clone, Copy, Debug, PartialEq, Eq, Structural)]
pub struct LoadError {
    pub index: usize,
    pub reason: InsertError,
}

/// Whether `records` list nodes of `f`, as `f` holds them, none twice.
pub open spec fn lists_nodes_of(records: Seq<FocusNode>, f: Forest) -> bool {
    &&& forall|i: int|
        0 <= i < records.len() ==> f.has((#[trigger] records[i]).id) && records[i]
            == f.nodes[records[i].id]
    &&& forall|i: int, j: int|
        0 <= i < j < records.len() ==> (#[trigger] records[i]).id != (#[trigger] records[j]).id
}

/// The forest that comes of inserting `records` one after the other into an
/// empty forest; `None` when one of them cannot be inserted.
pub open spec fn loaded(records: Seq<FocusNode>) -> Option<Forest>
    decreases records.len(),
{
    if records.len() == 0 {
        Some(Forest::empty())
    } else {
        match loaded(records.drop_last()) {
            Some(f) => if f.can_insert(records.last()) {
                Some(f.after_insert(records.last()))
            } else {
                None
            },
            None => None,
        }
    }
}

impl FocusTree {
    /// Builds the tree that the records describe, inserting them in order.
    /// A record may come before the record of its parent. Fails at the first
    /// record that repeats an identity or closes a cycle of parent references.
    /// The tree built is not dirty.
    pub fn from_data(data: FocusTreeData) -> (result: Result<FocusTree, LoadError>)
        ensures
            match result {
                Ok(tree) => {
                    &&& tree.wf()
                    &&& loaded(data.nodes@) == Some(tree@)
                    &&& !tree.dirty
                },
                Err(e) => {
                    &&& e.index < data.nodes@.len()
                    &&& loaded(data.nodes@.take(e.index as int)) matches Some(f)
                    &&& match e.reason {
                        InsertError::DuplicateId => f.has(data.nodes@[e.index as int].id),
                        InsertError::Cycle => !f.has(data.nodes@[e.index as int].id) && !f.link_ok(
                            data.nodes@[e.index as int].id,
                            data.nodes@[e.index as int].parent_id,
                        ),
                    }
                    &&& loaded(data.nodes@) is None
                },
            },
    {
        let mut tree = FocusTree::new();
        let mut i: usize = 0;
        assert(data.nodes@.take(0) =~= Seq::<FocusNode>::empty());
        while i < data.nodes.len()
            invariant
                i <= data.nodes.len(),
                tree.wf(),
                loaded(data.nodes@.take(i as int)) == Some(tree@),
            decreases data.nodes.len() - i,
        {
            let record = data.nodes[i].duplicate();
            proof {
                let upto = data.nodes@.take(i as int + 1);
                assert(upto.drop_last() == data.nodes@.take(i as int));
                assert(upto.last() == record);
            }
            match tree.insert_node(record) {
                Ok(()) => {},
                Err(reason) => {
                    proof {
                        lemma_loaded_prefix(data.nodes@, i as int + 1);
                    }
                    return Err(LoadError { index: i, reason });
                },
            }
            i += 1;
        }
        assert(data.nodes@.take(data.nodes@.len() as int) == data.nodes@);
        tree.dirty = false;
        Ok(tree)
    }

    /// The stored form of the tree: one record for each node, under a
    /// header stamped with the present time. The displayed nodes come first,
    /// in display order, so that roots and children load again in the order
    /// they are shown in; the nodes that are not displayed follow in no
    /// particular order.
    pub fn to_data(&self) -> (data: FocusTreeData)
        requires
            self.wf(),
        ensures
            data.meta.version@ == format_version(),
            data.meta.created_at == data.meta.last_modified,
            data.nodes@.len() == self@.nodes.len(),
            lists_nodes_of(data.nodes@, self@),
            forall|id: u128|
                self@.has(id) ==> exists|i: int|
                    0 <= i < data.nodes@.len() && (#[trigger] data.nodes@[i]).id == id,
            self@.display_rows().len() <= data.nodes@.len(),
            forall|i: int|
                0 <= i < self@.display_rows().len() ==> (#[trigger] data.nodes@[i]).id
                    == self@.display_rows()[i].1,
            loaded(data.nodes@) matches Some(g) && g.wf() && g.nodes == self@.nodes && g.roots
                == self@.roots && g.display_rows() == self@.display_rows(),
    {
        let ghost f = self@;
        let ghost shown = f.display_rows();
        let rows = self.flatten_for_display();
        let mut records: Vec<FocusNode> = Vec::new();
        let mut listed: HashSet<u128> = HashSet::new();
        let mut i: usize = 0;
        proof {
            f.lemma_display_rows_distinct();
            assert(row_keys(rows@).len() == rows@.len());
        }
        while i < rows.len()
            invariant
                i <= rows.len(),
                rows@.len() == shown.len(),
                row_keys(rows@) == shown,
                rows_of(rows@, f),
                records@.len() == i,
                forall|j: int| 0 <= j < i ==> (#[trigger] records@[j]) == *rows@[j].1,
                forall|id: u128|
                    listed@.contains(id) <==> exists|j: int|
                        0 <= j < i && (#[trigger] rows@[j]).1.id == id,
            decreases rows.len() - i,
        {
            let node = rows[i].1;
            records.push(node.duplicate());
            listed.insert(node.id);
            i += 1;
        }
        let ghost first = records@;
        let ghost keys = self.nodes.keys().remaining();
        assert forall|j: int| 0 <= j < first.len() implies (#[trigger] first[j]).id == shown[j].1
            && listed@.contains(first[j].id) by {
            assert(row_keys(rows@)[j] == (rows@[j].0 as nat, rows@[j].1.id));
            assert(rows@[j].1.id == first[j].id);
        }
        assert forall|id: u128| listed@.contains(id) implies exists|j: int|
            0 <= j < first.len() && (#[trigger] first[j]).id == id by {
            let j = choose|j: int| 0 <= j < rows@.len() && (#[trigger] rows@[j]).1.id == id;
            assert(first[j].id == id);
        }
        for key in it: self.nodes.keys()
            invariant
                self.wf(),
                f == self@,
                it.seq() == keys,
                keys == self.nodes.keys().remaining(),
                first.len() == shown.len(),
                first.len() <= records@.len(),
                forall|j: int| 0 <= j < first.len() ==> (#[trigger] records@[j]) == first[j],
                forall|j: int|
                    0 <= j < first.len() ==> (#[trigger] first[j]).id == shown[j].1
                        && listed@.contains(first[j].id),
                forall|id: u128|
                    listed@.contains(id) ==> exists|j: int|
                        0 <= j < first.len() && (#[trigger] first[j]).id == id,
                forall|j: int|
                    0 <= j < records@.len() ==> f.has((#[trigger] records@[j]).id) && records@[j]
                        == f.nodes[records@[j].id],
                forall|j: int|
                    first.len() <= j < records@.len() ==> !listed@.contains(
                        (#[trigger] records@[j]).id,
                    ) && exists|k: int| 0 <= k < it.index() && *(#[trigger] keys[k]) == records@[j].id,
                forall|a: int, b: int|
                    first.len() <= a < b < records@.len() ==> (#[trigger] records@[a]).id != (
                    #[trigger] records@[b]).id,
                forall|k: int|
                    0 <= k < it.index() ==> listed@.contains(*(#[trigger] keys[k])) || exists|j: int|
                        first.len() <= j < records@.len() && (#[trigger] records@[j]).id == *keys[k],
        {
            let ghost index = it.index();
            let ghost before = records@;
            proof {
                assert(key == keys[index]);
                assert(keys.unref()[index] == *key);
                assert(keys.unref().to_set().contains(*key));
                assert(f.has(*key));
            }
            if !listed.contains(key) {
                match self.nodes.get(key) {
                    Some(node) => {
                        records.push(node.duplicate());
                        proof {
                            assert(node.id == *key);
                            assert forall|a: int, b: int|
                                first.len() <= a < b < records@.len() implies (
                            #[trigger] records@[a]).id != (#[trigger] records@[b]).id by {
                                if b == before.len() {
                                    assert(records@[a] == before[a]);
                                    let k = choose|k: int|
                                        0 <= k < index && *(#[trigger] keys[k]) == before[a].id;
                                    assert(keys[k] != keys[index]);
                                } else {
                                    assert(records@[a] == before[a] && records@[b] == before[b]);
                                }
                            }
                            assert forall|j: int|
                                first.len() <= j < records@.len() implies !listed@.contains(
                                (#[trigger] records@[j]).id,
                            ) && exists|k: int|
                                0 <= k < index + 1 && *(#[trigger] keys[k]) == records@[j].id by {
                                if j < before.len() {
                                    assert(records@[j] == before[j]);
                                    let k = choose|k: int|
                                        0 <= k < index && *(#[trigger] keys[k]) == before[j].id;
                                    assert(*keys[k] == records@[j].id);
                                } else {
                                    assert(*keys[index] == records@[j].id);
                                }
                            }
                            assert forall|k: int| 0 <= k < index + 1 implies listed@.contains(
                                *(#[trigger] keys[k]),
                            ) || exists|j: int|
                                first.len() <= j < records@.len() && (#[trigger] records@[j]).id
                                    == *keys[k] by {
                                if k < index {
                                    if !listed@.contains(*keys[k]) {
                                        let j = choose|j: int|
                                            first.len() <= j < before.len() && (
                                            #[trigger] before[j]).id == *keys[k];
                                        assert(records@[j] == before[j]);
                                    }
                                } else {
                                    assert(records@[before.len() as int].id == *keys[k]);
                                }
                            }
                            assert forall|j: int| 0 <= j < first.len() implies (
                            #[trigger] records@[j]) == first[j] by {
                                assert(records@[j] == before[j]);
                            }
                            assert forall|j: int| 0 <= j < records@.len() implies f.has(
                                (#[trigger] records@[j]).id,
                            ) && records@[j] == f.nodes[records@[j].id] by {
                                if j < before.len() {
                                    assert(records@[j] == before[j]);
                                }
                            }
                        }
                    },
                    None => {},
                }
            }
        }
        proof {
            let all = records@;
            assert forall|a: int, b: int| 0 <= a < b < all.len() implies (#[trigger] all[a]).id != (
            #[trigger] all[b]).id by {
                if b < first.len() {
                    assert(all[a] == first[a] && all[b] == first[b]);
                    assert(shown[a].1 != shown[b].1);
                } else if a < first.len() {
                    assert(all[a] == first[a]);
                    assert(listed@.contains(first[a].id));
                }
            }
            assert forall|id: u128| f.has(id) implies exists|j: int|
                0 <= j < all.len() && (#[trigger] all[j]).id == id by {
                assert(keys.unref().to_set().contains(id));
                let k = choose|k: int| 0 <= k < keys.unref().len() && keys.unref()[k] == id;
                assert(*keys[k] == id);
                if listed@.contains(id) {
                    let j = choose|j: int| 0 <= j < first.len() && (#[trigger] first[j]).id == id;
                    assert(all[j] == first[j]);
                }
            }
            assert(lists_nodes_of(all, f));
            lemma_listing_is_complete(all, f);
            assert forall|j: int| 0 <= j < shown.len() implies (#[trigger] all[j]).id
                == shown[j].1 by {
                assert(all[j] == first[j]);
            }
            lemma_stored_in_display_order_loads(all, f);
        }
        FocusTreeData { meta: TreeMeta::stamped(current_time()), nodes: records }
    }
}

/// Records that cannot be loaded up to some point cannot be loaded at all.
pub proof fn lemma_loaded_prefix(records: Seq<FocusNode>, n: int)
    requires
        0 <= n <= records.len(),
        loaded(records.take(n)) is None,
    ensures
        loaded(records) is None,
    decreases records.len(),
{
    if n < records.len() {
        assert(records.drop_last().take(n) == records.take(n));
        lemma_loaded_prefix(records.drop_last(), n);
    } else {
        assert(records.take(n) == records);
    }
}

} // verus!
