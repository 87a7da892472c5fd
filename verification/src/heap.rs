//! What the profiler learned of the runtime's heap: for each object its
//! class, its size and the objects it references.

use vstd::prelude::*;
use std::collections::HashMap;
use crate::references::{index_of_key, insert_entry, lemma_index_of_key};

verus! {

broadcast use vstd::std_specs::hash::group_hash_axioms;

/// What the runtime reports of one object: its class, its size (absent where
/// the runtime could not tell it) and the objects it references, in the order
/// in which the runtime enumerated them.
#[derive(Debug)]
pub struct ObjectInfo {
    pub class_id: usize,
    pub size: Option<usize>,
    pub references: Vec<usize>,
}

/// The objects of the heap that the profiler has asked the runtime about.
#[derive(Debug)]
pub struct HeapSnapshot {
    objects: HashMap<usize, ObjectInfo>,
}

impl View for HeapSnapshot {
    type V = Map<usize, ObjectInfo>;

    closed spec fn view(&self) -> Map<usize, ObjectInfo> {
        self.objects@
    }
}

impl HeapSnapshot {
    /// A snapshot that knows no object.
    pub fn new() -> (h: Self)
        ensures
            h@ == Map::<usize, ObjectInfo>::empty(),
    {
        HeapSnapshot { objects: HashMap::new() }
    }

    /// Records what the runtime reported of `object_id`.
    pub fn insert(&mut self, object_id: usize, info: ObjectInfo)
        ensures
            final(self)@ == old(self)@.insert(object_id, info),
    {
        self.objects.insert(object_id, info);
    }

    /// What is known of `object_id`.
    pub fn get(&self, object_id: usize) -> (r: Option<&ObjectInfo>)
        ensures
            match r {
                Some(info) => self@.contains_key(object_id) && *info == self@[object_id],
                None => !self@.contains_key(object_id),
            },
    {
        self.objects.get(&object_id)
    }
}

/// The size of an object, zero where the runtime could not tell it.
pub open spec fn size_or_zero(info: ObjectInfo) -> usize {
    match info.size {
        Some(s) => s,
        None => 0,
    }
}

/// Adds object `id` of class `class_id` with size `size` to the group of its
/// class, or opens a new group for the class at the end.
pub open spec fn add_to_groups(
    groups: Seq<(usize, Seq<(usize, usize)>)>,
    class_id: usize,
    id: usize,
    size: usize,
) -> Seq<(usize, Seq<(usize, usize)>)> {
    let j = index_of_key(groups, class_id);
    if j >= 0 {
        groups.update(j, (class_id, insert_entry(groups[j].1, id, size)))
    } else {
        groups.push((class_id, seq![(id, size)]))
    }
}

/// The objects of `ids` grouped by class: the classes in the order of their
/// first object, each with its objects and their sizes. Null ids (`0`) are
/// skipped.
pub open spec fn group_objects(heap: Map<usize, ObjectInfo>, ids: Seq<usize>) -> Seq<
    (usize, Seq<(usize, usize)>),
>
    decreases ids.len(),
{
    if ids.len() == 0 {
        Seq::empty()
    } else {
        let groups = group_objects(heap, ids.drop_last());
        let id = ids.last();
        if id == 0 {
            groups
        } else {
            add_to_groups(groups, heap[id].class_id, id, size_or_zero(heap[id]))
        }
    }
}

/// The references of the objects of `entries`, object after object.
pub open spec fn refs_of(heap: Map<usize, ObjectInfo>, entries: Seq<(usize, usize)>) -> Seq<usize>
    decreases entries.len(),
{
    if entries.len() == 0 {
        Seq::empty()
    } else {
        let id = entries.last().0;
        refs_of(heap, entries.drop_last()) + if id == 0 {
            Seq::empty()
        } else {
            heap[id].references@
        }
    }
}

/// The references of the objects `ids`, object after object.
pub open spec fn refs_of_ids(heap: Map<usize, ObjectInfo>, ids: Seq<usize>) -> Seq<usize>
    decreases ids.len(),
{
    if ids.len() == 0 {
        Seq::empty()
    } else {
        let id = ids.last();
        refs_of_ids(heap, ids.drop_last()) + if id == 0 {
            Seq::empty()
        } else {
            heap[id].references@
        }
    }
}

/// Every non-null id of `ids` is known to the snapshot.
pub open spec fn all_known(heap: Map<usize, ObjectInfo>, ids: Seq<usize>) -> bool {
    forall|i: int| 0 <= i < ids.len() && ids[i] != 0 ==> heap.contains_key(#[trigger] ids[i])
}

/// The snapshot knows every object that a walk from `ids`, starting at
/// `depth`, reaches while the depth stays at most `max_depth`: the objects of
/// `ids`, and at each further level the references of the level before.
pub open spec fn covered(heap: Map<usize, ObjectInfo>, ids: Seq<usize>, depth: nat, max_depth: nat) -> bool
    decreases max_depth - depth,
{
    &&& all_known(heap, ids)
    &&& (depth + 1 <= max_depth ==> covered(
        heap,
        refs_of_ids(heap, ids),
        depth + 1,
        max_depth,
    ))
}

pub proof fn lemma_refs_of_ids_contains(heap: Map<usize, ObjectInfo>, ids: Seq<usize>, y: usize)
    ensures
        refs_of_ids(heap, ids).contains(y) <==> exists|i: int|
            0 <= i < ids.len() && ids[i] != 0 && (#[trigger] heap[ids[i]]).references@.contains(y),
    decreases ids.len(),
{
    if ids.len() > 0 {
        let prev = ids.drop_last();
        lemma_refs_of_ids_contains(heap, prev, y);
        let id = ids.last();
        let tail = if id == 0 {
            Seq::<usize>::empty()
        } else {
            heap[id].references@
        };
        let all = refs_of_ids(heap, prev) + tail;
        if all.contains(y) {
            let k = choose|k: int| 0 <= k < all.len() && all[k] == y;
            if k < refs_of_ids(heap, prev).len() {
                assert(refs_of_ids(heap, prev)[k] == y);
                let i = choose|i: int|
                    0 <= i < prev.len() && prev[i] != 0 && (#[trigger] heap[prev[i]]).references@.contains(y);
                assert(ids[i] == prev[i]);
            } else {
                assert(tail[k - refs_of_ids(heap, prev).len()] == y);
                assert(ids[ids.len() - 1] == id);
            }
        }
        if exists|i: int|
            0 <= i < ids.len() && ids[i] != 0 && (#[trigger] heap[ids[i]]).references@.contains(y) {
            let i = choose|i: int|
                0 <= i < ids.len() && ids[i] != 0 && (#[trigger] heap[ids[i]]).references@.contains(y);
            if i < prev.len() {
                assert(prev[i] == ids[i]);
                let k = choose|k: int|
                    0 <= k < refs_of_ids(heap, prev).len() && refs_of_ids(heap, prev)[k] == y;
                assert(all[k] == y);
            } else {
                let k = choose|k: int| 0 <= k < tail.len() && tail[k] == y;
                assert(all[refs_of_ids(heap, prev).len() + k] == y);
            }
        }
    }
}

pub proof fn lemma_refs_of_contains(heap: Map<usize, ObjectInfo>, entries: Seq<(usize, usize)>, y: usize)
    ensures
        refs_of(heap, entries).contains(y) <==> exists|i: int|
            0 <= i < entries.len() && entries[i].0 != 0 && (#[trigger] heap[entries[i].0]).references@.contains(y),
    decreases entries.len(),
{
    if entries.len() > 0 {
        let prev = entries.drop_last();
        lemma_refs_of_contains(heap, prev, y);
        let id = entries.last().0;
        let tail = if id == 0 {
            Seq::<usize>::empty()
        } else {
            heap[id].references@
        };
        let all = refs_of(heap, prev) + tail;
        if all.contains(y) {
            let k = choose|k: int| 0 <= k < all.len() && all[k] == y;
            if k < refs_of(heap, prev).len() {
                assert(refs_of(heap, prev)[k] == y);
                let i = choose|i: int|
                    0 <= i < prev.len() && prev[i].0 != 0 && (#[trigger] heap[prev[i].0]).references@.contains(y);
                assert(entries[i] == prev[i]);
            } else {
                assert(tail[k - refs_of(heap, prev).len()] == y);
                assert(entries[entries.len() - 1].0 == id);
            }
        }
        if exists|i: int|
            0 <= i < entries.len() && entries[i].0 != 0 && (#[trigger] heap[entries[i].0]).references@.contains(y) {
            let i = choose|i: int|
                0 <= i < entries.len() && entries[i].0 != 0 && (#[trigger] heap[entries[i].0]).references@.contains(y);
            if i < prev.len() {
                assert(prev[i] == entries[i]);
                let k = choose|k: int|
                    0 <= k < refs_of(heap, prev).len() && refs_of(heap, prev)[k] == y;
                assert(all[k] == y);
            } else {
                let k = choose|k: int| 0 <= k < tail.len() && tail[k] == y;
                assert(all[refs_of(heap, prev).len() + k] == y);
            }
        }
    }
}

/// Coverage depends only on which non-null ids are asked for.
pub proof fn lemma_covered_subset(
    heap: Map<usize, ObjectInfo>,
    a: Seq<usize>,
    b: Seq<usize>,
    depth: nat,
    max_depth: nat,
)
    requires
        covered(heap, a, depth, max_depth),
        forall|i: int| 0 <= i < b.len() && b[i] != 0 ==> a.contains(#[trigger] b[i]),
    ensures
        covered(heap, b, depth, max_depth),
    decreases max_depth - depth,
{
    assert forall|i: int| 0 <= i < b.len() && b[i] != 0 implies heap.contains_key(#[trigger] b[i]) by {
        assert(a.contains(b[i]));
        let j = choose|j: int| 0 <= j < a.len() && a[j] == b[i];
        assert(a[j] != 0);
    }
    if depth + 1 <= max_depth {
        let ra = refs_of_ids(heap, a);
        let rb = refs_of_ids(heap, b);
        assert forall|i: int| 0 <= i < rb.len() && rb[i] != 0 implies ra.contains(#[trigger] rb[i]) by {
            let y = rb[i];
            assert(rb.contains(y));
            lemma_refs_of_ids_contains(heap, b, y);
            let k = choose|k: int| 0 <= k < b.len() && b[k] != 0 && (#[trigger] heap[b[k]]).references@.contains(y);
            assert(a.contains(b[k]));
            let j = choose|j: int| 0 <= j < a.len() && a[j] == b[k];
            assert(heap[a[j]].references@.contains(y));
            lemma_refs_of_ids_contains(heap, a, y);
        }
        lemma_covered_subset(heap, ra, rb, depth + 1, max_depth);
    }
}

/// The objects of every group are non-null objects of `ids`, each once.
pub proof fn lemma_group_members(heap: Map<usize, ObjectInfo>, ids: Seq<usize>)
    ensures
        forall|g: int, k: int|
            0 <= g < group_objects(heap, ids).len() && 0 <= k < group_objects(heap, ids)[g].1.len()
                ==> (#[trigger] group_objects(heap, ids)[g].1[k]).0 != 0 && ids.contains(
                group_objects(heap, ids)[g].1[k].0,
            ),
    decreases ids.len(),
{
    if ids.len() > 0 {
        let prev = ids.drop_last();
        lemma_group_members(heap, prev);
        let gs = group_objects(heap, prev);
        let id = ids.last();
        assert forall|x: usize| prev.contains(x) implies ids.contains(x) by {
            let j = choose|j: int| 0 <= j < prev.len() && prev[j] == x;
            assert(ids[j] == x);
        }
        assert(ids[ids.len() - 1] == id);
        if id != 0 {
            let c = heap[id].class_id;
            lemma_index_of_key(gs, c);
            let j = index_of_key(gs, c);
            if j >= 0 {
                let es = gs[j].1;
                lemma_index_of_key(es, id);
                let r = group_objects(heap, ids);
                assert forall|g: int, k: int| 0 <= g < r.len() && 0 <= k < r[g].1.len()
                    implies (#[trigger] r[g].1[k]).0 != 0 && ids.contains(r[g].1[k].0) by {
                    if g != j {
                        assert(r[g] == gs[g]);
                    } else {
                        let i = index_of_key(es, id);
                        if i >= 0 {
                            if k != i {
                                assert(r[g].1[k] == es[k]);
                            }
                        } else if k < es.len() {
                            assert(r[g].1[k] == es[k]);
                        }
                    }
                }
            }
        }
    }
}


/// The non-null ids of `ids` that the snapshot does not know, in order.
pub open spec fn unknown_ids(heap: Map<usize, ObjectInfo>, ids: Seq<usize>) -> Seq<usize>
    decreases ids.len(),
{
    if ids.len() == 0 {
        Seq::empty()
    } else {
        let id = ids.last();
        unknown_ids(heap, ids.drop_last()) + if id != 0 && !heap.contains_key(id) {
            seq![id]
        } else {
            Seq::empty()
        }
    }
}

/// What a walk from `ids` at `depth` still needs from the runtime: the
/// unknown objects of its first level that has any, or nothing.
pub open spec fn missing_in_walk(heap: Map<usize, ObjectInfo>, ids: Seq<usize>, depth: nat, max_depth: nat) -> Seq<usize>
    decreases max_depth - depth,
{
    if unknown_ids(heap, ids).len() > 0 {
        unknown_ids(heap, ids)
    } else if depth + 1 <= max_depth {
        missing_in_walk(heap, refs_of_ids(heap, ids), depth + 1, max_depth)
    } else {
        Seq::empty()
    }
}

pub proof fn lemma_unknown_ids(heap: Map<usize, ObjectInfo>, ids: Seq<usize>)
    ensures
        unknown_ids(heap, ids).len() == 0 <==> all_known(heap, ids),
        forall|i: int|
            0 <= i < unknown_ids(heap, ids).len() ==> #[trigger] unknown_ids(heap, ids)[i] != 0
                && !heap.contains_key(unknown_ids(heap, ids)[i]),
    decreases ids.len(),
{
    if ids.len() > 0 {
        let prev = ids.drop_last();
        lemma_unknown_ids(heap, prev);
        let id = ids.last();
        let u = unknown_ids(heap, ids);
        let up = unknown_ids(heap, prev);
        assert forall|i: int| 0 <= i < u.len() implies #[trigger] u[i] != 0 && !heap.contains_key(u[i]) by {
            if i < up.len() {
                assert(u[i] == up[i]);
            }
        }
        if all_known(heap, ids) {
            assert forall|i: int| 0 <= i < prev.len() && prev[i] != 0 implies heap.contains_key(#[trigger] prev[i]) by {
                assert(ids[i] == prev[i]);
            }
            assert(ids[ids.len() - 1] == id);
        }
        if u.len() == 0 {
            assert forall|i: int| 0 <= i < ids.len() && ids[i] != 0 implies heap.contains_key(#[trigger] ids[i]) by {
                if i < prev.len() {
                    assert(prev[i] == ids[i]);
                }
            }
        }
    }
}

pub proof fn lemma_missing_in_walk(heap: Map<usize, ObjectInfo>, ids: Seq<usize>, depth: nat, max_depth: nat)
    ensures
        missing_in_walk(heap, ids, depth, max_depth).len() == 0 <==> covered(heap, ids, depth, max_depth),
        forall|i: int|
            0 <= i < missing_in_walk(heap, ids, depth, max_depth).len() ==> #[trigger] missing_in_walk(
                heap,
                ids,
                depth,
                max_depth,
            )[i] != 0 && !heap.contains_key(missing_in_walk(heap, ids, depth, max_depth)[i]),
    decreases max_depth - depth,
{
    lemma_unknown_ids(heap, ids);
    if unknown_ids(heap, ids).len() == 0 && depth + 1 <= max_depth {
        lemma_missing_in_walk(heap, refs_of_ids(heap, ids), depth + 1, max_depth);
    }
}

} // verus!
