//! Properties of the library as a whole, stated over the specifications of
//! its functions and proved.

use vstd::prelude::*;
use vstd::seq_lib::{to_multiset_contains, to_multiset_insert};
use vstd::set_lib::{lemma_len_subset, lemma_len_union};
use crate::heap::{group_objects, refs_of, size_or_zero, ObjectInfo};
use crate::profiler::{
    built_children, count_objects, default_settings, html_lines, html_lines_seq, kept, report_lines,
    settings_from,
};
use crate::format::{decimal, digit_char, escape_char, group_digits, html_escaped};
use crate::parameters::{digits_value, parameter_value, is_digit, parse_usize_text, unsigned_digits};
use crate::references::{
    summary_text,
    extend_entries, index_of_key, insert_entry, key_set, keys_distinct, lemma_index_of_key,
    lemma_insert_entry, sum_sizes,
};
use crate::tree::{
    sort_key, first_not_above, inclusive, keyed_sorted, lemma_first_not_above, lemma_keyed_sorted,
    lemma_stable_sort_len, merge_children, own_entries, sorted_tree, stable_sort_desc, SpecTree,
};

verus! {

/// Sorting keeps every element, as often as it occurs.
pub proof fn law_sort_is_permutation<T>(s: Seq<(nat, T)>)
    ensures
        stable_sort_desc(s).to_multiset() == s.to_multiset(),
    decreases s.len(),
{
    if s.len() > 0 {
        let rest = s.drop_first();
        law_sort_is_permutation(rest);
        let r = stable_sort_desc(rest);
        lemma_first_not_above(r, s[0].0);
        to_multiset_insert(r, first_not_above(r, s[0].0), s[0]);
        assert(rest.insert(0, s[0]) =~= s);
        to_multiset_insert(rest, 0, s[0]);
    }
}

/// Sorting puts the keys in non-increasing order.
pub proof fn law_sort_is_descending<T>(s: Seq<(nat, T)>)
    ensures
        forall|i: int, j: int|
            0 <= i < j < stable_sort_desc(s).len() ==> stable_sort_desc(s)[i].0 >= stable_sort_desc(
                s,
            )[j].0,
    decreases s.len(),
{
    if s.len() > 0 {
        let rest = s.drop_first();
        law_sort_is_descending(rest);
        let r = stable_sort_desc(rest);
        let x = s[0];
        lemma_first_not_above(r, x.0);
        let p = first_not_above(r, x.0);
        let out = r.insert(p, x);
        assert(out == stable_sort_desc(s));
        assert forall|i: int, j: int| 0 <= i < j < out.len() implies out[i].0 >= out[j].0 by {
            if j < p {
                assert(out[i] == r[i] && out[j] == r[j]);
            } else if j == p {
                assert(out[i] == r[i]);
            } else if i < p {
                assert(out[i] == r[i] && out[j] == r[j - 1]);
            } else if i == p {
                assert(out[j] == r[j - 1]);
                assert(r[p].0 <= x.0);
                if j - 1 > p {
                    assert(r[p].0 >= r[j - 1].0);
                }
            } else {
                assert(out[i] == r[i - 1] && out[j] == r[j - 1]);
            }
        }
    }
}

/// Sorting is stable: the elements of any one key keep their relative
/// order.
pub proof fn law_sort_is_stable<T>(s: Seq<(nat, T)>, k: nat)
    ensures
        stable_sort_desc(s).filter(|p: (nat, T)| p.0 == k) == s.filter(|p: (nat, T)| p.0 == k),
    decreases s.len(),
{
    let pred = |p: (nat, T)| p.0 == k;
    if s.len() == 0 {
    } else {
        let rest = s.drop_first();
        law_sort_is_stable(rest, k);
        law_sort_is_descending(rest);
        let r = stable_sort_desc(rest);
        let x = s[0];
        lemma_first_not_above(r, x.0);
        let p = first_not_above(r, x.0);
        let a = r.take(p);
        let b = r.skip(p);
        assert(r =~= a + b);
        assert(r.insert(p, x) =~= a + (seq![x] + b));
        assert(s =~= seq![x] + rest);
        Seq::filter_distributes_over_add(a, seq![x] + b, pred);
        Seq::filter_distributes_over_add(seq![x], b, pred);
        Seq::filter_distributes_over_add(a, b, pred);
        Seq::filter_distributes_over_add(seq![x], rest, pred);
        assert(seq![x].drop_last() =~= Seq::<(nat, T)>::empty());
        reveal_with_fuel(Seq::filter, 2);
        if x.0 == k {
            // Everything before the insertion point has a larger key.
            assert(a.filter(pred).len() == 0) by {
                if a.filter(pred).len() > 0 {
                    let e = a.filter(pred)[0];
                    a.lemma_filter_pred(pred, 0);
                    assert(a.filter(pred).contains(e));
                    a.lemma_filter_contains_rev(pred, e);
                    let i = choose|i: int| 0 <= i < a.len() && a[i] == e;
                    assert(r[i] == e);
                }
            }
            assert(a.filter(pred) =~= Seq::<(nat, T)>::empty());
            assert(seq![x].filter(pred) =~= seq![x]);
        } else {
            assert(seq![x].filter(pred) =~= Seq::<(nat, T)>::empty());
        }
    }
}


/// Every branch that tree building keeps meets both thresholds.
pub proof fn law_built_children_meet_thresholds(
    heap: Map<usize, ObjectInfo>,
    groups: Seq<(usize, Seq<(usize, usize)>)>,
    depth: nat,
    max_depth: nat,
    refs_threshold: nat,
    bytes_threshold: nat,
)
    ensures
        forall|i: int|
            0 <= i < built_children(heap, groups, depth, max_depth, refs_threshold, bytes_threshold).len()
                ==> kept(
                #[trigger] built_children(heap, groups, depth, max_depth, refs_threshold, bytes_threshold)[i],
                refs_threshold,
                bytes_threshold,
            ),
    decreases groups.len(),
{
    if groups.len() > 0 {
        law_built_children_meet_thresholds(
            heap,
            groups.drop_last(),
            depth,
            max_depth,
            refs_threshold,
            bytes_threshold,
        );
        let prev = built_children(heap, groups.drop_last(), depth, max_depth, refs_threshold, bytes_threshold);
        let cs = built_children(heap, groups, depth, max_depth, refs_threshold, bytes_threshold);
        assert forall|i: int| 0 <= i < cs.len() implies kept(#[trigger] cs[i], refs_threshold, bytes_threshold) by {
            if i < prev.len() {
                assert(cs[i] == prev[i]);
            }
        }
    }
}

/// Every node that tree building adds stands for one class group, in the
/// order of the groups, each group at most once: its key is the group's class
/// and its own objects are the group's objects.
pub proof fn law_built_children_are_groups(
    heap: Map<usize, ObjectInfo>,
    groups: Seq<(usize, Seq<(usize, usize)>)>,
    depth: nat,
    max_depth: nat,
    refs_threshold: nat,
    bytes_threshold: nat,
)
    requires
        keys_distinct(groups),
    ensures
        ({
            let cs = built_children(heap, groups, depth, max_depth, refs_threshold, bytes_threshold);
            &&& cs.len() <= groups.len()
            &&& forall|i: int|
                0 <= i < cs.len() ==> exists|j: int|
                    0 <= j < groups.len() && (#[trigger] cs[i]).key == groups[j].0 && cs[i].value
                        == Some(groups[j].1)
            &&& forall|i: int, j: int| 0 <= i < j < cs.len() ==> cs[i].key != cs[j].key
        }),
    decreases groups.len(),
{
    if groups.len() > 0 {
        let prev_groups = groups.drop_last();
        law_built_children_are_groups(
            heap,
            prev_groups,
            depth,
            max_depth,
            refs_threshold,
            bytes_threshold,
        );
        let prev = built_children(heap, prev_groups, depth, max_depth, refs_threshold, bytes_threshold);
        let cs = built_children(heap, groups, depth, max_depth, refs_threshold, bytes_threshold);
        let last = groups.last();
        assert forall|i: int| 0 <= i < prev.len() implies (#[trigger] prev[i]).key != last.0 by {
            let j = choose|j: int|
                0 <= j < prev_groups.len() && (#[trigger] prev[i]).key == prev_groups[j].0 && prev[i].value
                    == Some(prev_groups[j].1);
            assert(groups[j] == prev_groups[j]);
            assert(groups[groups.len() - 1] == last);
        }
        assert forall|i: int| 0 <= i < cs.len() implies exists|j: int|
            0 <= j < groups.len() && (#[trigger] cs[i]).key == groups[j].0 && cs[i].value == Some(groups[j].1) by {
            if i < prev.len() {
                assert(cs[i] == prev[i]);
                let j = choose|j: int|
                    0 <= j < prev_groups.len() && (#[trigger] prev[i]).key == prev_groups[j].0 && prev[i].value
                        == Some(prev_groups[j].1);
                assert(groups[j] == prev_groups[j]);
            } else {
                assert(groups[groups.len() - 1] == last);
            }
        }
        assert forall|i: int, j: int| 0 <= i < j < cs.len() implies cs[i].key != cs[j].key by {
            if j < prev.len() {
                assert(cs[i] == prev[i] && cs[j] == prev[j]);
            } else {
                assert(cs[i] == prev[i]);
            }
        }
    }
}

/// A group's objects are non-null, listed once each, of the group's class,
/// with their sizes (zero where the size is unknown); the groups' classes are
/// distinct; and every non-null object asked for is in the group of its
/// class.
pub proof fn law_grouping(heap: Map<usize, ObjectInfo>, ids: Seq<usize>)
    ensures
        ({
            let gs = group_objects(heap, ids);
            &&& keys_distinct(gs)
            &&& forall|g: int| 0 <= g < gs.len() ==> keys_distinct(#[trigger] gs[g].1)
            &&& forall|g: int, k: int|
                0 <= g < gs.len() && 0 <= k < gs[g].1.len() ==> {
                    let e = #[trigger] gs[g].1[k];
                    &&& e.0 != 0
                    &&& heap[e.0].class_id == gs[g].0
                    &&& e.1 == size_or_zero(heap[e.0])
                }
            &&& forall|i: int|
                0 <= i < ids.len() && ids[i] != 0 ==> exists|g: int|
                    0 <= g < gs.len() && gs[g].0 == heap[#[trigger] ids[i]].class_id && key_set(
                        gs[g].1,
                    ).contains(ids[i])
        }),
    decreases ids.len(),
{
    if ids.len() > 0 {
        let prev = ids.drop_last();
        law_grouping(heap, prev);
        let gs0 = group_objects(heap, prev);
        let gs = group_objects(heap, ids);
        let id = ids.last();
        if id == 0 {
            assert forall|i: int| 0 <= i < ids.len() && ids[i] != 0 implies exists|g: int|
                0 <= g < gs.len() && gs[g].0 == heap[#[trigger] ids[i]].class_id && key_set(gs[g].1).contains(ids[i]) by {
                assert(prev[i] == ids[i]);
            }
        } else {
            let c = heap[id].class_id;
            let sz = size_or_zero(heap[id]);
            lemma_index_of_key(gs0, c);
            let j = index_of_key(gs0, c);
            if j >= 0 {
                let es = gs0[j].1;
                lemma_index_of_key(es, id);
                lemma_insert_entry(es, id, sz);
                assert(gs == gs0.update(j, (c, insert_entry(es, id, sz))));
                assert forall|a: int, b: int| 0 <= a < b < gs.len() implies gs[a].0 != gs[b].0 by {
                    assert(gs[a].0 == gs0[a].0 && gs[b].0 == gs0[b].0);
                }
                assert forall|g: int, k: int| 0 <= g < gs.len() && 0 <= k < gs[g].1.len() implies ({
                    let e = #[trigger] gs[g].1[k];
                    &&& e.0 != 0
                    &&& heap[e.0].class_id == gs[g].0
                    &&& e.1 == size_or_zero(heap[e.0])
                }) by {
                    if g == j {
                        let i = index_of_key(es, id);
                        if i >= 0 {
                            if k != i {
                                assert(gs[g].1[k] == es[k]);
                            }
                        } else if k < es.len() {
                            assert(gs[g].1[k] == es[k]);
                        }
                    }
                }
                assert forall|i: int| 0 <= i < ids.len() && ids[i] != 0 implies exists|g: int|
                    0 <= g < gs.len() && gs[g].0 == heap[#[trigger] ids[i]].class_id && key_set(gs[g].1).contains(ids[i]) by {
                    if i < prev.len() {
                        assert(prev[i] == ids[i]);
                        let g = choose|g: int|
                            0 <= g < gs0.len() && gs0[g].0 == heap[#[trigger] prev[i]].class_id && key_set(gs0[g].1).contains(prev[i]);
                        if g == j {
                            assert(key_set(gs[g].1) == key_set(es).insert(id));
                        }
                        assert(key_set(gs[g].1).contains(ids[i]));
                    } else {
                        assert(ids[i] == id);
                        assert(key_set(gs[j].1) == key_set(es).insert(id));
                    }
                }
            } else {
                assert(gs == gs0.push((c, seq![(id, sz)])));
                assert forall|a: int, b: int| 0 <= a < b < gs.len() implies gs[a].0 != gs[b].0 by {
                    if b < gs0.len() {
                        assert(gs[a].0 == gs0[a].0 && gs[b].0 == gs0[b].0);
                    } else {
                        assert(gs[a].0 == gs0[a].0);
                    }
                }
                assert forall|g: int| 0 <= g < gs.len() implies keys_distinct(#[trigger] gs[g].1) by {
                    if g < gs0.len() {
                        assert(gs[g] == gs0[g]);
                    }
                }
                assert forall|g: int, k: int| 0 <= g < gs.len() && 0 <= k < gs[g].1.len() implies ({
                    let e = #[trigger] gs[g].1[k];
                    &&& e.0 != 0
                    &&& heap[e.0].class_id == gs[g].0
                    &&& e.1 == size_or_zero(heap[e.0])
                }) by {
                    if g < gs0.len() {
                        assert(gs[g] == gs0[g]);
                    }
                }
                assert forall|i: int| 0 <= i < ids.len() && ids[i] != 0 implies exists|g: int|
                    0 <= g < gs.len() && gs[g].0 == heap[#[trigger] ids[i]].class_id && key_set(gs[g].1).contains(ids[i]) by {
                    if i < prev.len() {
                        assert(prev[i] == ids[i]);
                        let g = choose|g: int|
                            0 <= g < gs0.len() && gs0[g].0 == heap[#[trigger] prev[i]].class_id && key_set(gs0[g].1).contains(prev[i]);
                        assert(gs[g] == gs0[g]);
                    } else {
                        assert(ids[i] == id);
                        let last = gs.len() - 1;
                        assert(gs[last].1[0] == (id, sz));
                        assert(key_set(gs[last].1).contains(id));
                    }
                }
            }
        }
    }
}


/// No path below `t` goes more than `levels` nodes further down.
pub open spec fn within_levels(t: SpecTree, levels: nat) -> bool
    decreases t,
{
    if levels == 0 {
        t.children.len() == 0
    } else {
        forall|i: int| 0 <= i < t.children.len() ==> within_levels(#[trigger] t.children[i], (levels - 1) as nat)
    }
}

/// Drilling stops at the maximum retention depth: below a node that tree
/// building adds at `depth`, no path goes more than `max_depth - depth`
/// nodes further down (none where `depth` is already the maximum).
pub proof fn law_built_children_depth(
    heap: Map<usize, ObjectInfo>,
    groups: Seq<(usize, Seq<(usize, usize)>)>,
    depth: nat,
    max_depth: nat,
    refs_threshold: nat,
    bytes_threshold: nat,
)
    requires
        depth <= max_depth,
    ensures
        forall|i: int|
            0 <= i < built_children(heap, groups, depth, max_depth, refs_threshold, bytes_threshold).len()
                ==> within_levels(
                #[trigger] built_children(heap, groups, depth, max_depth, refs_threshold, bytes_threshold)[i],
                (max_depth - depth) as nat,
            ),
    decreases max_depth - depth, groups.len(),
{
    if groups.len() > 0 {
        law_built_children_depth(
            heap,
            groups.drop_last(),
            depth,
            max_depth,
            refs_threshold,
            bytes_threshold,
        );
        let prev = built_children(heap, groups.drop_last(), depth, max_depth, refs_threshold, bytes_threshold);
        let cs = built_children(heap, groups, depth, max_depth, refs_threshold, bytes_threshold);
        let g = groups.last();
        if depth + 1 <= max_depth {
            let sub = group_objects(heap, refs_of(heap, g.1));
            law_built_children_depth(heap, sub, depth + 1, max_depth, refs_threshold, bytes_threshold);
        }
        assert forall|i: int| 0 <= i < cs.len() implies within_levels(#[trigger] cs[i], (max_depth - depth) as nat) by {
            if i < prev.len() {
                assert(cs[i] == prev[i]);
            } else {
                let child = cs[i];
                assert(child.key == g.0);
                if depth + 1 <= max_depth {
                    let sub = group_objects(heap, refs_of(heap, g.1));
                    let gc = built_children(heap, sub, depth + 1, max_depth, refs_threshold, bytes_threshold);
                    assert(child.children == gc);
                    assert forall|k: int| 0 <= k < child.children.len() implies within_levels(
                        #[trigger] child.children[k],
                        (max_depth - depth - 1) as nat,
                    ) by {
                        assert(child.children[k] == gc[k]);
                    }
                } else {
                    assert(child.children.len() == 0);
                }
            }
        }
    }
}


/// The objects of the inclusive values of `cs`, together.
pub open spec fn subtree_objects(cs: Seq<SpecTree>) -> Set<usize>
    decreases cs.len(),
{
    if cs.len() == 0 {
        Set::empty()
    } else {
        subtree_objects(cs.drop_last()).union(key_set(inclusive(cs.last())))
    }
}

/// Every node holds each of its own objects once, at every level.
pub open spec fn tree_wf(t: SpecTree) -> bool
    decreases t,
{
    &&& keys_distinct(own_entries(t))
    &&& forall|i: int| 0 <= i < t.children.len() ==> tree_wf(#[trigger] t.children[i])
}

pub proof fn lemma_subtree_objects(cs: Seq<SpecTree>, x: usize)
    ensures
        subtree_objects(cs).contains(x) <==> exists|i: int|
            0 <= i < cs.len() && key_set(inclusive(#[trigger] cs[i])).contains(x),
    decreases cs.len(),
{
    if cs.len() > 0 {
        lemma_subtree_objects(cs.drop_last(), x);
        if exists|i: int| 0 <= i < cs.len() && key_set(inclusive(#[trigger] cs[i])).contains(x) {
            let i = choose|i: int| 0 <= i < cs.len() && key_set(inclusive(#[trigger] cs[i])).contains(x);
            if i < cs.len() - 1 {
                assert(cs.drop_last()[i] == cs[i]);
            }
        }
        if subtree_objects(cs.drop_last()).contains(x) {
            let i = choose|i: int|
                0 <= i < cs.drop_last().len() && key_set(inclusive(#[trigger] cs.drop_last()[i])).contains(x);
            assert(cs[i] == cs.drop_last()[i]);
        }
    }
}

/// Inserting the objects of `b` into `a`: the objects are those of both,
/// and no object occurs twice.
pub proof fn law_extend_objects(a: Seq<(usize, usize)>, b: Seq<(usize, usize)>)
    requires
        keys_distinct(a),
    ensures
        key_set(extend_entries(a, b)) == key_set(a).union(key_set(b)),
        keys_distinct(extend_entries(a, b)),
    decreases b.len(),
{
    if b.len() == 0 {
        assert(key_set(b) =~= Set::<usize>::empty());
        assert(key_set(a).union(key_set(b)) =~= key_set(a));
    } else {
        let prev = extend_entries(a, b.drop_last());
        law_extend_objects(a, b.drop_last());
        lemma_insert_entry(prev, b.last().0, b.last().1);
        assert forall|x: usize| key_set(b).contains(x) <==> key_set(b.drop_last()).insert(b.last().0).contains(x) by {
            if key_set(b).contains(x) {
                let i = choose|i: int| 0 <= i < b.len() && b[i].0 == x;
                if i < b.len() - 1 {
                    assert(b.drop_last()[i].0 == x);
                }
            }
            if key_set(b.drop_last()).contains(x) {
                let i = choose|i: int| 0 <= i < b.drop_last().len() && b.drop_last()[i].0 == x;
                assert(b[i].0 == x);
            }
            if x == b.last().0 {
                assert(b[b.len() - 1].0 == x);
            }
        }
        assert(key_set(b) =~= key_set(b.drop_last()).insert(b.last().0));
        assert(key_set(extend_entries(a, b)) =~= key_set(a).union(key_set(b)));
    }
}

/// Merging children into a node's objects: the objects are the node's and
/// those of the children's inclusive values, each once.
pub proof fn law_merge_objects(acc: Seq<(usize, usize)>, cs: Seq<SpecTree>)
    requires
        keys_distinct(acc),
    ensures
        key_set(merge_children(acc, cs)) == key_set(acc).union(subtree_objects(cs)),
        keys_distinct(merge_children(acc, cs)),
    decreases cs.len(),
{
    if cs.len() == 0 {
        assert(key_set(acc).union(Set::<usize>::empty()) =~= key_set(acc));
    } else {
        law_merge_objects(acc, cs.drop_last());
        law_extend_objects(merge_children(acc, cs.drop_last()), inclusive(cs.last()));
        assert(key_set(merge_children(acc, cs)) =~= key_set(acc).union(subtree_objects(cs)));
    }
}

/// The inclusive value of a node holds exactly its own objects and those of
/// the inclusive values of its children, each object once.
pub proof fn law_inclusive_objects(t: SpecTree)
    requires
        keys_distinct(own_entries(t)),
    ensures
        key_set(inclusive(t)) == key_set(own_entries(t)).union(subtree_objects(t.children)),
        keys_distinct(inclusive(t)),
{
    law_merge_objects(own_entries(t), t.children);
}

/// Sorting a tree keeps the objects of every inclusive value.
pub proof fn law_sort_keeps_objects(t: SpecTree, by_size: bool)
    requires
        tree_wf(t),
    ensures
        key_set(inclusive(sorted_tree(t, by_size))) == key_set(inclusive(t)),
    decreases t,
{
    let cs = t.children;
    let kp = keyed_sorted(cs, by_size);
    let ks = stable_sort_desc(kp);
    let sc = ks.map_values(|p: (nat, SpecTree)| p.1);
    let st = sorted_tree(t, by_size);
    assert(st.children == sc);
    lemma_keyed_sorted(cs, by_size);
    lemma_stable_sort_len(kp);
    law_sort_is_permutation(kp);
    assert forall|i: int| 0 <= i < cs.len() implies key_set(inclusive(sorted_tree(#[trigger] cs[i], by_size)))
        == key_set(inclusive(cs[i])) by {
        law_sort_keeps_objects(cs[i], by_size);
    }
    assert forall|x: usize| subtree_objects(sc).contains(x) <==> subtree_objects(cs).contains(x) by {
        lemma_subtree_objects(sc, x);
        lemma_subtree_objects(cs, x);
        if subtree_objects(sc).contains(x) {
            let j = choose|j: int| 0 <= j < sc.len() && key_set(inclusive(#[trigger] sc[j])).contains(x);
            let p = ks[j];
            assert(ks.contains(p));
            to_multiset_contains(ks, p);
            to_multiset_contains(kp, p);
            let i = choose|i: int| 0 <= i < kp.len() && kp[i] == p;
            assert(key_set(inclusive(cs[i])).contains(x));
        }
        if subtree_objects(cs).contains(x) {
            let i = choose|i: int| 0 <= i < cs.len() && key_set(inclusive(#[trigger] cs[i])).contains(x);
            let p = kp[i];
            assert(kp.contains(p));
            to_multiset_contains(ks, p);
            to_multiset_contains(kp, p);
            let j = choose|j: int| 0 <= j < ks.len() && ks[j] == p;
            assert(sc[j] == sorted_tree(cs[i], by_size));
            assert(key_set(inclusive(sc[j])).contains(x));
        }
    }
    assert(subtree_objects(sc) =~= subtree_objects(cs));
    law_inclusive_objects(t);
    law_inclusive_objects(st);
}


/// Where no object occurs twice, the number of entries is the number of
/// objects.
pub proof fn law_distinct_count(s: Seq<(usize, usize)>)
    requires
        keys_distinct(s),
    ensures
        key_set(s).len() == s.len(),
        key_set(s).finite(),
{
    let ks = s.map_values(|p: (usize, usize)| p.0);
    assert forall|i: int, j: int| 0 <= i < ks.len() && 0 <= j < ks.len() && i != j implies ks[i] != ks[j] by {
        if i < j {
        } else {
        }
    }
    ks.unique_seq_to_set();
    assert forall|x: usize| key_set(s).contains(x) <==> ks.to_set().contains(x) by {
        if key_set(s).contains(x) {
            let i = choose|i: int| 0 <= i < s.len() && s[i].0 == x;
            assert(ks[i] == x);
        }
        if ks.to_set().contains(x) {
            let i = choose|i: int| 0 <= i < ks.len() && ks[i] == x;
            assert(s[i].0 == x);
        }
    }
    assert(key_set(s) =~= ks.to_set());
    vstd::seq_lib::seq_to_set_is_finite(ks);
}

/// Sorting a tree keeps the number of objects in every inclusive value, so
/// that ordering by count does not depend on whether the subtrees were
/// sorted first.
pub proof fn law_sort_keeps_count(t: SpecTree, by_size: bool)
    requires
        tree_wf(t),
    ensures
        inclusive(sorted_tree(t, by_size)).len() == inclusive(t).len(),
{
    law_sort_keeps_objects(t, by_size);
    law_inclusive_objects(t);
    let st = sorted_tree(t, by_size);
    assert(own_entries(st) == own_entries(t));
    law_inclusive_objects(st);
    law_distinct_count(inclusive(t));
    law_distinct_count(inclusive(st));
}


/// The nodes that tree building adds hold each of their objects once, at
/// every level.
pub proof fn law_built_children_wf(
    heap: Map<usize, ObjectInfo>,
    groups: Seq<(usize, Seq<(usize, usize)>)>,
    depth: nat,
    max_depth: nat,
    refs_threshold: nat,
    bytes_threshold: nat,
)
    requires
        forall|g: int| 0 <= g < groups.len() ==> keys_distinct(#[trigger] groups[g].1),
    ensures
        forall|i: int|
            0 <= i < built_children(heap, groups, depth, max_depth, refs_threshold, bytes_threshold).len()
                ==> tree_wf(
                #[trigger] built_children(heap, groups, depth, max_depth, refs_threshold, bytes_threshold)[i],
            ),
    decreases max_depth - depth, groups.len(),
{
    if groups.len() > 0 {
        let pg = groups.drop_last();
        assert forall|g: int| 0 <= g < pg.len() implies keys_distinct(#[trigger] pg[g].1) by {
            assert(pg[g] == groups[g]);
        }
        law_built_children_wf(heap, pg, depth, max_depth, refs_threshold, bytes_threshold);
        let prev = built_children(heap, pg, depth, max_depth, refs_threshold, bytes_threshold);
        let cs = built_children(heap, groups, depth, max_depth, refs_threshold, bytes_threshold);
        let g = groups.last();
        assert(keys_distinct(groups[groups.len() - 1].1));
        if depth + 1 <= max_depth {
            let sub = group_objects(heap, refs_of(heap, g.1));
            law_grouping(heap, refs_of(heap, g.1));
            law_built_children_wf(heap, sub, depth + 1, max_depth, refs_threshold, bytes_threshold);
        }
        assert forall|i: int| 0 <= i < cs.len() implies tree_wf(#[trigger] cs[i]) by {
            if i < prev.len() {
                assert(cs[i] == prev[i]);
            } else {
                let child = cs[i];
                assert(own_entries(child) == g.1);
                if depth + 1 <= max_depth {
                    let sub = group_objects(heap, refs_of(heap, g.1));
                    let gc = built_children(heap, sub, depth + 1, max_depth, refs_threshold, bytes_threshold);
                    assert(child.children == gc);
                    assert forall|k: int| 0 <= k < child.children.len() implies tree_wf(#[trigger] child.children[k]) by {
                        assert(child.children[k] == gc[k]);
                    }
                }
            }
        }
    }
}


/// Sorting a sequence whose keys are already non-increasing leaves it as it
/// is, so sorting twice by the same keys is sorting once.
pub proof fn law_sort_keeps_sorted<T>(s: Seq<(nat, T)>)
    requires
        forall|i: int, j: int| 0 <= i < j < s.len() ==> s[i].0 >= s[j].0,
    ensures
        stable_sort_desc(s) == s,
    decreases s.len(),
{
    if s.len() > 0 {
        let rest = s.drop_first();
        law_sort_keeps_sorted(rest);
        lemma_first_not_above(rest, s[0].0);
        if rest.len() > 0 {
            assert(rest[0].0 <= s[0].0);
        }
        assert(first_not_above(rest, s[0].0) == 0);
        assert(rest.insert(0, s[0]) =~= s);
    }
}


/// Sorted by count, the children of a node of a sorted tree are in
/// non-increasing order of the number of objects they retain.
pub proof fn law_sorted_children_by_count(t: SpecTree)
    requires
        tree_wf(t),
    ensures
        forall|i: int, j: int|
            0 <= i < j < sorted_tree(t, false).children.len() ==> inclusive(
                #[trigger] sorted_tree(t, false).children[i],
            ).len() >= inclusive(#[trigger] sorted_tree(t, false).children[j]).len(),
{
    let cs = t.children;
    let kp = keyed_sorted(cs, false);
    let ks = stable_sort_desc(kp);
    let sc = sorted_tree(t, false).children;
    assert(sc == ks.map_values(|p: (nat, SpecTree)| p.1));
    lemma_keyed_sorted(cs, false);
    lemma_stable_sort_len(kp);
    law_sort_is_permutation(kp);
    law_sort_is_descending(kp);
    assert forall|k: int| 0 <= k < ks.len() implies #[trigger] ks[k].0 == inclusive(ks[k].1).len() by {
        let p = ks[k];
        assert(ks.contains(p));
        to_multiset_contains(ks, p);
        to_multiset_contains(kp, p);
        let i = choose|i: int| 0 <= i < kp.len() && kp[i] == p;
        assert(tree_wf(cs[i]));
        law_sort_keeps_count(cs[i], false);
    }
    assert forall|i: int, j: int| 0 <= i < j < sc.len() implies inclusive(#[trigger] sc[i]).len() >= inclusive(
        #[trigger] sc[j],
    ).len() by {
        assert(sc[i] == ks[i].1 && sc[j] == ks[j].1);
        assert(ks[i].0 >= ks[j].0);
    }
}


/// Every entry gives its object the size `size_of` gives it.
pub open spec fn entries_sized(s: Seq<(usize, usize)>, size_of: spec_fn(usize) -> usize) -> bool {
    forall|i: int| 0 <= i < s.len() ==> (#[trigger] s[i]).1 == size_of(s[i].0)
}

/// Every node's own objects have the sizes `size_of` gives them.
pub open spec fn tree_sized(t: SpecTree, size_of: spec_fn(usize) -> usize) -> bool
    decreases t,
{
    &&& entries_sized(own_entries(t), size_of)
    &&& forall|i: int| 0 <= i < t.children.len() ==> tree_sized(#[trigger] t.children[i], size_of)
}

pub proof fn lemma_extend_sized(a: Seq<(usize, usize)>, b: Seq<(usize, usize)>, size_of: spec_fn(usize) -> usize)
    requires
        entries_sized(a, size_of),
        entries_sized(b, size_of),
    ensures
        entries_sized(extend_entries(a, b), size_of),
    decreases b.len(),
{
    if b.len() > 0 {
        let prev = extend_entries(a, b.drop_last());
        assert(entries_sized(b.drop_last(), size_of)) by {
            assert forall|i: int| 0 <= i < b.drop_last().len() implies (#[trigger] b.drop_last()[i]).1
                == size_of(b.drop_last()[i].0) by {
                assert(b.drop_last()[i] == b[i]);
            }
        }
        lemma_extend_sized(a, b.drop_last(), size_of);
        lemma_index_of_key(prev, b.last().0);
        assert(b[b.len() - 1] == b.last());
        let r = insert_entry(prev, b.last().0, b.last().1);
        assert forall|i: int| 0 <= i < r.len() implies (#[trigger] r[i]).1 == size_of(r[i].0) by {
            if i < prev.len() && i != index_of_key(prev, b.last().0) {
                assert(r[i] == prev[i]);
            }
        }
    }
}

pub proof fn lemma_inclusive_sized(t: SpecTree, size_of: spec_fn(usize) -> usize)
    requires
        tree_sized(t, size_of),
    ensures
        entries_sized(inclusive(t), size_of),
    decreases t,
{
    lemma_merge_sized(own_entries(t), t.children, size_of);
}

pub proof fn lemma_merge_sized(acc: Seq<(usize, usize)>, cs: Seq<SpecTree>, size_of: spec_fn(usize) -> usize)
    requires
        entries_sized(acc, size_of),
        forall|i: int| 0 <= i < cs.len() ==> tree_sized(#[trigger] cs[i], size_of),
    ensures
        entries_sized(merge_children(acc, cs), size_of),
    decreases cs,
{
    if cs.len() > 0 {
        let p = cs.drop_last();
        assert forall|i: int| 0 <= i < p.len() implies tree_sized(#[trigger] p[i], size_of) by {
            assert(p[i] == cs[i]);
        }
        lemma_merge_sized(acc, p, size_of);
        assert(tree_sized(cs[cs.len() - 1], size_of));
        lemma_inclusive_sized(cs.last(), size_of);
        lemma_extend_sized(merge_children(acc, p), inclusive(cs.last()), size_of);
    }
}

proof fn lemma_sum_remove(s: Seq<(usize, usize)>, j: int)
    requires
        0 <= j < s.len(),
    ensures
        sum_sizes(s) == sum_sizes(s.remove(j)) + s[j].1,
    decreases s.len(),
{
    if j == s.len() - 1 {
        assert(s.remove(j) =~= s.drop_last());
    } else {
        lemma_sum_remove(s.drop_last(), j);
        assert(s.remove(j).drop_last() =~= s.drop_last().remove(j));
        assert(s.remove(j).last() == s.last());
    }
}

/// Two lists of the same objects, each object once and with the sizes
/// `size_of` gives them, have the same total size.
pub proof fn law_sum_by_objects(s1: Seq<(usize, usize)>, s2: Seq<(usize, usize)>, size_of: spec_fn(usize) -> usize)
    requires
        keys_distinct(s1),
        keys_distinct(s2),
        entries_sized(s1, size_of),
        entries_sized(s2, size_of),
        key_set(s1) == key_set(s2),
    ensures
        sum_sizes(s1) == sum_sizes(s2),
    decreases s1.len(),
{
    if s1.len() == 0 {
        if s2.len() > 0 {
            assert(key_set(s2).contains(s2[0].0));
        }
    } else {
        let k = s1.last().0;
        assert(s1[s1.len() - 1].0 == k);
        assert(key_set(s1).contains(k));
        let j = choose|j: int| 0 <= j < s2.len() && s2[j].0 == k;
        lemma_sum_remove(s2, j);
        let t1 = s1.drop_last();
        let t2 = s2.remove(j);
        assert forall|x: usize| key_set(t1).contains(x) <==> key_set(t2).contains(x) by {
            if key_set(t1).contains(x) {
                let i = choose|i: int| 0 <= i < t1.len() && t1[i].0 == x;
                assert(s1[i].0 == x);
                assert(x != k);
                assert(key_set(s2).contains(x));
                let q = choose|q: int| 0 <= q < s2.len() && s2[q].0 == x;
                if q < j {
                    assert(t2[q].0 == x);
                } else {
                    assert(q != j);
                    assert(t2[q - 1].0 == x);
                }
            }
            if key_set(t2).contains(x) {
                let q = choose|q: int| 0 <= q < t2.len() && t2[q].0 == x;
                let q2 = if q < j { q } else { q + 1 };
                assert(s2[q2].0 == x);
                assert(x != k);
                assert(key_set(s1).contains(x));
                let i = choose|i: int| 0 <= i < s1.len() && s1[i].0 == x;
                assert(i != s1.len() - 1);
                assert(t1[i].0 == x);
            }
        }
        assert(key_set(t1) =~= key_set(t2));
        assert forall|a: int, b: int| 0 <= a < b < t2.len() implies t2[a].0 != t2[b].0 by {
            let a2 = if a < j { a } else { a + 1 };
            let b2 = if b < j { b } else { b + 1 };
            assert(t2[a] == s2[a2] && t2[b] == s2[b2]);
        }
        assert forall|i: int| 0 <= i < t2.len() implies (#[trigger] t2[i]).1 == size_of(t2[i].0) by {
            let i2 = if i < j { i } else { i + 1 };
            assert(t2[i] == s2[i2]);
        }
        assert forall|i: int| 0 <= i < t1.len() implies (#[trigger] t1[i]).1 == size_of(t1[i].0) by {
            assert(t1[i] == s1[i]);
        }
        law_sum_by_objects(t1, t2, size_of);
        assert(s1[s1.len() - 1].1 == size_of(k));
        assert(s2[j].1 == size_of(k));
    }
}

/// Sorting keeps objects' sizes as they were at every node.
pub proof fn lemma_sorted_tree_sized(t: SpecTree, by_size: bool, size_of: spec_fn(usize) -> usize)
    requires
        tree_sized(t, size_of),
    ensures
        tree_sized(sorted_tree(t, by_size), size_of),
    decreases t,
{
    let cs = t.children;
    let kp = keyed_sorted(cs, by_size);
    let ks = stable_sort_desc(kp);
    let sc = sorted_tree(t, by_size).children;
    assert(sc == ks.map_values(|p: (nat, SpecTree)| p.1));
    lemma_keyed_sorted(cs, by_size);
    lemma_stable_sort_len(kp);
    law_sort_is_permutation(kp);
    assert forall|k: int| 0 <= k < sc.len() implies tree_sized(#[trigger] sc[k], size_of) by {
        let p = ks[k];
        assert(ks.contains(p));
        to_multiset_contains(ks, p);
        to_multiset_contains(kp, p);
        let i = choose|i: int| 0 <= i < kp.len() && kp[i] == p;
        assert(tree_sized(cs[i], size_of));
        lemma_sorted_tree_sized(cs[i], by_size, size_of);
    }
}

/// Sorting keeps the total size of every inclusive value where each object
/// has one size throughout the tree, as in a tree built from one snapshot.
pub proof fn law_sort_keeps_size(t: SpecTree, by_size: bool, size_of: spec_fn(usize) -> usize)
    requires
        tree_wf(t),
        tree_sized(t, size_of),
    ensures
        sum_sizes(inclusive(sorted_tree(t, by_size))) == sum_sizes(inclusive(t)),
{
    let st = sorted_tree(t, by_size);
    law_sort_keeps_objects(t, by_size);
    assert(own_entries(st) == own_entries(t));
    law_inclusive_objects(t);
    law_inclusive_objects(st);
    lemma_sorted_tree_sized(t, by_size, size_of);
    lemma_inclusive_sized(t, size_of);
    lemma_inclusive_sized(st, size_of);
    law_sum_by_objects(inclusive(st), inclusive(t), size_of);
}

/// Sorted by size, the children of a node of a sorted tree whose objects
/// have one size throughout are in non-increasing order of the bytes they
/// retain.
pub proof fn law_sorted_children_by_size(t: SpecTree, size_of: spec_fn(usize) -> usize)
    requires
        tree_wf(t),
        tree_sized(t, size_of),
    ensures
        forall|i: int, j: int|
            0 <= i < j < sorted_tree(t, true).children.len() ==> sum_sizes(
                inclusive(#[trigger] sorted_tree(t, true).children[i]),
            ) >= sum_sizes(inclusive(#[trigger] sorted_tree(t, true).children[j])),
{
    let cs = t.children;
    let kp = keyed_sorted(cs, true);
    let ks = stable_sort_desc(kp);
    let sc = sorted_tree(t, true).children;
    assert(sc == ks.map_values(|p: (nat, SpecTree)| p.1));
    lemma_keyed_sorted(cs, true);
    lemma_stable_sort_len(kp);
    law_sort_is_permutation(kp);
    law_sort_is_descending(kp);
    assert forall|k: int| 0 <= k < ks.len() implies #[trigger] ks[k].0 == sum_sizes(inclusive(ks[k].1)) by {
        let p = ks[k];
        assert(ks.contains(p));
        to_multiset_contains(ks, p);
        to_multiset_contains(kp, p);
        let i = choose|i: int| 0 <= i < kp.len() && kp[i] == p;
        assert(tree_wf(cs[i]));
        assert(tree_sized(cs[i], size_of));
        law_sort_keeps_size(cs[i], true, size_of);
    }
    assert forall|i: int, j: int| 0 <= i < j < sc.len() implies sum_sizes(inclusive(#[trigger] sc[i])) >= sum_sizes(
        inclusive(#[trigger] sc[j]),
    ) by {
        assert(sc[i] == ks[i].1 && sc[j] == ks[j].1);
        assert(ks[i].0 >= ks[j].0);
    }
}


/// The size an object has in the snapshot (zero where unknown).
pub open spec fn snapshot_size(heap: Map<usize, ObjectInfo>) -> spec_fn(usize) -> usize {
    |id: usize| size_or_zero(heap[id])
}

/// In the nodes that tree building adds, every object has its size in the
/// snapshot.
pub proof fn law_built_children_sized(
    heap: Map<usize, ObjectInfo>,
    groups: Seq<(usize, Seq<(usize, usize)>)>,
    depth: nat,
    max_depth: nat,
    refs_threshold: nat,
    bytes_threshold: nat,
)
    requires
        forall|g: int| 0 <= g < groups.len() ==> entries_sized(#[trigger] groups[g].1, snapshot_size(heap)),
    ensures
        forall|i: int|
            0 <= i < built_children(heap, groups, depth, max_depth, refs_threshold, bytes_threshold).len()
                ==> tree_sized(
                #[trigger] built_children(heap, groups, depth, max_depth, refs_threshold, bytes_threshold)[i],
                snapshot_size(heap),
            ),
    decreases max_depth - depth, groups.len(),
{
    let f = snapshot_size(heap);
    if groups.len() > 0 {
        let pg = groups.drop_last();
        assert forall|g: int| 0 <= g < pg.len() implies entries_sized(#[trigger] pg[g].1, f) by {
            assert(pg[g] == groups[g]);
        }
        law_built_children_sized(heap, pg, depth, max_depth, refs_threshold, bytes_threshold);
        let prev = built_children(heap, pg, depth, max_depth, refs_threshold, bytes_threshold);
        let cs = built_children(heap, groups, depth, max_depth, refs_threshold, bytes_threshold);
        let g = groups.last();
        assert(entries_sized(groups[groups.len() - 1].1, f));
        if depth + 1 <= max_depth {
            let sub = group_objects(heap, refs_of(heap, g.1));
            law_grouping(heap, refs_of(heap, g.1));
            assert forall|x: int| 0 <= x < sub.len() implies entries_sized(#[trigger] sub[x].1, f) by {
                assert forall|k: int| 0 <= k < sub[x].1.len() implies (#[trigger] sub[x].1[k]).1 == f(sub[x].1[k].0) by {
                    assert(sub[x].1[k].1 == size_or_zero(heap[sub[x].1[k].0]));
                }
            }
            law_built_children_sized(heap, sub, depth + 1, max_depth, refs_threshold, bytes_threshold);
        }
        assert forall|i: int| 0 <= i < cs.len() implies tree_sized(#[trigger] cs[i], f) by {
            if i < prev.len() {
                assert(cs[i] == prev[i]);
            } else {
                let child = cs[i];
                assert(own_entries(child) == g.1);
                if depth + 1 <= max_depth {
                    let sub = group_objects(heap, refs_of(heap, g.1));
                    let gc = built_children(heap, sub, depth + 1, max_depth, refs_threshold, bytes_threshold);
                    assert(child.children == gc);
                    assert forall|k: int| 0 <= k < child.children.len() implies tree_sized(#[trigger] child.children[k], f) by {
                        assert(child.children[k] == gc[k]);
                    }
                }
            }
        }
    }
}

/// The retention tree of a snapshot, as `build_tree` builds it.
pub open spec fn retention_tree(
    heap: Map<usize, ObjectInfo>,
    roots: Seq<usize>,
    max_depth: nat,
    refs_threshold: nat,
    bytes_threshold: nat,
) -> SpecTree {
    SpecTree {
        key: 0,
        value: None,
        children: built_children(heap, group_objects(heap, roots), 0, max_depth, refs_threshold, bytes_threshold),
    }
}

/// At every node, the children come in non-increasing order of the bytes
/// (`by_size`) or of the number of objects they retain.
pub open spec fn children_ordered(t: SpecTree, by_size: bool) -> bool
    decreases t,
{
    &&& forall|i: int, j: int|
        0 <= i < j < t.children.len() ==> sort_key(#[trigger] t.children[i], by_size) >= sort_key(
            #[trigger] t.children[j],
            by_size,
        )
    &&& forall|i: int| 0 <= i < t.children.len() ==> children_ordered(#[trigger] t.children[i], by_size)
}

/// A sorted tree whose objects have one size throughout is ordered at every
/// node.
pub proof fn law_sorted_tree_ordered(t: SpecTree, by_size: bool, size_of: spec_fn(usize) -> usize)
    requires
        tree_wf(t),
        tree_sized(t, size_of),
    ensures
        children_ordered(sorted_tree(t, by_size), by_size),
    decreases t,
{
    let cs = t.children;
    let kp = keyed_sorted(cs, by_size);
    let ks = stable_sort_desc(kp);
    let st = sorted_tree(t, by_size);
    let sc = st.children;
    assert(sc == ks.map_values(|p: (nat, SpecTree)| p.1));
    lemma_keyed_sorted(cs, by_size);
    lemma_stable_sort_len(kp);
    law_sort_is_permutation(kp);
    if by_size {
        law_sorted_children_by_size(t, size_of);
    } else {
        law_sorted_children_by_count(t);
    }
    assert forall|k: int| 0 <= k < sc.len() implies children_ordered(#[trigger] sc[k], by_size) by {
        let p = ks[k];
        assert(ks.contains(p));
        to_multiset_contains(ks, p);
        to_multiset_contains(kp, p);
        let i = choose|i: int| 0 <= i < kp.len() && kp[i] == p;
        assert(tree_wf(cs[i]));
        assert(tree_sized(cs[i], size_of));
        law_sorted_tree_ordered(cs[i], by_size, size_of);
    }
    assert forall|i: int, j: int| 0 <= i < j < sc.len() implies sort_key(#[trigger] sc[i], by_size) >= sort_key(
        #[trigger] sc[j],
        by_size,
    ) by {
        if by_size {
            assert(sum_sizes(inclusive(sc[i])) >= sum_sizes(inclusive(sc[j])));
        } else {
            assert(inclusive(sc[i]).len() >= inclusive(sc[j]).len());
        }
    }
}

/// The report is in the order the settings ask for: in the sorted retention
/// tree of a snapshot, at every node, the classes come in non-increasing
/// order of the bytes they retain (sorted by size) or of the number of
/// objects they retain (sorted by count).
pub proof fn law_report_order(
    heap: Map<usize, ObjectInfo>,
    roots: Seq<usize>,
    max_depth: nat,
    refs_threshold: nat,
    bytes_threshold: nat,
    by_size: bool,
)
    ensures
        children_ordered(
            sorted_tree(retention_tree(heap, roots, max_depth, refs_threshold, bytes_threshold), by_size),
            by_size,
        ),
{
    let t = retention_tree(heap, roots, max_depth, refs_threshold, bytes_threshold);
    let gs = group_objects(heap, roots);
    let f = snapshot_size(heap);
    law_grouping(heap, roots);
    law_built_children_wf(heap, gs, 0, max_depth, refs_threshold, bytes_threshold);
    assert forall|x: int| 0 <= x < gs.len() implies entries_sized(#[trigger] gs[x].1, f) by {
        assert forall|k: int| 0 <= k < gs[x].1.len() implies (#[trigger] gs[x].1[k]).1 == f(gs[x].1[k].0) by {
            assert(gs[x].1[k].1 == size_or_zero(heap[gs[x].1[k].0]));
        }
    }
    law_built_children_sized(heap, gs, 0, max_depth, refs_threshold, bytes_threshold);
    assert(own_entries(t) =~= Seq::<(usize, usize)>::empty());
    assert(tree_wf(t));
    assert(tree_sized(t, f));
    law_sorted_tree_ordered(t, by_size, f);
}


/// Every branch below `t` meets both thresholds.
pub open spec fn branches_kept(t: SpecTree, refs_threshold: nat, bytes_threshold: nat) -> bool
    decreases t,
{
    forall|i: int|
        0 <= i < t.children.len() ==> kept(#[trigger] t.children[i], refs_threshold, bytes_threshold)
            && branches_kept(t.children[i], refs_threshold, bytes_threshold)
}

/// Every branch that tree building keeps, at every level, meets both
/// thresholds.
pub proof fn law_built_branches_kept(
    heap: Map<usize, ObjectInfo>,
    groups: Seq<(usize, Seq<(usize, usize)>)>,
    depth: nat,
    max_depth: nat,
    refs_threshold: nat,
    bytes_threshold: nat,
)
    ensures
        forall|i: int|
            0 <= i < built_children(heap, groups, depth, max_depth, refs_threshold, bytes_threshold).len()
                ==> branches_kept(
                #[trigger] built_children(heap, groups, depth, max_depth, refs_threshold, bytes_threshold)[i],
                refs_threshold,
                bytes_threshold,
            ),
    decreases max_depth - depth, groups.len(),
{
    if groups.len() > 0 {
        let pg = groups.drop_last();
        law_built_branches_kept(heap, pg, depth, max_depth, refs_threshold, bytes_threshold);
        let prev = built_children(heap, pg, depth, max_depth, refs_threshold, bytes_threshold);
        let cs = built_children(heap, groups, depth, max_depth, refs_threshold, bytes_threshold);
        let g = groups.last();
        if depth + 1 <= max_depth {
            let sub = group_objects(heap, refs_of(heap, g.1));
            law_built_branches_kept(heap, sub, depth + 1, max_depth, refs_threshold, bytes_threshold);
            law_built_children_meet_thresholds(heap, sub, depth + 1, max_depth, refs_threshold, bytes_threshold);
        }
        assert forall|i: int| 0 <= i < cs.len() implies branches_kept(#[trigger] cs[i], refs_threshold, bytes_threshold) by {
            if i < prev.len() {
                assert(cs[i] == prev[i]);
            } else {
                let child = cs[i];
                if depth + 1 <= max_depth {
                    let sub = group_objects(heap, refs_of(heap, g.1));
                    let gc = built_children(heap, sub, depth + 1, max_depth, refs_threshold, bytes_threshold);
                    assert(child.children == gc);
                    assert forall|k: int| 0 <= k < child.children.len() implies kept(
                        #[trigger] child.children[k],
                        refs_threshold,
                        bytes_threshold,
                    ) && branches_kept(child.children[k], refs_threshold, bytes_threshold) by {
                        assert(child.children[k] == gc[k]);
                    }
                }
            }
        }
    }
}

/// Sorting keeps every branch meeting the thresholds.
pub proof fn law_sort_keeps_branches_kept(
    t: SpecTree,
    by_size: bool,
    size_of: spec_fn(usize) -> usize,
    refs_threshold: nat,
    bytes_threshold: nat,
)
    requires
        tree_wf(t),
        tree_sized(t, size_of),
        branches_kept(t, refs_threshold, bytes_threshold),
    ensures
        branches_kept(sorted_tree(t, by_size), refs_threshold, bytes_threshold),
    decreases t,
{
    let cs = t.children;
    let kp = keyed_sorted(cs, by_size);
    let ks = stable_sort_desc(kp);
    let sc = sorted_tree(t, by_size).children;
    assert(sc == ks.map_values(|p: (nat, SpecTree)| p.1));
    lemma_keyed_sorted(cs, by_size);
    lemma_stable_sort_len(kp);
    law_sort_is_permutation(kp);
    assert forall|k: int| 0 <= k < sc.len() implies kept(#[trigger] sc[k], refs_threshold, bytes_threshold)
        && branches_kept(sc[k], refs_threshold, bytes_threshold) by {
        let p = ks[k];
        assert(ks.contains(p));
        to_multiset_contains(ks, p);
        to_multiset_contains(kp, p);
        let i = choose|i: int| 0 <= i < kp.len() && kp[i] == p;
        let c = cs[i];
        assert(tree_wf(c) && tree_sized(c, size_of));
        assert(kept(c, refs_threshold, bytes_threshold) && branches_kept(c, refs_threshold, bytes_threshold));
        law_sort_keeps_count(c, by_size);
        law_sort_keeps_size(c, by_size, size_of);
        law_sort_keeps_branches_kept(c, by_size, size_of, refs_threshold, bytes_threshold);
    }
}

/// Every class in the report meets both thresholds: in the sorted retention
/// tree of a snapshot, every branch retains at least the threshold number of
/// objects and of bytes.
pub proof fn law_report_thresholds(
    heap: Map<usize, ObjectInfo>,
    roots: Seq<usize>,
    max_depth: nat,
    refs_threshold: nat,
    bytes_threshold: nat,
    by_size: bool,
)
    ensures
        branches_kept(
            sorted_tree(retention_tree(heap, roots, max_depth, refs_threshold, bytes_threshold), by_size),
            refs_threshold,
            bytes_threshold,
        ),
{
    let t = retention_tree(heap, roots, max_depth, refs_threshold, bytes_threshold);
    let gs = group_objects(heap, roots);
    let f = snapshot_size(heap);
    law_grouping(heap, roots);
    law_built_children_wf(heap, gs, 0, max_depth, refs_threshold, bytes_threshold);
    assert forall|x: int| 0 <= x < gs.len() implies entries_sized(#[trigger] gs[x].1, f) by {
        assert forall|k: int| 0 <= k < gs[x].1.len() implies (#[trigger] gs[x].1[k]).1 == f(gs[x].1[k].0) by {
            assert(gs[x].1[k].1 == size_or_zero(heap[gs[x].1[k].0]));
        }
    }
    law_built_children_sized(heap, gs, 0, max_depth, refs_threshold, bytes_threshold);
    law_built_children_meet_thresholds(heap, gs, 0, max_depth, refs_threshold, bytes_threshold);
    law_built_branches_kept(heap, gs, 0, max_depth, refs_threshold, bytes_threshold);
    assert(own_entries(t) =~= Seq::<(usize, usize)>::empty());
    assert(tree_wf(t));
    assert(tree_sized(t, f));
    assert(branches_kept(t, refs_threshold, bytes_threshold));
    law_sort_keeps_branches_kept(t, by_size, f, refs_threshold, bytes_threshold);
}


/// Sorting keeps how deep a tree goes.
pub proof fn law_sort_keeps_levels(t: SpecTree, by_size: bool, levels: nat)
    requires
        within_levels(t, levels),
    ensures
        within_levels(sorted_tree(t, by_size), levels),
    decreases t,
{
    let cs = t.children;
    let kp = keyed_sorted(cs, by_size);
    let ks = stable_sort_desc(kp);
    let sc = sorted_tree(t, by_size).children;
    assert(sc == ks.map_values(|p: (nat, SpecTree)| p.1));
    lemma_keyed_sorted(cs, by_size);
    lemma_stable_sort_len(kp);
    if levels == 0 {
        assert(sc.len() == 0);
    } else {
        law_sort_is_permutation(kp);
        assert forall|k: int| 0 <= k < sc.len() implies within_levels(#[trigger] sc[k], (levels - 1) as nat) by {
            let p = ks[k];
            assert(ks.contains(p));
            to_multiset_contains(ks, p);
            to_multiset_contains(kp, p);
            let i = choose|i: int| 0 <= i < kp.len() && kp[i] == p;
            assert(within_levels(cs[i], (levels - 1) as nat));
            law_sort_keeps_levels(cs[i], by_size, (levels - 1) as nat);
        }
    }
}

/// Drilling stops at the maximum retention depth: in the sorted retention
/// tree, no path below a class at the top goes more than the maximum depth
/// further down.
pub proof fn law_report_depth(
    heap: Map<usize, ObjectInfo>,
    roots: Seq<usize>,
    max_depth: nat,
    refs_threshold: nat,
    bytes_threshold: nat,
    by_size: bool,
)
    ensures
        within_levels(
            sorted_tree(retention_tree(heap, roots, max_depth, refs_threshold, bytes_threshold), by_size),
            max_depth + 1,
        ),
{
    let t = retention_tree(heap, roots, max_depth, refs_threshold, bytes_threshold);
    let gs = group_objects(heap, roots);
    law_built_children_depth(heap, gs, 0, max_depth, refs_threshold, bytes_threshold);
    assert(within_levels(t, max_depth + 1));
    law_sort_keeps_levels(t, by_size, max_depth + 1);
}


/// The value that the last pair of `b` with key `k` gives, if any.
pub open spec fn last_value(b: Seq<(usize, usize)>, k: usize) -> Option<usize>
    decreases b.len(),
{
    if b.len() == 0 {
        None
    } else if b.last().0 == k {
        Some(b.last().1)
    } else {
        last_value(b.drop_last(), k)
    }
}

/// Inserting pairs whose keys are all present already changes no key and
/// no position: each entry takes the last value that `b` gives its key.
proof fn lemma_extend_present(s: Seq<(usize, usize)>, b: Seq<(usize, usize)>)
    requires
        keys_distinct(s),
        forall|i: int| 0 <= i < b.len() ==> key_set(s).contains(#[trigger] b[i].0),
    ensures
        extend_entries(s, b).len() == s.len(),
        forall|j: int|
            0 <= j < s.len() ==> #[trigger] extend_entries(s, b)[j] == (
                s[j].0,
                match last_value(b, s[j].0) {
                    Some(v) => v,
                    None => s[j].1,
                },
            ),
    decreases b.len(),
{
    if b.len() > 0 {
        let b0 = b.drop_last();
        assert forall|i: int| 0 <= i < b0.len() implies key_set(s).contains(#[trigger] b0[i].0) by {
            assert(b0[i] == b[i]);
        }
        lemma_extend_present(s, b0);
        let e = extend_entries(s, b0);
        let x = b.last();
        assert(b[b.len() - 1] == x);
        assert(key_set(s).contains(x.0));
        let q = choose|q: int| 0 <= q < s.len() && s[q].0 == x.0;
        assert(e[q].0 == x.0);
        lemma_index_of_key(e, x.0);
        let i = index_of_key(e, x.0);
        assert(i >= 0);
        assert(e[i].0 == x.0);
        assert(e[i].0 == s[i].0);
        assert(i == q);
        let r = extend_entries(s, b);
        assert(r == e.update(i, (x.0, x.1)));
        assert forall|j: int| 0 <= j < s.len() implies #[trigger] r[j] == (
            s[j].0,
            match last_value(b, s[j].0) {
                Some(v) => v,
                None => s[j].1,
            },
        ) by {
            if j != i {
                assert(s[j].0 != x.0);
                assert(r[j] == e[j]);
            }
        }
    }
}

/// After inserting `b`, the last value `b` gives each of its keys is the
/// entry for that key.
proof fn lemma_extend_last_value(a: Seq<(usize, usize)>, b: Seq<(usize, usize)>, k: usize, v: usize)
    requires
        last_value(b, k) == Some(v),
    ensures
        exists|p: int| 0 <= p < extend_entries(a, b).len() && extend_entries(a, b)[p] == (k, v),
    decreases b.len(),
{
    let b0 = b.drop_last();
    let x = b.last();
    let e = extend_entries(a, b0);
    let r = extend_entries(a, b);
    lemma_index_of_key(e, x.0);
    let i = index_of_key(e, x.0);
    if x.0 == k {
        if i >= 0 {
            assert(r[i] == (k, v));
        } else {
            assert(r[e.len() as int] == (k, v));
        }
    } else {
        lemma_extend_last_value(a, b0, k, v);
        let p = choose|p: int| 0 <= p < e.len() && e[p] == (k, v);
        if i >= 0 {
            assert(p != i);
            assert(r[p] == (k, v));
        } else {
            assert(r[p] == (k, v));
        }
    }
}

/// Adding the objects of `b` twice is adding them once.
pub proof fn law_add_assign_idempotent(a: Seq<(usize, usize)>, b: Seq<(usize, usize)>)
    requires
        keys_distinct(a),
    ensures
        extend_entries(extend_entries(a, b), b) == extend_entries(a, b),
{
    let c = extend_entries(a, b);
    law_extend_objects(a, b);
    assert forall|i: int| 0 <= i < b.len() implies key_set(c).contains(#[trigger] b[i].0) by {
        assert(key_set(b).contains(b[i].0));
    }
    lemma_extend_present(c, b);
    let r = extend_entries(c, b);
    assert forall|j: int| 0 <= j < c.len() implies r[j] == c[j] by {
        match last_value(b, c[j].0) {
            Some(v) => {
                lemma_extend_last_value(a, b, c[j].0, v);
                let p = choose|p: int| 0 <= p < c.len() && c[p] == (c[j].0, v);
                assert(p == j);
            },
            None => {},
        }
    }
    assert(r =~= c);
}

/// Adding no objects changes nothing.
pub proof fn law_add_assign_identity(a: Seq<(usize, usize)>)
    ensures
        extend_entries(a, Seq::empty()) == a,
{
}


/// A list of distinct objects whose objects are among those of another
/// such list, with the sizes `size_of` gives them, totals no more.
pub proof fn law_sum_subset(s1: Seq<(usize, usize)>, s2: Seq<(usize, usize)>, size_of: spec_fn(usize) -> usize)
    requires
        keys_distinct(s1),
        keys_distinct(s2),
        entries_sized(s1, size_of),
        entries_sized(s2, size_of),
        key_set(s1).subset_of(key_set(s2)),
    ensures
        sum_sizes(s1) <= sum_sizes(s2),
    decreases s1.len(),
{
    if s1.len() > 0 {
        let k = s1.last().0;
        assert(s1[s1.len() - 1].0 == k);
        assert(key_set(s1).contains(k));
        let j = choose|j: int| 0 <= j < s2.len() && s2[j].0 == k;
        lemma_sum_remove(s2, j);
        let t1 = s1.drop_last();
        let t2 = s2.remove(j);
        assert forall|x: usize| key_set(t1).contains(x) implies key_set(t2).contains(x) by {
            let i = choose|i: int| 0 <= i < t1.len() && t1[i].0 == x;
            assert(s1[i].0 == x);
            assert(x != k);
            assert(key_set(s1).contains(x));
            let q = choose|q: int| 0 <= q < s2.len() && s2[q].0 == x;
            if q < j {
                assert(t2[q].0 == x);
            } else {
                assert(q != j);
                assert(t2[q - 1].0 == x);
            }
        }
        assert forall|a: int, b: int| 0 <= a < b < t2.len() implies t2[a].0 != t2[b].0 by {
            let a2 = if a < j { a } else { a + 1 };
            let b2 = if b < j { b } else { b + 1 };
            assert(t2[a] == s2[a2] && t2[b] == s2[b2]);
        }
        assert forall|i: int| 0 <= i < t2.len() implies (#[trigger] t2[i]).1 == size_of(t2[i].0) by {
            let i2 = if i < j { i } else { i + 1 };
            assert(t2[i] == s2[i2]);
        }
        assert forall|i: int| 0 <= i < t1.len() implies (#[trigger] t1[i]).1 == size_of(t1[i].0) by {
            assert(t1[i] == s1[i]);
        }
        law_sum_subset(t1, t2, size_of);
        assert(s1[s1.len() - 1].1 == size_of(k));
        assert(s2[j].1 == size_of(k));
    }
}

/// The node that tree building makes for the class group `group` at
/// `depth`, before the thresholds decide whether it stays.
pub open spec fn group_child(
    heap: Map<usize, ObjectInfo>,
    group: (usize, Seq<(usize, usize)>),
    depth: nat,
    max_depth: nat,
    refs_threshold: nat,
    bytes_threshold: nat,
) -> SpecTree {
    SpecTree {
        key: group.0,
        value: Some(group.1),
        children: if depth + 1 > max_depth {
            Seq::empty()
        } else {
            built_children(
                heap,
                group_objects(heap, refs_of(heap, group.1)),
                depth + 1,
                max_depth,
                refs_threshold,
                bytes_threshold,
            )
        },
    }
}

/// Under higher thresholds, the node of a class group retains no object
/// that it does not retain under lower ones, and it is kept only where it is
/// kept under the lower ones.
pub proof fn lemma_group_child_monotone(
    heap: Map<usize, ObjectInfo>,
    group: (usize, Seq<(usize, usize)>),
    depth: nat,
    max_depth: nat,
    r1: nat,
    b1: nat,
    r2: nat,
    b2: nat,
)
    requires
        r1 <= r2,
        b1 <= b2,
        keys_distinct(group.1),
        entries_sized(group.1, snapshot_size(heap)),
    ensures
        key_set(inclusive(group_child(heap, group, depth, max_depth, r2, b2))).subset_of(
            key_set(inclusive(group_child(heap, group, depth, max_depth, r1, b1))),
        ),
        kept(group_child(heap, group, depth, max_depth, r2, b2), r2, b2) ==> kept(
            group_child(heap, group, depth, max_depth, r1, b1),
            r1,
            b1,
        ),
    decreases max_depth - depth, 0nat,
{
    let f = snapshot_size(heap);
    let c1 = group_child(heap, group, depth, max_depth, r1, b1);
    let c2 = group_child(heap, group, depth, max_depth, r2, b2);
    law_inclusive_objects(c1);
    law_inclusive_objects(c2);
    if depth + 1 <= max_depth {
        let ids = refs_of(heap, group.1);
        let sub = group_objects(heap, ids);
        law_grouping(heap, ids);
        assert forall|x: int| 0 <= x < sub.len() implies entries_sized(#[trigger] sub[x].1, f) by {
            assert forall|k: int| 0 <= k < sub[x].1.len() implies (#[trigger] sub[x].1[k]).1 == f(sub[x].1[k].0) by {
                assert(sub[x].1[k].1 == size_or_zero(heap[sub[x].1[k].0]));
            }
        }
        law_built_children_monotone(heap, sub, depth + 1, max_depth, r1, b1, r2, b2);
        let cs1 = c1.children;
        let cs2 = c2.children;
        assert forall|x: usize| subtree_objects(cs2).contains(x) implies subtree_objects(cs1).contains(x) by {
            lemma_subtree_objects(cs2, x);
            lemma_subtree_objects(cs1, x);
            let i = choose|i: int| 0 <= i < cs2.len() && key_set(inclusive(#[trigger] cs2[i])).contains(x);
            let j = choose|j: int|
                0 <= j < cs1.len() && cs1[j].key == cs2[i].key && key_set(inclusive(cs2[i])).subset_of(
                    key_set(inclusive(#[trigger] cs1[j])),
                );
        }
        law_built_children_sized(heap, sub, depth + 1, max_depth, r1, b1);
        law_built_children_sized(heap, sub, depth + 1, max_depth, r2, b2);
    } else {
        assert(c1.children == c2.children);
    }
    assert(own_entries(c1) == group.1 && own_entries(c2) == group.1);
    assert(tree_sized(c1, f) && tree_sized(c2, f));
    lemma_inclusive_sized(c1, f);
    lemma_inclusive_sized(c2, f);
    let i1 = inclusive(c1);
    let i2 = inclusive(c2);
    assert(key_set(i2).subset_of(key_set(i1)));
    law_distinct_count(i1);
    law_distinct_count(i2);
    vstd::set_lib::lemma_len_subset(key_set(i2), key_set(i1));
    law_sum_subset(i2, i1, f);
}

/// Under higher thresholds, tree building keeps no class that it does not
/// keep under lower ones, and each kept node retains no object that its
/// counterpart under the lower thresholds does not.
pub proof fn law_built_children_monotone(
    heap: Map<usize, ObjectInfo>,
    groups: Seq<(usize, Seq<(usize, usize)>)>,
    depth: nat,
    max_depth: nat,
    r1: nat,
    b1: nat,
    r2: nat,
    b2: nat,
)
    requires
        r1 <= r2,
        b1 <= b2,
        forall|g: int|
            0 <= g < groups.len() ==> keys_distinct(#[trigger] groups[g].1) && entries_sized(
                groups[g].1,
                snapshot_size(heap),
            ),
    ensures
        ({
            let cs1 = built_children(heap, groups, depth, max_depth, r1, b1);
            let cs2 = built_children(heap, groups, depth, max_depth, r2, b2);
            forall|i: int|
                0 <= i < cs2.len() ==> exists|j: int|
                    0 <= j < cs1.len() && cs1[j].key == (#[trigger] cs2[i]).key && key_set(
                        inclusive(cs2[i]),
                    ).subset_of(key_set(inclusive(#[trigger] cs1[j])))
        }),
    decreases max_depth - depth, groups.len(),
{
    if groups.len() > 0 {
        let pg = groups.drop_last();
        assert forall|g: int| 0 <= g < pg.len() implies keys_distinct(#[trigger] pg[g].1) && entries_sized(
            pg[g].1,
            snapshot_size(heap),
        ) by {
            assert(pg[g] == groups[g]);
        }
        law_built_children_monotone(heap, pg, depth, max_depth, r1, b1, r2, b2);
        let g = groups.last();
        assert(groups[groups.len() - 1] == g);
        lemma_group_child_monotone(heap, g, depth, max_depth, r1, b1, r2, b2);
        let p1 = built_children(heap, pg, depth, max_depth, r1, b1);
        let p2 = built_children(heap, pg, depth, max_depth, r2, b2);
        let cs1 = built_children(heap, groups, depth, max_depth, r1, b1);
        let cs2 = built_children(heap, groups, depth, max_depth, r2, b2);
        let c1 = group_child(heap, g, depth, max_depth, r1, b1);
        let c2 = group_child(heap, g, depth, max_depth, r2, b2);
        assert(cs1 == if kept(c1, r1, b1) { p1.push(c1) } else { p1 });
        assert(cs2 == if kept(c2, r2, b2) { p2.push(c2) } else { p2 });
        assert forall|i: int| 0 <= i < cs2.len() implies exists|j: int|
            0 <= j < cs1.len() && cs1[j].key == (#[trigger] cs2[i]).key && key_set(inclusive(cs2[i])).subset_of(
                key_set(inclusive(#[trigger] cs1[j])),
            ) by {
            if i < p2.len() {
                assert(cs2[i] == p2[i]);
                let j = choose|j: int|
                    0 <= j < p1.len() && p1[j].key == (#[trigger] p2[i]).key && key_set(inclusive(p2[i])).subset_of(
                        key_set(inclusive(#[trigger] p1[j])),
                    );
                assert(cs1[j] == p1[j]);
            } else {
                assert(cs2[i] == c2);
                assert(cs1[p1.len() as int] == c1);
            }
        }
    }
}

/// Raising a threshold never adds a class: every class that tree building
/// keeps for the objects `ids` under the thresholds `(r2, b2)` it also keeps
/// under lower thresholds `(r1, b1)`; under equal thresholds it builds the
/// same children.
#[verifier::spinoff_prover]
#[verifier::rlimit(50)]
pub proof fn law_thresholds_monotone(
    heap: Map<usize, ObjectInfo>,
    ids: Seq<usize>,
    depth: nat,
    max_depth: nat,
    r1: nat,
    b1: nat,
    r2: nat,
    b2: nat,
)
    requires
        r1 <= r2,
        b1 <= b2,
    ensures
        ({
            let cs1 = built_children(heap, group_objects(heap, ids), depth, max_depth, r1, b1);
            let cs2 = built_children(heap, group_objects(heap, ids), depth, max_depth, r2, b2);
            &&& forall|i: int|
                0 <= i < cs2.len() ==> exists|j: int|
                    0 <= j < cs1.len() && cs1[j].key == (#[trigger] cs2[i]).key
            &&& (r1 == r2 && b1 == b2) ==> cs1 == cs2
        }),
{
    let gs = group_objects(heap, ids);
    let f = snapshot_size(heap);
    law_grouping(heap, ids);
    assert forall|x: int| 0 <= x < gs.len() implies keys_distinct(#[trigger] gs[x].1) && entries_sized(gs[x].1, f) by {
        assert forall|k: int| 0 <= k < gs[x].1.len() implies (#[trigger] gs[x].1[k]).1 == f(gs[x].1[k].0) by {
            assert(gs[x].1[k].1 == size_or_zero(heap[gs[x].1[k].0]));
        }
    }
    law_built_children_monotone(heap, gs, depth, max_depth, r1, b1, r2, b2);
    let cs1 = built_children(heap, gs, depth, max_depth, r1, b1);
    let cs2 = built_children(heap, gs, depth, max_depth, r2, b2);
    assert forall|i: int| 0 <= i < cs2.len() implies exists|j: int| 0 <= j < cs1.len() && cs1[j].key == (#[trigger] cs2[i]).key by {
        let j = choose|j: int|
            0 <= j < cs1.len() && cs1[j].key == (#[trigger] cs2[i]).key && key_set(inclusive(cs2[i])).subset_of(
                key_set(inclusive(#[trigger] cs1[j])),
            );
    }
}


/// A number written in decimal reads back as itself.
pub proof fn law_decimal_reads_back(n: nat)
    ensures
        decimal(n).len() > 0,
        forall|i: int| 0 <= i < decimal(n).len() ==> is_digit(#[trigger] decimal(n)[i]),
        digits_value(decimal(n)) == n,
        n <= usize::MAX ==> parse_usize_text(decimal(n)) == Some(n as usize),
    decreases n,
{
    if n < 10 {
        let c = digit_char(n);
        assert(c as nat == 48 + n);
        assert(decimal(n) == seq![c]);
        assert(seq![c].drop_last() =~= Seq::<char>::empty());
        assert(seq![c].last() == c);
        assert(digits_value(seq![c]) == digits_value(Seq::<char>::empty()) * 10 + ((c as nat) - 48) as nat);
        assert(digits_value(decimal(n)) == n);
    } else {
        law_decimal_reads_back(n / 10);
        let c = digit_char(n % 10);
        assert(c as nat == 48 + n % 10);
        let d = decimal(n);
        assert(d == decimal(n / 10).push(c));
        assert(d.drop_last() == decimal(n / 10));
        assert(d.last() == c);
        assert(n == (n / 10) * 10 + n % 10) by (nonlinear_arith);
        assert(digits_value(d) == digits_value(decimal(n / 10)) * 10 + ((c as nat) - 48) as nat);
        assert(digits_value(d) == n);
        assert forall|i: int| 0 <= i < d.len() implies is_digit(#[trigger] d[i]) by {
            if i < d.len() - 1 {
                assert(d[i] == decimal(n / 10)[i]);
            }
        }
    }
    let d = decimal(n);
    assert(is_digit(d[0]));
    assert(unsigned_digits(d) == d);
}

/// The parameters that `profiler_info` declares, read as a session's
/// parameters, give the default settings.
pub proof fn law_declared_parameters_give_defaults(params: Seq<(String, String)>)
    requires
        params.len() == 4,
        params[0].0@ == "sort_by_size"@,
        params[0].1@ == "true"@,
        params[1].0@ == "retained_references_threshold"@,
        params[1].1@ == decimal(default_settings().retained_references_threshold as nat),
        params[2].0@ == "retained_bytes_threshold"@,
        params[2].1@ == decimal(default_settings().retained_bytes_threshold as nat),
        params[3].0@ == "max_retention_depth"@,
        params[3].1@ == decimal(default_settings().max_retention_depth as nat),
    ensures
        settings_from(params) == Some(default_settings()),
{
    reveal_strlit("sort_by_size");
    reveal_strlit("retained_references_threshold");
    reveal_strlit("retained_bytes_threshold");
    reveal_strlit("max_retention_depth");
    law_decimal_reads_back(100);
    law_decimal_reads_back(10000);
    law_decimal_reads_back(4);
    let p1 = params.drop_first();
    let p2 = p1.drop_first();
    let p3 = p2.drop_first();
    assert(p1[0] == params[1] && p2[0] == params[2] && p3[0] == params[3]);
    assert(params[0].0@.len() != "retained_references_threshold"@.len());
    assert(params[0].0@.len() != "retained_bytes_threshold"@.len());
    assert(params[0].0@.len() != "max_retention_depth"@.len());
    assert(p1[0].0@.len() != "retained_bytes_threshold"@.len());
    assert(p1[0].0@.len() != "max_retention_depth"@.len());
    assert(p2[0].0@.len() != "max_retention_depth"@.len());
    let k1 = "retained_references_threshold"@;
    let k2 = "retained_bytes_threshold"@;
    let k3 = "max_retention_depth"@;
    assert(parameter_value(params, "sort_by_size"@) == Some(params[0].1@));
    assert(parameter_value(p1, k1) == Some(params[1].1@));
    assert(parameter_value(params, k1) == Some(params[1].1@));
    assert(parameter_value(p2, k2) == Some(params[2].1@));
    assert(parameter_value(p1, k2) == Some(params[2].1@));
    assert(parameter_value(params, k2) == Some(params[2].1@));
    assert(parameter_value(p3, k3) == Some(params[3].1@));
    assert(parameter_value(p2, k3) == Some(params[3].1@));
    assert(parameter_value(p1, k3) == Some(params[3].1@));
    assert(parameter_value(params, k3) == Some(params[3].1@));
}


/// Tree building keeps exactly the class nodes whose inclusive value (their
/// own objects and what their kept subtree retains) holds at least
/// `refs_threshold` objects totalling at least `bytes_threshold` bytes:
/// every node it adds is the node of one class group, and the node of a
/// group is among them exactly when it meets both thresholds.
pub proof fn law_built_children_kept_exactly(
    heap: Map<usize, ObjectInfo>,
    groups: Seq<(usize, Seq<(usize, usize)>)>,
    depth: nat,
    max_depth: nat,
    refs_threshold: nat,
    bytes_threshold: nat,
)
    requires
        keys_distinct(groups),
    ensures
        ({
            let cs = built_children(heap, groups, depth, max_depth, refs_threshold, bytes_threshold);
            &&& forall|i: int|
                0 <= i < cs.len() ==> exists|j: int|
                    0 <= j < groups.len() && #[trigger] cs[i] == group_child(
                        heap,
                        groups[j],
                        depth,
                        max_depth,
                        refs_threshold,
                        bytes_threshold,
                    )
            &&& forall|j: int|
                0 <= j < groups.len() ==> ({
                    let c = group_child(heap, #[trigger] groups[j], depth, max_depth, refs_threshold, bytes_threshold);
                    (inclusive(c).len() >= refs_threshold && sum_sizes(inclusive(c)) >= bytes_threshold)
                        <==> (exists|i: int| 0 <= i < cs.len() && cs[i] == c)
                })
        }),
    decreases groups.len(),
{
    let cs = built_children(heap, groups, depth, max_depth, refs_threshold, bytes_threshold);
    if groups.len() > 0 {
        let pg = groups.drop_last();
        assert forall|a: int, b: int| 0 <= a < b < pg.len() implies pg[a].0 != pg[b].0 by {
            assert(pg[a] == groups[a] && pg[b] == groups[b]);
        }
        law_built_children_kept_exactly(heap, pg, depth, max_depth, refs_threshold, bytes_threshold);
        let prev = built_children(heap, pg, depth, max_depth, refs_threshold, bytes_threshold);
        let last = groups.len() - 1;
        let g = groups[last];
        assert(groups.last() == g);
        let c = group_child(heap, g, depth, max_depth, refs_threshold, bytes_threshold);
        assert(cs == if kept(c, refs_threshold, bytes_threshold) { prev.push(c) } else { prev });
        // The nodes built for the earlier groups have keys other than `g`'s.
        assert forall|i: int| 0 <= i < prev.len() implies (#[trigger] prev[i]).key != g.0 by {
            let j = choose|j: int|
                0 <= j < pg.len() && #[trigger] prev[i] == group_child(
                    heap,
                    pg[j],
                    depth,
                    max_depth,
                    refs_threshold,
                    bytes_threshold,
                );
            assert(pg[j] == groups[j]);
        }
        assert forall|i: int| 0 <= i < cs.len() implies exists|j: int|
            0 <= j < groups.len() && #[trigger] cs[i] == group_child(
                heap,
                groups[j],
                depth,
                max_depth,
                refs_threshold,
                bytes_threshold,
            ) by {
            if i < prev.len() {
                assert(cs[i] == prev[i]);
                let j = choose|j: int|
                    0 <= j < pg.len() && #[trigger] prev[i] == group_child(
                        heap,
                        pg[j],
                        depth,
                        max_depth,
                        refs_threshold,
                        bytes_threshold,
                    );
                assert(pg[j] == groups[j]);
            } else {
                assert(cs[i] == group_child(heap, groups[last], depth, max_depth, refs_threshold, bytes_threshold));
            }
        }
        assert forall|j: int| 0 <= j < groups.len() implies ({
            let cj = group_child(heap, #[trigger] groups[j], depth, max_depth, refs_threshold, bytes_threshold);
            (inclusive(cj).len() >= refs_threshold && sum_sizes(inclusive(cj)) >= bytes_threshold)
                <==> (exists|i: int| 0 <= i < cs.len() && cs[i] == cj)
        }) by {
            let cj = group_child(heap, groups[j], depth, max_depth, refs_threshold, bytes_threshold);
            if j < last {
                assert(pg[j] == groups[j]);
                assert(cj.key != c.key);
                if exists|i: int| 0 <= i < cs.len() && cs[i] == cj {
                    let i = choose|i: int| 0 <= i < cs.len() && cs[i] == cj;
                    if i < prev.len() {
                        assert(prev[i] == cj);
                    }
                }
                if exists|i: int| 0 <= i < prev.len() && prev[i] == cj {
                    let i = choose|i: int| 0 <= i < prev.len() && prev[i] == cj;
                    assert(cs[i] == cj);
                }
            } else {
                assert(cj == c);
                if kept(c, refs_threshold, bytes_threshold) {
                    assert(cs[prev.len() as int] == c);
                } else {
                    if exists|i: int| 0 <= i < cs.len() && cs[i] == cj {
                        let i = choose|i: int| 0 <= i < cs.len() && cs[i] == cj;
                        assert(prev[i].key != g.0);
                    }
                }
            }
        }
    }
}

/// `build_tree_nodes` keeps exactly the classes whose inclusive value meets
/// both thresholds: for the objects `ids`, the node of a class group is
/// added exactly when its inclusive value holds at least `refs_threshold`
/// objects and at least `bytes_threshold` bytes, and it adds nothing else.
pub proof fn law_build_tree_nodes_keeps_by_inclusive_value(
    heap: Map<usize, ObjectInfo>,
    ids: Seq<usize>,
    depth: nat,
    max_depth: nat,
    refs_threshold: nat,
    bytes_threshold: nat,
)
    ensures
        ({
            let gs = group_objects(heap, ids);
            let cs = built_children(heap, gs, depth, max_depth, refs_threshold, bytes_threshold);
            &&& forall|i: int|
                0 <= i < cs.len() ==> exists|j: int|
                    0 <= j < gs.len() && #[trigger] cs[i] == group_child(
                        heap,
                        gs[j],
                        depth,
                        max_depth,
                        refs_threshold,
                        bytes_threshold,
                    )
            &&& forall|j: int|
                0 <= j < gs.len() ==> ({
                    let c = group_child(heap, #[trigger] gs[j], depth, max_depth, refs_threshold, bytes_threshold);
                    (inclusive(c).len() >= refs_threshold && sum_sizes(inclusive(c)) >= bytes_threshold)
                        <==> (exists|i: int| 0 <= i < cs.len() && cs[i] == c)
                })
        }),
{
    law_grouping(heap, ids);
    law_built_children_kept_exactly(
        heap,
        group_objects(heap, ids),
        depth,
        max_depth,
        refs_threshold,
        bytes_threshold,
    );
}


/// The number of HTML lines of the nodes `cs[0..i]`, together.
pub open spec fn lines_before(cs: Seq<SpecTree>, names: Map<usize, String>, i: int) -> int
    decreases i,
{
    if i <= 0 {
        0
    } else {
        lines_before(cs, names, i - 1) + html_lines(cs[i - 1], names).len()
    }
}

proof fn lemma_lines_before_prefix(cs: Seq<SpecTree>, names: Map<usize, String>, i: int)
    requires
        0 <= i < cs.len(),
    ensures
        lines_before(cs, names, i) == lines_before(cs.drop_last(), names, i),
    decreases i,
{
    if i > 0 {
        lemma_lines_before_prefix(cs, names, i - 1);
        assert(cs[i - 1] == cs.drop_last()[i - 1]);
    }
}

#[verifier::spinoff_prover]
#[verifier::rlimit(50)]
proof fn lemma_html_lines_seq(cs: Seq<SpecTree>, names: Map<usize, String>)
    ensures
        html_lines_seq(cs, names).len() == lines_before(cs, names, cs.len() as int),
        forall|i: int|
            0 <= i < cs.len() ==> html_lines_seq(cs, names).subrange(
                lines_before(cs, names, i),
                lines_before(cs, names, i) + html_lines(#[trigger] cs[i], names).len(),
            ) == html_lines(cs[i], names),
    decreases cs.len(),
{
    if cs.len() > 0 {
        let p = cs.drop_last();
        lemma_html_lines_seq(p, names);
        let a = html_lines_seq(p, names);
        let b = html_lines(cs.last(), names);
        let all = html_lines_seq(cs, names);
        assert(all == a + b);
        lemma_lines_before_prefix(cs, names, cs.len() - 1);
        assert(cs[cs.len() - 1] == cs.last());
        assert forall|i: int| 0 <= i < cs.len() implies all.subrange(
            lines_before(cs, names, i),
            lines_before(cs, names, i) + html_lines(#[trigger] cs[i], names).len(),
        ) == html_lines(cs[i], names) by {
            if i < cs.len() - 1 {
                lemma_lines_before_prefix(cs, names, i);
                assert(p[i] == cs[i]);
                lemma_lines_before_monotone(p, names, i + 1, p.len() as int);
                lemma_lines_before_monotone(p, names, 0, i);
                assert(lines_before(p, names, i + 1) == lines_before(p, names, i) + html_lines(p[i], names).len());
                assert(a.subrange(
                    lines_before(p, names, i),
                    lines_before(p, names, i) + html_lines(p[i], names).len(),
                ) == html_lines(p[i], names));
                assert(all.subrange(
                    lines_before(cs, names, i),
                    lines_before(cs, names, i) + html_lines(cs[i], names).len(),
                ) =~= a.subrange(
                    lines_before(p, names, i),
                    lines_before(p, names, i) + html_lines(p[i], names).len(),
                ));
            } else {
                assert(all.subrange(a.len() as int, (a.len() + b.len()) as int) =~= b);
            }
        }
    }
}

proof fn lemma_lines_before_monotone(cs: Seq<SpecTree>, names: Map<usize, String>, i: int, j: int)
    requires
        0 <= i <= j,
    ensures
        lines_before(cs, names, i) <= lines_before(cs, names, j),
    decreases j - i,
{
    if i < j {
        lemma_lines_before_monotone(cs, names, i, j - 1);
    }
}

/// The HTML of a node with a name shows the name escaped: its first line
/// holds `<code>`, then the class name with `&`, `<` and `>` written as
/// entities, then the closing `</code>` of the summary or list item.
#[verifier::spinoff_prover]
#[verifier::rlimit(50)]
pub proof fn law_html_shows_escaped_name(t: SpecTree, names: Map<usize, String>)
    requires
        t.key != 0,
    ensures
        exists|prefix: Seq<char>|
            html_lines(t, names)[0] == prefix + "<code>"@ + html_escaped(names[t.key]@) + if t.children.len()
                > 0 {
                "</code></summary>"@
            } else {
                "</code></li>"@
            },
{
    reveal(html_lines);
    reveal_strlit("</span><code>");
    reveal_strlit("</span>");
    reveal_strlit("<code>");
    let refs = summary_text(inclusive(t));
    let name = html_escaped(names[t.key]@);
    assert("</span><code>"@ =~= "</span>"@ + "<code>"@);
    if t.children.len() > 0 {
        let prefix = "<details><summary><span>"@ + refs + "</span>"@;
        assert(html_lines(t, names)[0] =~= prefix + "<code>"@ + name + "</code></summary>"@);
    } else {
        let prefix = "<li><span>"@ + refs + "</span>"@;
        assert(html_lines(t, names)[0] =~= prefix + "<code>"@ + name + "</code></li>"@);
    }
}

/// The HTML of a node with a name and children lists every child: two
/// opening lines (`<details>` with the summary, `<ul>`), then the HTML of
/// each child in order, then `</ul>` and `</details>`; so it has four lines
/// more than its children's together.
#[verifier::spinoff_prover]
#[verifier::rlimit(50)]
pub proof fn law_html_lists_every_child(t: SpecTree, names: Map<usize, String>)
    requires
        t.key != 0,
        t.children.len() > 0,
    ensures
        html_lines(t, names).len() == 4 + lines_before(t.children, names, t.children.len() as int),
        html_lines(t, names)[1] == "<ul>"@,
        html_lines(t, names)[html_lines(t, names).len() - 2] == "</ul>"@,
        html_lines(t, names)[html_lines(t, names).len() - 1] == "</details>"@,
        forall|i: int|
            0 <= i < t.children.len() ==> html_lines(t, names).subrange(
                2 + lines_before(t.children, names, i),
                2 + lines_before(t.children, names, i) + html_lines(#[trigger] t.children[i], names).len(),
            ) == html_lines(t.children[i], names),
{
    let cs = t.children;
    lemma_html_lines_seq(cs, names);
    let refs = summary_text(inclusive(t));
    let name = html_escaped(names[t.key]@);
    let head = seq![
        "<details><summary><span>"@ + refs + "</span><code>"@ + name + "</code></summary>"@,
        "<ul>"@,
    ];
    let mid = html_lines_seq(cs, names);
    let tail = seq!["</ul>"@, "</details>"@];
    let all = html_lines(t, names);
    assert(all == head + mid + tail) by {
        reveal(html_lines);
    }
    assert forall|i: int| 0 <= i < cs.len() implies all.subrange(
        2 + lines_before(cs, names, i),
        2 + lines_before(cs, names, i) + html_lines(#[trigger] cs[i], names).len(),
    ) == html_lines(cs[i], names) by {
        lemma_lines_before_monotone(cs, names, i + 1, cs.len() as int);
        lemma_lines_before_monotone(cs, names, 0, i);
        assert(lines_before(cs, names, i + 1) == lines_before(cs, names, i) + html_lines(cs[i], names).len());
        assert(mid.subrange(
            lines_before(cs, names, i),
            lines_before(cs, names, i) + html_lines(cs[i], names).len(),
        ) == html_lines(cs[i], names));
        assert(all.subrange(
            2 + lines_before(cs, names, i),
            2 + lines_before(cs, names, i) + html_lines(cs[i], names).len(),
        ) =~= mid.subrange(
            lines_before(cs, names, i),
            lines_before(cs, names, i) + html_lines(cs[i], names).len(),
        ));
    }
}


/// The summary of a set of objects ends in the number of objects: what
/// follows ` bytes) - ` is a non-empty run of decimal digits that reads back
/// as the count of objects in the set.
pub proof fn law_summary_ends_with_count(s: Seq<(usize, usize)>)
    ensures
        exists|head: Seq<char>, count: Seq<char>|
            {
                &&& summary_text(s) == head + " bytes) - "@ + count
                &&& count.len() > 0
                &&& forall|i: int| 0 <= i < count.len() ==> is_digit(#[trigger] count[i])
                &&& digits_value(count) == s.len()
            },
{
    let total = if sum_sizes(s) > 0 {
        group_digits(decimal(sum_sizes(s)), ","@, 3)
    } else {
        "???"@
    };
    let head = "("@ + total;
    let count = decimal(s.len());
    law_decimal_reads_back(s.len());
    assert(summary_text(s) == head + " bytes) - "@ + count);
}

/// The number of objects that the report's header gives adds up the
/// inclusive value of every top-level class, leaves and classes with
/// children alike: one class counts the objects of its inclusive value, two
/// lists of classes together count the sum of their counts, and no class
/// holds more objects than the whole count.
pub proof fn law_object_count_adds_up(cs: Seq<SpecTree>, ds: Seq<SpecTree>, c: SpecTree)
    ensures
        count_objects(seq![c]) == inclusive(c).len(),
        count_objects(cs + ds) == count_objects(cs) + count_objects(ds),
        forall|i: int| 0 <= i < cs.len() ==> inclusive(#[trigger] cs[i]).len() <= count_objects(cs),
    decreases ds.len(),
{
    let one = seq![c];
    assert(one.drop_last() =~= Seq::<SpecTree>::empty());
    assert(one.last() == c);
    assert(count_objects(one) == count_objects(one.drop_last()) + inclusive(one.last()).len());
    if ds.len() == 0 {
        assert(cs + ds =~= cs);
    } else {
        law_object_count_adds_up(cs, ds.drop_last(), c);
        assert((cs + ds).drop_last() =~= cs + ds.drop_last());
        assert((cs + ds).last() == ds.last());
    }
    lemma_count_covers(cs);
}

proof fn lemma_count_covers(cs: Seq<SpecTree>)
    ensures
        forall|i: int| 0 <= i < cs.len() ==> inclusive(#[trigger] cs[i]).len() <= count_objects(cs),
    decreases cs.len(),
{
    if cs.len() > 0 {
        lemma_count_covers(cs.drop_last());
        assert forall|i: int| 0 <= i < cs.len() implies inclusive(#[trigger] cs[i]).len() <= count_objects(cs) by {
            if i < cs.len() - 1 {
                assert(cs.drop_last()[i] == cs[i]);
            }
        }
    }
}

/// Escaped text holds no `<` and no `>`: a class name written through
/// `html_escaped` cannot open or close a tag.
pub proof fn law_escaped_text_has_no_tags(s: Seq<char>)
    ensures
        forall|i: int|
            0 <= i < html_escaped(s).len() ==> #[trigger] html_escaped(s)[i] != '<' && html_escaped(s)[i]
                != '>',
    decreases s.len(),
{
    if s.len() > 0 {
        law_escaped_text_has_no_tags(s.drop_last());
        let a = html_escaped(s.drop_last());
        let b = escape_char(s.last());
        assert(html_escaped(s) == a + b);
        assert forall|i: int| 0 <= i < b.len() implies #[trigger] b[i] != '<' && b[i] != '>' by {}
        assert forall|i: int| 0 <= i < (a + b).len() implies #[trigger] (a + b)[i] != '<' && (a + b)[i]
            != '>' by {
            if i < a.len() {
                assert((a + b)[i] == a[i]);
            } else {
                assert((a + b)[i] == b[i - a.len()]);
            }
        }
    }
}

/// The report's header gives two numbers in decimal: the objects counted
/// over the top-level classes' inclusive values, then the number of
/// top-level classes; after the title and the header come the HTML lines of
/// every top-level class, in order, and nothing else.
#[verifier::spinoff_prover]
pub proof fn law_report_header_counts(t: SpecTree, names: Map<usize, String>)
    ensures
        exists|objects: Seq<char>, classes: Seq<char>|
            {
                &&& report_lines(t, names)[1] == "<h3>"@ + objects + " surviving objects of "@ + classes
                    + " classes</h3>"@
                &&& objects.len() > 0 && classes.len() > 0
                &&& forall|i: int| 0 <= i < objects.len() ==> is_digit(#[trigger] objects[i])
                &&& forall|i: int| 0 <= i < classes.len() ==> is_digit(#[trigger] classes[i])
                &&& digits_value(objects) == count_objects(t.children)
                &&& digits_value(classes) == t.children.len()
            },
        report_lines(t, names).len() == 2 + lines_before(t.children, names, t.children.len() as int),
        forall|i: int|
            0 <= i < t.children.len() ==> report_lines(t, names).subrange(
                2 + lines_before(t.children, names, i),
                2 + lines_before(t.children, names, i) + html_lines(#[trigger] t.children[i], names).len(),
            ) == html_lines(t.children[i], names),
{
    let cs = t.children;
    law_decimal_reads_back(count_objects(cs));
    law_decimal_reads_back(cs.len());
    let objects = decimal(count_objects(cs));
    let classes = decimal(cs.len());
    let all = report_lines(t, names);
    assert(all[1] == "<h3>"@ + objects + " surviving objects of "@ + classes + " classes</h3>"@);
    lemma_html_lines_seq(cs, names);
    let mid = html_lines_seq(cs, names);
    assert forall|i: int| 0 <= i < cs.len() implies all.subrange(
        2 + lines_before(cs, names, i),
        2 + lines_before(cs, names, i) + html_lines(#[trigger] cs[i], names).len(),
    ) == html_lines(cs[i], names) by {
        lemma_lines_before_monotone(cs, names, i + 1, cs.len() as int);
        lemma_lines_before_monotone(cs, names, 0, i);
        assert(lines_before(cs, names, i + 1) == lines_before(cs, names, i) + html_lines(cs[i], names).len());
        assert(mid.subrange(
            lines_before(cs, names, i),
            lines_before(cs, names, i) + html_lines(cs[i], names).len(),
        ) == html_lines(cs[i], names));
        assert(all.subrange(
            2 + lines_before(cs, names, i),
            2 + lines_before(cs, names, i) + html_lines(cs[i], names).len(),
        ) =~= mid.subrange(
            lines_before(cs, names, i),
            lines_before(cs, names, i) + html_lines(cs[i], names).len(),
        ));
    }
}

/// `s` without the occurrences of `c`.
pub open spec fn without_char(s: Seq<char>, c: char) -> Seq<char>
    decreases s.len(),
{
    if s.len() == 0 {
        Seq::empty()
    } else {
        without_char(s.drop_last(), c) + if s.last() == c {
            Seq::empty()
        } else {
            seq![s.last()]
        }
    }
}

proof fn lemma_without_char_add(a: Seq<char>, b: Seq<char>, c: char)
    ensures
        without_char(a + b, c) == without_char(a, c) + without_char(b, c),
    decreases b.len(),
{
    if b.len() == 0 {
        assert(a + b =~= a);
        assert(without_char(a, c) + without_char(b, c) =~= without_char(a, c));
    } else {
        lemma_without_char_add(a, b.drop_last(), c);
        assert((a + b).drop_last() =~= a + b.drop_last());
        assert((a + b).last() == b.last());
        let tail = if b.last() == c {
            Seq::<char>::empty()
        } else {
            seq![b.last()]
        };
        assert(without_char(a, c) + without_char(b.drop_last(), c) + tail =~= without_char(a, c) + (
        without_char(b.drop_last(), c) + tail));
    }
}

proof fn lemma_without_char_digits(d: Seq<char>)
    requires
        forall|i: int| 0 <= i < d.len() ==> is_digit(#[trigger] d[i]),
    ensures
        without_char(d, ',') == d,
    decreases d.len(),
{
    if d.len() > 0 {
        let p = d.drop_last();
        assert forall|i: int| 0 <= i < p.len() implies is_digit(#[trigger] p[i]) by {
            assert(p[i] == d[i]);
        }
        lemma_without_char_digits(p);
        assert(is_digit(d[d.len() - 1]));
        assert(d.last() != ',');
        assert(p + seq![d.last()] =~= d);
    }
}

proof fn lemma_grouping_removed(d: Seq<char>)
    requires
        forall|i: int| 0 <= i < d.len() ==> is_digit(#[trigger] d[i]),
    ensures
        without_char(group_digits(d, ","@, 3), ',') == d,
    decreases d.len(),
{
    reveal_strlit(",");
    if d.len() <= 3 {
        lemma_without_char_digits(d);
    } else {
        let a = d.take(d.len() - 3);
        let b = d.skip(d.len() - 3);
        assert forall|i: int| 0 <= i < a.len() implies is_digit(#[trigger] a[i]) by {
            assert(a[i] == d[i]);
        }
        assert forall|i: int| 0 <= i < b.len() implies is_digit(#[trigger] b[i]) by {
            assert(b[i] == d[i + d.len() - 3]);
        }
        lemma_grouping_removed(a);
        lemma_without_char_digits(b);
        let g = group_digits(a, ","@, 3);
        assert(group_digits(d, ","@, 3) == g + ","@ + b);
        lemma_without_char_add(g + ","@, b, ',');
        lemma_without_char_add(g, ","@, ',');
        let comma = ","@;
        assert(comma.len() == 1 && comma[0] == ',');
        assert(comma.drop_last() =~= Seq::<char>::empty());
        assert(comma.last() == ',');
        assert(without_char(comma.drop_last(), ',') =~= Seq::<char>::empty());
        assert(without_char(comma, ',') =~= Seq::<char>::empty());
        assert(a + b =~= d);
        assert(a + Seq::<char>::empty() =~= a);
    }
}

/// The summary of a set of objects opens with its total size: between `(`
/// and ` bytes) - ` stands `???` where the total is zero, and otherwise
/// decimal digits with commas between them that, the commas taken out, read
/// back as the total size.
pub proof fn law_summary_shows_total(s: Seq<(usize, usize)>)
    ensures
        exists|total: Seq<char>, count: Seq<char>|
            {
                &&& summary_text(s) == "("@ + total + " bytes) - "@ + count
                &&& digits_value(count) == s.len()
                &&& sum_sizes(s) == 0 ==> total == "???"@
                &&& sum_sizes(s) > 0 ==> {
                    &&& forall|i: int|
                        0 <= i < total.len() ==> is_digit(#[trigger] total[i]) || total[i] == ','
                    &&& forall|i: int|
                        0 <= i < without_char(total, ',').len() ==> is_digit(
                            #[trigger] without_char(total, ',')[i],
                        )
                    &&& digits_value(without_char(total, ',')) == sum_sizes(s)
                }
            },
{
    reveal_strlit(",");
    law_decimal_reads_back(s.len());
    let count = decimal(s.len());
    if sum_sizes(s) > 0 {
        let d = decimal(sum_sizes(s));
        law_decimal_reads_back(sum_sizes(s));
        lemma_grouping_removed(d);
        let total = group_digits(d, ","@, 3);
        lemma_grouped_chars(d);
        assert(summary_text(s) == "("@ + total + " bytes) - "@ + count);
    } else {
        assert(summary_text(s) == "("@ + "???"@ + " bytes) - "@ + count);
    }
}

proof fn lemma_grouped_chars(d: Seq<char>)
    requires
        forall|i: int| 0 <= i < d.len() ==> is_digit(#[trigger] d[i]),
    ensures
        forall|i: int|
            0 <= i < group_digits(d, ","@, 3).len() ==> is_digit(#[trigger] group_digits(d, ","@, 3)[i])
                || group_digits(d, ","@, 3)[i] == ',',
    decreases d.len(),
{
    reveal_strlit(",");
    if d.len() > 3 {
        let a = d.take(d.len() - 3);
        let b = d.skip(d.len() - 3);
        assert forall|i: int| 0 <= i < a.len() implies is_digit(#[trigger] a[i]) by {
            assert(a[i] == d[i]);
        }
        lemma_grouped_chars(a);
        let g = group_digits(a, ","@, 3);
        let comma = ","@;
        assert(comma.len() == 1 && comma[0] == ',');
        let all = group_digits(d, ","@, 3);
        assert(all == g + comma + b);
        assert forall|i: int| 0 <= i < all.len() implies is_digit(#[trigger] all[i]) || all[i] == ',' by {
            if i < g.len() {
                assert(all[i] == g[i]);
            } else if i == g.len() {
                assert(all[i] == comma[0]);
            } else {
                assert(all[i] == b[i - g.len() - 1]);
                assert(b[i - g.len() - 1] == d[i - g.len() - 1 + d.len() - 3]);
            }
        }
    }
}

proof fn lemma_subtree_count(cs: Seq<SpecTree>)
    requires
        forall|j: int| 0 <= j < cs.len() ==> keys_distinct(inclusive(#[trigger] cs[j])),
    ensures
        subtree_objects(cs).finite(),
        subtree_objects(cs).len() <= count_objects(cs),
    decreases cs.len(),
{
    if cs.len() == 0 {
        assert(subtree_objects(cs) == Set::<usize>::empty());
    } else {
        let p = cs.drop_last();
        assert forall|j: int| 0 <= j < p.len() implies keys_distinct(inclusive(#[trigger] p[j])) by {
            assert(p[j] == cs[j]);
        }
        lemma_subtree_count(p);
        assert(keys_distinct(inclusive(cs[cs.len() - 1])));
        law_distinct_count(inclusive(cs.last()));
        lemma_len_union(subtree_objects(p), key_set(inclusive(cs.last())));
    }
}

/// With no thresholds, every non-null root object is counted in the
/// report's header: it lies in the inclusive value of a top-level class
/// node, and the header's object count is at least the number of distinct
/// non-null roots.
pub proof fn law_roots_are_counted(heap: Map<usize, ObjectInfo>, roots: Seq<usize>, max_depth: nat)
    ensures
        ({
            let cs = retention_tree(heap, roots, max_depth, 0, 0).children;
            &&& forall|i: int|
                0 <= i < roots.len() && roots[i] != 0 ==> exists|j: int|
                    0 <= j < cs.len() && key_set(inclusive(#[trigger] cs[j])).contains(roots[i])
            &&& Set::new(|x: usize| x != 0 && roots.contains(x)).finite()
            &&& Set::new(|x: usize| x != 0 && roots.contains(x)).len() <= count_objects(cs)
        }),
{
    let gs = group_objects(heap, roots);
    let cs = retention_tree(heap, roots, max_depth, 0, 0).children;
    assert(cs == built_children(heap, gs, 0, max_depth, 0, 0));
    law_grouping(heap, roots);
    law_build_tree_nodes_keeps_by_inclusive_value(heap, roots, 0, max_depth, 0, 0);
    law_built_children_wf(heap, gs, 0, max_depth, 0, 0);
    assert forall|j: int| 0 <= j < cs.len() implies keys_distinct(inclusive(#[trigger] cs[j])) by {
        assert(tree_wf(cs[j]));
        law_inclusive_objects(cs[j]);
    }
    assert forall|i: int| 0 <= i < roots.len() && roots[i] != 0 implies exists|j: int|
        0 <= j < cs.len() && key_set(inclusive(#[trigger] cs[j])).contains(roots[i]) by {
        let g = choose|g: int|
            0 <= g < gs.len() && gs[g].0 == heap[#[trigger] roots[i]].class_id && key_set(gs[g].1).contains(
                roots[i],
            );
        let c = group_child(heap, gs[g], 0, max_depth, 0, 0);
        assert(inclusive(c).len() >= 0nat && sum_sizes(inclusive(c)) >= 0nat);
        let j = choose|j: int| 0 <= j < cs.len() && cs[j] == c;
        assert(own_entries(c) == gs[g].1);
        law_inclusive_objects(c);
        assert(key_set(inclusive(cs[j])).contains(roots[i]));
    }
    lemma_subtree_count(cs);
    let r = Set::new(|x: usize| x != 0 && roots.contains(x));
    assert forall|x: usize| r.contains(x) implies subtree_objects(cs).contains(x) by {
        let i = choose|i: int| 0 <= i < roots.len() && roots[i] == x;
        let j = choose|j: int| 0 <= j < cs.len() && key_set(inclusive(#[trigger] cs[j])).contains(roots[i]);
        lemma_subtree_objects(cs, x);
    }
    lemma_len_subset(r, subtree_objects(cs));
}

} // verus!
