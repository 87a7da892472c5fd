//! The GC survivors profiler: after an induced garbage collection it builds
//! the tree of what the GC roots retain, grouped by class, keeps the branches
//! that retain enough, sorts them and writes them as an HTML report.

use vstd::prelude::*;
use crate::heap::{
    all_known, covered, group_objects, lemma_covered_subset, lemma_group_members,
    lemma_missing_in_walk, lemma_refs_of_contains, lemma_refs_of_ids_contains, lemma_unknown_ids,
    missing_in_walk, refs_of, refs_of_ids, size_or_zero, unknown_ids, HeapSnapshot,
};
use crate::format::{decimal, decimal_string, encode_text, html_escaped};
use crate::references::{index_of_key, lemma_index_of_key, sum_sizes, summary_text, References};
use crate::parameters::{find_parameter, parameter_value, parse_bool, parse_bool_text, parse_usize, parse_usize_text};
use crate::report::Report;
use std::collections::HashMap;
use crate::tree::{inclusive, lemma_view_nodes, sorted_tree, view_node, view_nodes, SpecTree, TreeNode};

verus! {

/// A branch is kept when its inclusive value holds at least
/// `refs_threshold` objects and at least `bytes_threshold` bytes.
pub open spec fn kept(t: SpecTree, refs_threshold: nat, bytes_threshold: nat) -> bool {
    !(inclusive(t).len() < refs_threshold || sum_sizes(inclusive(t)) < bytes_threshold)
}

/// The children that `build_tree_nodes` adds at `depth` for the class groups
/// `groups`: one node per group, in order, whose children are built in turn
/// from the objects its objects reference while the depth allows it; a node
/// whose branch does not meet the thresholds is left out.
pub open spec fn built_children(
    heap: Map<usize, crate::heap::ObjectInfo>,
    groups: Seq<(usize, Seq<(usize, usize)>)>,
    depth: nat,
    max_depth: nat,
    refs_threshold: nat,
    bytes_threshold: nat,
) -> Seq<SpecTree>
    decreases max_depth - depth, groups.len(),
{
    if groups.len() == 0 {
        Seq::empty()
    } else {
        let prev = built_children(
            heap,
            groups.drop_last(),
            depth,
            max_depth,
            refs_threshold,
            bytes_threshold,
        );
        let g = groups.last();
        let child = SpecTree {
            key: g.0,
            value: Some(g.1),
            children: if depth + 1 > max_depth {
                Seq::empty()
            } else {
                built_children(
                    heap,
                    group_objects(heap, refs_of(heap, g.1)),
                    depth + 1,
                    max_depth,
                    refs_threshold,
                    bytes_threshold,
                )
            },
        };
        if kept(child, refs_threshold, bytes_threshold) {
            prev.push(child)
        } else {
            prev
        }
    }
}


/// The class ids whose names a node's HTML shows: none for a node of key 0
/// (its path is shown as truncated), else its key and those of its children.
pub open spec fn printed_keys(t: SpecTree) -> Seq<usize>
    decreases t,
{
    if t.key == 0 {
        Seq::empty()
    } else {
        seq![t.key] + printed_keys_seq(t.children)
    }
}

pub open spec fn printed_keys_seq(cs: Seq<SpecTree>) -> Seq<usize>
    decreases cs,
{
    if cs.len() == 0 {
        Seq::empty()
    } else {
        printed_keys_seq(cs.drop_last()) + printed_keys(cs.last())
    }
}

/// Every class id of `keys` has a name.
pub open spec fn names_known(names: Map<usize, String>, keys: Seq<usize>) -> bool {
    forall|i: int| 0 <= i < keys.len() ==> names.contains_key(#[trigger] keys[i])
}

/// The HTML lines of a node: a leaf is one list item; a node with children is
/// a `<details>` element whose summary shows its inclusive value and class
/// name, with the children's lines in a list; a node of key 0 is a note that
/// the path was truncated.
#[verifier::opaque]
pub open spec fn html_lines(t: SpecTree, names: Map<usize, String>) -> Seq<Seq<char>>
    decreases t,
{
    if t.key == 0 {
        seq!["Path truncated because of depth limit reached"@]
    } else {
        let refs = summary_text(inclusive(t));
        let name = html_escaped(names[t.key]@);
        if t.children.len() > 0 {
            seq![
                "<details><summary><span>"@ + refs + "</span><code>"@ + name + "</code></summary>"@,
                "<ul>"@,
            ] + html_lines_seq(t.children, names) + seq!["</ul>"@, "</details>"@]
        } else {
            seq!["<li><span>"@ + refs + "</span><code>"@ + name + "</code></li>"@]
        }
    }
}

pub open spec fn html_lines_seq(cs: Seq<SpecTree>, names: Map<usize, String>) -> Seq<Seq<char>>
    decreases cs,
{
    if cs.len() == 0 {
        Seq::empty()
    } else {
        html_lines_seq(cs.drop_last(), names) + html_lines(cs.last(), names)
    }
}

/// One step of `html_lines_seq`: the lines of all but the last node, then
/// those of the last.
pub proof fn lemma_html_lines_seq_unfold(cs: Seq<SpecTree>, names: Map<usize, String>)
    requires
        cs.len() > 0,
    ensures
        html_lines_seq(cs, names) == html_lines_seq(cs.drop_last(), names) + html_lines(cs.last(), names),
{
    reveal(html_lines);
}

/// The number of objects in the inclusive values of `cs`, added up.
pub open spec fn count_objects(cs: Seq<SpecTree>) -> nat
    decreases cs.len(),
{
    if cs.len() == 0 {
        0
    } else {
        count_objects(cs.drop_last()) + inclusive(cs.last()).len()
    }
}

/// The lines of the report on a tree: a title, the number of surviving
/// objects and of classes, then the HTML of each child of the root.
pub open spec fn report_lines(t: SpecTree, names: Map<usize, String>) -> Seq<Seq<char>> {
    seq![
        "<h2>GC Survivors Report</h2>"@,
        "<h3>"@ + decimal(count_objects(t.children)) + " surviving objects of "@ + decimal(
            t.children.len(),
        ) + " classes</h3>"@,
    ] + html_lines_seq(t.children, names)
}

pub proof fn lemma_printed_keys_seq(names: Map<usize, String>, cs: Seq<SpecTree>)
    requires
        names_known(names, printed_keys_seq(cs)),
    ensures
        forall|i: int| 0 <= i < cs.len() ==> names_known(names, printed_keys(#[trigger] cs[i])),
    decreases cs.len(),
{
    if cs.len() > 0 {
        let a = printed_keys_seq(cs.drop_last());
        let b = printed_keys(cs.last());
        assert forall|k: int| 0 <= k < a.len() implies names.contains_key(#[trigger] a[k]) by {
            assert((a + b)[k] == a[k]);
        }
        assert forall|k: int| 0 <= k < b.len() implies names.contains_key(#[trigger] b[k]) by {
            assert((a + b)[a.len() + k] == b[k]);
        }
        lemma_printed_keys_seq(names, cs.drop_last());
        assert forall|i: int| 0 <= i < cs.len() implies names_known(names, printed_keys(#[trigger] cs[i])) by {
            if i < cs.len() - 1 {
                assert(cs[i] == cs.drop_last()[i]);
            }
        }
    }
}

/// The parameters of a profiling session.
#[derive(Debug, Clone, Copy)]
pub struct ProfilerSettings {
    /// Sort by inclusive size in bytes (else by inclusive number of objects).
    pub sort_by_size: bool,
    /// A branch retaining fewer objects than this is left out.
    pub retained_references_threshold: usize,
    /// A branch retaining fewer bytes than this is left out.
    pub retained_bytes_threshold: usize,
    /// The maximum depth while drilling through retention paths.
    pub max_retention_depth: usize,
}

/// The settings of a session whose parameters were left at their defaults.
pub open spec fn default_settings() -> ProfilerSettings {
    ProfilerSettings {
        sort_by_size: true,
        retained_references_threshold: 100,
        retained_bytes_threshold: 10000,
        max_retention_depth: 4,
    }
}

impl Default for ProfilerSettings {
    fn default() -> (s: Self)
        ensures
            s == default_settings(),
    {
        ProfilerSettings {
            sort_by_size: true,
            retained_references_threshold: 100,
            retained_bytes_threshold: 10000,
            max_retention_depth: 4,
        }
    }
}

/// The settings that a session's parameters give: each of the four read
/// from the first parameter with its key, where all are there and readable.
pub open spec fn settings_from(params: Seq<(String, String)>) -> Option<ProfilerSettings> {
    match (
        parameter_value(params, "sort_by_size"@),
        parameter_value(params, "retained_references_threshold"@),
        parameter_value(params, "retained_bytes_threshold"@),
        parameter_value(params, "max_retention_depth"@),
    ) {
        (Some(a), Some(b), Some(c), Some(d)) => match (
            parse_bool_text(a),
            parse_usize_text(b),
            parse_usize_text(c),
            parse_usize_text(d),
        ) {
            (Some(x), Some(y), Some(z), Some(w)) => Some(
                ProfilerSettings {
                    sort_by_size: x,
                    retained_references_threshold: y,
                    retained_bytes_threshold: z,
                    max_retention_depth: w,
                },
            ),
            _ => None,
        },
        _ => None,
    }
}

impl ProfilerSettings {
    /// Reads the settings from a session's parameters (see `settings_from`);
    /// `None` where one is missing or not readable.
    pub fn from_parameters(params: &Vec<(String, String)>) -> (r: Option<ProfilerSettings>)
        ensures
            r == settings_from(params@),
    {
        let a = find_parameter(params, "sort_by_size");
        let b = find_parameter(params, "retained_references_threshold");
        let c = find_parameter(params, "retained_bytes_threshold");
        let d = find_parameter(params, "max_retention_depth");
        match (a, b, c, d) {
            (Some(a), Some(b), Some(c), Some(d)) => {
                match (parse_bool(a), parse_usize(b.as_str()), parse_usize(c.as_str()), parse_usize(d.as_str())) {
                    (Some(x), Some(y), Some(z), Some(w)) => Some(
                        ProfilerSettings {
                            sort_by_size: x,
                            retained_references_threshold: y,
                            retained_bytes_threshold: z,
                            max_retention_depth: w,
                        },
                    ),
                    _ => None,
                }
            },
            _ => None,
        }
    }
}

/// A parameter that a profiler offers to its user: a display name, the key
/// under which the session stores it, its default value and a description.
#[derive(Debug)]
pub struct ProfilerParameter {
    pub name: String,
    pub key: String,
    pub value: String,
    pub description: String,
}

impl ProfilerParameter {
    pub fn define(name: &str, key: &str, value: String, description: &str) -> (p: Self)
        ensures
            p.name@ == name@,
            p.key@ == key@,
            p.value@ == value@,
            p.description@ == description@,
    {
        ProfilerParameter {
            name: String::from_str(name),
            key: String::from_str(key),
            value,
            description: String::from_str(description),
        }
    }
}

/// How a profiler presents itself: its id, name, description and
/// parameters.
#[derive(Debug)]
pub struct ProfilerInfo {
    pub uuid: String,
    pub name: String,
    pub description: String,
    pub parameters: Vec<ProfilerParameter>,
}

/// The profiler's state between the runtime's callbacks.
#[derive(Debug)]
pub struct GCSurvivorsProfiler2 {
    pub settings: ProfilerSettings,
    /// The GC roots reported during the induced collection.
    pub root_objects: Vec<usize>,
    /// Whether the induced collection has started.
    pub is_relevant_gc: bool,
}

impl Default for GCSurvivorsProfiler2 {
    fn default() -> (p: Self)
        ensures
            p.settings == default_settings(),
            p.root_objects@ == Seq::<usize>::empty(),
            !p.is_relevant_gc,
    {
        GCSurvivorsProfiler2::new(ProfilerSettings::default())
    }
}

impl GCSurvivorsProfiler2 {
    /// Adds to `node` one child per class of the non-null objects
    /// `reference_object_ids`, holding that class's objects with their sizes;
    /// gathers the children of each new child from what its objects reference
    /// (see `gather_references_recursive`) and keeps the child only where its
    /// inclusive value meets both thresholds.
    pub fn build_tree_nodes(
        heap: &HeapSnapshot,
        reference_object_ids: &Vec<usize>,
        node: &mut TreeNode,
        depth: usize,
        max_retention_depth: usize,
        retained_references_threshold: usize,
        retained_bytes_threshold: usize,
    )
        requires
            covered(heap@, reference_object_ids@, depth as nat, max_retention_depth as nat),
        ensures
            final(node)@ == (SpecTree {
                key: old(node)@.key,
                value: old(node)@.value,
                children: old(node)@.children + built_children(
                    heap@,
                    group_objects(heap@, reference_object_ids@),
                    depth as nat,
                    max_retention_depth as nat,
                    retained_references_threshold as nat,
                    retained_bytes_threshold as nat,
                ),
            }),
        decreases max_retention_depth - depth, 0int,
    {
        let ids = reference_object_ids;
        let ghost h = heap@;
        // Group the objects by class.
        let mut classes: Vec<usize> = Vec::new();
        let mut members: Vec<References> = Vec::new();
        let n = ids.len();
        let mut i: usize = 0;
        while i < n
            invariant
                n == ids@.len(),
                i <= n,
                h == heap@,
                all_known(h, ids@),
                classes@.len() == members@.len(),
                classes@.len() == group_objects(h, ids@.take(i as int)).len(),
                forall|g: int|
                    0 <= g < classes@.len() ==> classes@[g] == (#[trigger] group_objects(
                        h,
                        ids@.take(i as int),
                    )[g]).0 && members@[g]@ == group_objects(h, ids@.take(i as int))[g].1,
            decreases n - i,
        {
            let id = ids[i];
            let ghost gs = group_objects(h, ids@.take(i as int));
            proof {
                assert(ids@.take(i + 1).drop_last() =~= ids@.take(i as int));
                assert(ids@.take(i + 1).last() == id);
            }
            if id != 0 {
                match heap.get(id) {
                    Some(info) => {
                        let c = info.class_id;
                        let s = match info.size {
                            Some(s) => s,
                            None => 0,
                        };
                        assert(s == size_or_zero(h[id]));
                        proof {
                            lemma_index_of_key(gs, c);
                        }
                        let mut j: usize = 0;
                        while j < classes.len() && classes[j] != c
                            invariant
                                j <= classes@.len(),
                                classes@.len() == gs.len(),
                                forall|g: int| 0 <= g < classes@.len() ==> classes@[g] == (#[trigger] gs[g]).0,
                                forall|g: int| 0 <= g < j ==> gs[g].0 != c,
                            decreases classes@.len() - j,
                        {
                            j = j + 1;
                        }
                        let ghost members_before = members@;
                        if j < classes.len() {
                            assert(gs[j as int].0 == c);
                            proof {
                                lemma_index_of_key(gs, c);
                            }
                            assert(index_of_key(gs, c) == j);
                            members[j].insert(id, s);
                            proof {
                                let ngs = group_objects(h, ids@.take(i + 1));
                                assert forall|g: int| 0 <= g < classes@.len() implies classes@[g]
                                    == (#[trigger] ngs[g]).0 && members@[g]@ == ngs[g].1 by {
                                    if g != j {
                                        assert(members@[g] == members_before[g]);
                                    }
                                }
                            }
                        } else {
                            assert(index_of_key(gs, c) == -1);
                            let mut r = References::new();
                            r.insert(id, s);
                            assert(r@ == seq![(id, s)]) by {
                                lemma_index_of_key(Seq::<(usize, usize)>::empty(), id);
                            }
                            classes.push(c);
                            members.push(r);
                            proof {
                                let ngs = group_objects(h, ids@.take(i + 1));
                                assert forall|g: int| 0 <= g < classes@.len() implies classes@[g]
                                    == (#[trigger] ngs[g]).0 && members@[g]@ == ngs[g].1 by {
                                    if g < j {
                                        assert(members@[g] == members_before[g]);
                                    }
                                }
                            }
                        }
                    },
                    None => {
                        assert(ids@[i as int] == id);
                    },
                }
            }
            i = i + 1;
        }
        assert(ids@.take(n as int) =~= ids@);
        let ghost groups = group_objects(h, ids@);
        let ghost old_children = node@.children;
        proof {
            lemma_group_members(h, ids@);
            assert(groups.take(0) =~= Seq::<(usize, Seq<(usize, usize)>)>::empty());
            assert(old_children + Seq::<SpecTree>::empty() =~= old_children);
        }
        // One child per group.
        let ng = classes.len();
        let mut g: usize = 0;
        while g < ng
            invariant
                ng == classes@.len(),
                ng == groups.len(),
                g <= ng,
                h == heap@,
                groups == group_objects(h, ids@),
                covered(h, ids@, depth as nat, max_retention_depth as nat),
                forall|x: int, k: int|
                    0 <= x < groups.len() && 0 <= k < groups[x].1.len()
                        ==> (#[trigger] groups[x].1[k]).0 != 0 && ids@.contains(groups[x].1[k].0),
                forall|x: int| 0 <= x < classes@.len() ==> classes@[x] == (#[trigger] groups[x]).0,
                members@.len() == ng - g,
                forall|x: int| 0 <= x < members@.len() ==> (#[trigger] members@[x])@ == groups[x + g].1,
                node@.key == old(node)@.key,
                node@.value == old(node)@.value,
                node@.children == old_children + built_children(
                    h,
                    groups.take(g as int),
                    depth as nat,
                    max_retention_depth as nat,
                    retained_references_threshold as nat,
                    retained_bytes_threshold as nat,
                ),
            decreases ng - g,
        {
            let c = classes[g];
            let refs = members.remove(0);
            let ghost es = groups[g as int].1;
            assert(refs@ == es);
            let mut child = TreeNode::new(c);
            child.value = Some(refs);
            assert(child@ == SpecTree { key: c, value: Some(es), children: Seq::empty() });
            proof {
                assert forall|k: int| 0 <= k < es.len() implies #[trigger] es[k].0 != 0
                    && h.contains_key(es[k].0) by {
                    assert(ids@.contains(es[k].0));
                    let q = choose|q: int| 0 <= q < ids@.len() && ids@[q] == es[k].0;
                }
                if depth < max_retention_depth {
                    let r = refs_of(h, es);
                    let ri = refs_of_ids(h, ids@);
                    assert forall|q: int| 0 <= q < r.len() && r[q] != 0 implies ri.contains(#[trigger] r[q]) by {
                        let y = r[q];
                        assert(r.contains(y));
                        lemma_refs_of_contains(h, es, y);
                        let k = choose|k: int|
                            0 <= k < es.len() && es[k].0 != 0 && (#[trigger] h[es[k].0]).references@.contains(y);
                        assert(ids@.contains(es[k].0));
                        let p = choose|p: int| 0 <= p < ids@.len() && ids@[p] == es[k].0;
                        assert(h[ids@[p]].references@.contains(y));
                        lemma_refs_of_ids_contains(h, ids@, y);
                    }
                    lemma_covered_subset(h, ri, r, depth as nat + 1, max_retention_depth as nat);
                }
            }
            if depth < max_retention_depth {
                Self::gather_references_recursive(
                    heap,
                    &mut child,
                    depth + 1,
                    max_retention_depth,
                    retained_references_threshold,
                    retained_bytes_threshold,
                );
            }
            let ghost child_spec = child@;
            let inclusive_values = child.get_inclusive_value();
            let mut discard_branch = inclusive_values.len() < retained_references_threshold;
            discard_branch = discard_branch || inclusive_values.total_size() < retained_bytes_threshold as u128;
            proof {
                assert(groups.take(g + 1).drop_last() =~= groups.take(g as int));
                assert(groups.take(g + 1).last() == groups[g as int]);
                assert(child_spec.children == (if depth + 1 > max_retention_depth {
                    Seq::<SpecTree>::empty()
                } else {
                    built_children(
                        h,
                        group_objects(h, refs_of(h, es)),
                        (depth + 1) as nat,
                        max_retention_depth as nat,
                        retained_references_threshold as nat,
                        retained_bytes_threshold as nat,
                    )
                }));
            }
            let ghost children_before = node.children@;
            if !discard_branch {
                node.children.push(child);
                proof {
                    assert(node.children@.drop_last() =~= children_before);
                    assert(node@.children =~= view_nodes(children_before).push(child_spec));
                }
            }
            proof {
                assert forall|x: int| 0 <= x < members@.len() implies (#[trigger] members@[x])@
                    == groups[x + g + 1].1 by {}
            }
            g = g + 1;
        }
        assert(groups.take(ng as int) =~= groups);
    }

    /// Builds the children of `node` from the objects that `node`'s own
    /// objects reference, unless `depth` exceeds the maximum retention depth
    /// (the node is then kept as it is, and the path ends there).
    fn gather_references_recursive(
        heap: &HeapSnapshot,
        node: &mut TreeNode,
        depth: usize,
        max_retention_depth: usize,
        retained_references_threshold: usize,
        retained_bytes_threshold: usize,
    )
        requires
            old(node)@.value matches Some(es) ==> {
                &&& forall|k: int| 0 <= k < es.len() ==> #[trigger] es[k].0 != 0 && heap@.contains_key(es[k].0)
                &&& depth <= max_retention_depth ==> covered(
                    heap@,
                    refs_of(heap@, es),
                    depth as nat,
                    max_retention_depth as nat,
                )
            },
        ensures
            final(node)@ == (match old(node)@.value {
                Some(es) => if depth > max_retention_depth {
                    old(node)@
                } else {
                    SpecTree {
                        key: old(node)@.key,
                        value: old(node)@.value,
                        children: old(node)@.children + built_children(
                            heap@,
                            group_objects(heap@, refs_of(heap@, es)),
                            depth as nat,
                            max_retention_depth as nat,
                            retained_references_threshold as nat,
                            retained_bytes_threshold as nat,
                        ),
                    }
                },
                None => old(node)@,
            }),
        decreases max_retention_depth - depth, 1int,
    {
        if depth > max_retention_depth {
            return;
        }
        let mut reference_object_ids: Vec<usize> = Vec::new();
        match &node.value {
            Some(references) => {
                let ghost es = references@;
                let n = references.len();
                let mut i: usize = 0;
                while i < n
                    invariant
                        n == es.len(),
                        es == references@,
                        i <= n,
                        forall|k: int| 0 <= k < es.len() ==> #[trigger] es[k].0 != 0 && heap@.contains_key(es[k].0),
                        reference_object_ids@ == refs_of(heap@, es.take(i as int)),
                    decreases n - i,
                {
                    let (object_id, _) = references.entry(i);
                    proof {
                        assert(es.take(i + 1).drop_last() =~= es.take(i as int));
                        assert(es.take(i + 1).last() == es[i as int]);
                    }
                    if object_id != 0 {
                        match heap.get(object_id) {
                            Some(info) => {
                                let m = info.references.len();
                                let ghost before = reference_object_ids@;
                                let mut k: usize = 0;
                                while k < m
                                    invariant
                                        m == info.references@.len(),
                                        k <= m,
                                        reference_object_ids@ == before + info.references@.take(k as int),
                                    decreases m - k,
                                {
                                    reference_object_ids.push(info.references[k]);
                                    proof {
                                        assert(reference_object_ids@ =~= before + info.references@.take(k + 1));
                                    }
                                    k = k + 1;
                                }
                                assert(info.references@.take(m as int) =~= info.references@);
                            },
                            None => {
                                assert(es[i as int].0 == object_id);
                            },
                        }
                    } else {
                        assert(reference_object_ids@ =~= refs_of(heap@, es.take(i + 1)));
                    }
                    i = i + 1;
                }
                assert(es.take(n as int) =~= es);
            },
            None => {
                return;
            },
        }
        Self::build_tree_nodes(
            heap,
            &reference_object_ids,
            node,
            depth,
            max_retention_depth,
            retained_references_threshold,
            retained_bytes_threshold,
        );
    }

    /// Builds the retention tree of the roots: a root node of key 0 whose
    /// children are built from `root_objects` at depth 0.
    pub fn build_tree(&self, heap: &HeapSnapshot) -> (tree: TreeNode)
        requires
            covered(heap@, self.root_objects@, 0, self.settings.max_retention_depth as nat),
        ensures
            tree@ == (SpecTree {
                key: 0,
                value: None,
                children: built_children(
                    heap@,
                    group_objects(heap@, self.root_objects@),
                    0,
                    self.settings.max_retention_depth as nat,
                    self.settings.retained_references_threshold as nat,
                    self.settings.retained_bytes_threshold as nat,
                ),
            }),
    {
        let mut tree = TreeNode::new(0);
        Self::build_tree_nodes(
            heap,
            &self.root_objects,
            &mut tree,
            0,
            self.settings.max_retention_depth,
            self.settings.retained_references_threshold,
            self.settings.retained_bytes_threshold,
        );
        assert(Seq::<SpecTree>::empty() + built_children(
            heap@,
            group_objects(heap@, self.root_objects@),
            0,
            self.settings.max_retention_depth as nat,
            self.settings.retained_references_threshold as nat,
            self.settings.retained_bytes_threshold as nat,
        ) =~= built_children(
            heap@,
            group_objects(heap@, self.root_objects@),
            0,
            self.settings.max_retention_depth as nat,
            self.settings.retained_references_threshold as nat,
            self.settings.retained_bytes_threshold as nat,
        ));
        tree
    }

    /// Sorts the children of every node of `tree` by descending inclusive
    /// size, or by descending inclusive number of objects, as the settings
    /// say; ties keep their order.
    pub fn sort_tree(&self, tree: &mut TreeNode)
        ensures
            final(tree)@ == sorted_tree(old(tree)@, self.settings.sort_by_size),
    {
        tree.sort_by_iterative(self.settings.sort_by_size);
    }

    /// Writes the HTML of `tree` to `report` (see `html_lines`).
    pub fn print_html(&self, tree: &TreeNode, names: &HashMap<usize, String>, report: &mut Report)
        requires
            names_known(names@, printed_keys(tree@)),
        ensures
            final(report)@ == old(report)@ + html_lines(tree@, names@),
        decreases tree,
    {
        reveal(html_lines);
        let refs = tree.get_inclusive_value().to_string();
        if tree.key == 0 {
            report.write_line(String::from_str("Path truncated because of depth limit reached"));
            return;
        }
        assert(printed_keys(tree@)[0] == tree.key);
        let class_name = match names.get(&tree.key) {
            Some(name) => name,
            // Every class that the tree shows has a name (see `requires`).
            None => {
                return;
            },
        };
        let escaped_class_name = encode_text(class_name.as_str());
        let has_children = tree.children.len() > 0;
        proof {
            lemma_view_nodes(tree.children@);
        }
        if has_children {
            let mut line = String::from_str("<details><summary><span>");
            line.append(refs.as_str());
            line.append("</span><code>");
            line.append(escaped_class_name.as_str());
            line.append("</code></summary>");
            report.write_line(line);
            report.write_line(String::from_str("<ul>"));
            let ghost before = report@;
            let ghost cs = tree@.children;
            proof {
                let ks = printed_keys_seq(cs);
                assert forall|k: int| 0 <= k < ks.len() implies names@.contains_key(#[trigger] ks[k]) by {
                    assert(printed_keys(tree@)[k + 1] == ks[k]);
                }
                lemma_printed_keys_seq(names@, cs);
                assert(cs.take(0) =~= Seq::<SpecTree>::empty());
                assert(before + Seq::<Seq<char>>::empty() =~= before);
            }
            let n = tree.children.len();
            let mut i: usize = 0;
            while i < n
                invariant
                    n == tree.children@.len(),
                    n == cs.len(),
                    i <= n,
                    cs == tree@.children,
                    forall|j: int| 0 <= j < n ==> #[trigger] cs[j] == view_node(tree.children@[j]),
                    forall|j: int| 0 <= j < n ==> names_known(names@, printed_keys(#[trigger] cs[j])),
                    report@ == before + html_lines_seq(cs.take(i as int), names@),
                decreases n - i,
            {
                assert(decreases_to!(tree => tree.children@[i as int]));
                assert(names_known(names@, printed_keys(cs[i as int])));
                let ghost prev_report = report@;
                self.print_html(&tree.children[i], names, report);
                proof {
                    assert(cs.take(i + 1).drop_last() =~= cs.take(i as int));
                    assert(cs.take(i + 1).last() == cs[i as int]);
                    assert(tree.children@[i as int]@ == cs[i as int]);
                    assert(report@ == prev_report + html_lines(cs[i as int], names@));
                    let t1 = cs.take(i + 1);
                    assert(t1.len() > 0);
                    lemma_html_lines_seq_unfold(t1, names@);
                    assert(html_lines_seq(cs.take(i + 1), names@) == html_lines_seq(cs.take(i as int), names@)
                        + html_lines(cs[i as int], names@));
                    assert(report@ =~= before + html_lines_seq(cs.take(i + 1), names@));
                }
                i = i + 1;
            }
            assert(cs.take(n as int) =~= cs);
            report.write_line(String::from_str("</ul>"));
            report.write_line(String::from_str("</details>"));
        } else {
            let mut line = String::from_str("<li><span>");
            line.append(refs.as_str());
            line.append("</span><code>");
            line.append(escaped_class_name.as_str());
            line.append("</code></li>");
            report.write_line(line);
        }
    }

    /// Writes the report on `tree` (see `report_lines`): a title, the number
    /// of surviving objects and classes, and the HTML of each class at the
    /// root.
    pub fn write_report(&self, tree: TreeNode, names: &HashMap<usize, String>, report: &mut Report)
        requires
            names_known(names@, printed_keys_seq(tree@.children)),
        ensures
            final(report)@ == old(report)@ + report_lines(tree@, names@),
    {
        let ghost cs = tree@.children;
        proof {
            lemma_view_nodes(tree.children@);
            lemma_printed_keys_seq(names@, cs);
        }
        let nb_classes = tree.children.len();
        let mut nb_objects: u128 = 0;
        let mut i: usize = 0;
        while i < nb_classes
            invariant
                nb_classes == tree.children@.len(),
                nb_classes == cs.len(),
                i <= nb_classes,
                forall|j: int| 0 <= j < nb_classes ==> #[trigger] cs[j] == view_node(tree.children@[j]),
                nb_objects == count_objects(cs.take(i as int)),
                nb_objects <= i * (usize::MAX as int),
            decreases nb_classes - i,
        {
            let count = tree.children[i].get_inclusive_value().len();
            proof {
                assert(cs.take(i + 1).drop_last() =~= cs.take(i as int));
                assert(cs.take(i + 1).last() == cs[i as int]);
                assert((i + 1) * (usize::MAX as int) <= (usize::MAX as int) * (usize::MAX as int))
                    by (nonlinear_arith)
                    requires
                        i < nb_classes,
                        nb_classes <= usize::MAX,
                ;
                assert((usize::MAX as int) * (usize::MAX as int) < u128::MAX) by (nonlinear_arith)
                    requires
                        usize::MAX <= u64::MAX,
                ;
                assert(i * (usize::MAX as int) + (usize::MAX as int) == (i + 1) * (usize::MAX as int))
                    by (nonlinear_arith);
            }
            nb_objects = nb_objects + count as u128;
            i = i + 1;
        }
        assert(cs.take(nb_classes as int) =~= cs);
        report.write_line(String::from_str("<h2>GC Survivors Report</h2>"));
        let mut line = String::from_str("<h3>");
        line.append(decimal_string(nb_objects).as_str());
        line.append(" surviving objects of ");
        line.append(decimal_string(nb_classes as u128).as_str());
        line.append(" classes</h3>");
        report.write_line(line);
        let ghost before = report@;
        proof {
            assert(cs.take(0) =~= Seq::<SpecTree>::empty());
            assert(before + Seq::<Seq<char>>::empty() =~= before);
        }
        let mut k: usize = 0;
        while k < nb_classes
            invariant
                nb_classes == tree.children@.len(),
                nb_classes == cs.len(),
                k <= nb_classes,
                cs == tree@.children,
                forall|j: int| 0 <= j < nb_classes ==> #[trigger] cs[j] == view_node(tree.children@[j]),
                forall|j: int| 0 <= j < nb_classes ==> names_known(names@, printed_keys(#[trigger] cs[j])),
                report@ == before + html_lines_seq(cs.take(k as int), names@),
            decreases nb_classes - k,
        {
            assert(names_known(names@, printed_keys(cs[k as int])));
            let ghost prev_report = report@;
            self.print_html(&tree.children[k], names, report);
            proof {
                assert(cs.take(k + 1).drop_last() =~= cs.take(k as int));
                assert(cs.take(k + 1).last() == cs[k as int]);
                assert(tree.children@[k as int]@ == cs[k as int]);
                assert(report@ == prev_report + html_lines(cs[k as int], names@));
                let t1 = cs.take(k + 1);
                assert(t1.len() > 0);
                lemma_html_lines_seq_unfold(t1, names@);
                assert(html_lines_seq(cs.take(k + 1), names@) == html_lines_seq(cs.take(k as int), names@)
                    + html_lines(cs[k as int], names@));
                assert(report@ =~= before + html_lines_seq(cs.take(k + 1), names@));
            }
            k = k + 1;
        }
        assert(cs.take(nb_classes as int) =~= cs);
    }

    /// A profiler with the given settings, no root yet, before the induced
    /// collection.
    pub fn new(settings: ProfilerSettings) -> (p: Self)
        ensures
            p.settings == settings,
            p.root_objects@ == Seq::<usize>::empty(),
            !p.is_relevant_gc,
    {
        GCSurvivorsProfiler2 { settings, root_objects: Vec::new(), is_relevant_gc: false }
    }

    /// A collection has started; it is the one to report on when it was
    /// induced (by the profiler).
    pub fn garbage_collection_started(&mut self, induced: bool)
        ensures
            final(self).is_relevant_gc == (old(self).is_relevant_gc || induced),
            final(self).root_objects@ == old(self).root_objects@,
            final(self).settings == old(self).settings,
    {
        if induced {
            self.is_relevant_gc = true;
        }
    }

    /// The runtime reports GC roots: during the induced collection they are
    /// recorded, in order; before it they are ignored.
    pub fn root_references_2(&mut self, root_ref_ids: &[usize])
        ensures
            final(self).root_objects@ == if old(self).is_relevant_gc {
                old(self).root_objects@ + root_ref_ids@
            } else {
                old(self).root_objects@
            },
            final(self).is_relevant_gc == old(self).is_relevant_gc,
            final(self).settings == old(self).settings,
    {
        if !self.is_relevant_gc {
            return;
        }
        let ghost before = self.root_objects@;
        let n = root_ref_ids.len();
        let mut i: usize = 0;
        while i < n
            invariant
                n == root_ref_ids@.len(),
                i <= n,
                self.root_objects@ == before + root_ref_ids@.take(i as int),
                self.is_relevant_gc == old(self).is_relevant_gc,
                self.settings == old(self).settings,
            decreases n - i,
        {
            self.root_objects.push(root_ref_ids[i]);
            proof {
                assert(self.root_objects@ =~= before + root_ref_ids@.take(i + 1));
            }
            i = i + 1;
        }
        assert(root_ref_ids@.take(n as int) =~= root_ref_ids@);
    }

    /// The collection has finished: when it was the induced one, the sorted
    /// retention tree of the roots (`None` before the induced collection).
    pub fn garbage_collection_finished(&self, heap: &HeapSnapshot) -> (r: Option<TreeNode>)
        requires
            self.is_relevant_gc ==> covered(
                heap@,
                self.root_objects@,
                0,
                self.settings.max_retention_depth as nat,
            ),
        ensures
            match r {
                Some(tree) => self.is_relevant_gc && tree@ == sorted_tree(
                    SpecTree {
                        key: 0,
                        value: None,
                        children: built_children(
                            heap@,
                            group_objects(heap@, self.root_objects@),
                            0,
                            self.settings.max_retention_depth as nat,
                            self.settings.retained_references_threshold as nat,
                            self.settings.retained_bytes_threshold as nat,
                        ),
                    },
                    self.settings.sort_by_size,
                ),
                None => !self.is_relevant_gc,
            },
    {
        if !self.is_relevant_gc {
            return None;
        }
        let mut tree = self.build_tree(heap);
        self.sort_tree(&mut tree);
        Some(tree)
    }

    /// The objects that building the tree still needs from the runtime: the
    /// non-null objects of the first level of the walk from the roots (each
    /// level the references of the one before, down to the maximum retention
    /// depth) that `heap` does not know. Empty exactly when `heap` covers the
    /// walk, so that the tree can be built.
    pub fn missing_objects(&self, heap: &HeapSnapshot) -> (r: Vec<usize>)
        ensures
            r@ == missing_in_walk(heap@, self.root_objects@, 0, self.settings.max_retention_depth as nat),
            r@.len() == 0 <==> covered(
                heap@,
                self.root_objects@,
                0,
                self.settings.max_retention_depth as nat,
            ),
            forall|i: int| 0 <= i < r@.len() ==> #[trigger] r@[i] != 0 && !heap@.contains_key(r@[i]),
    {
        let max = self.settings.max_retention_depth;
        let ghost h = heap@;
        let mut level: Vec<usize> = Vec::new();
        let n0 = self.root_objects.len();
        let mut i0: usize = 0;
        while i0 < n0
            invariant
                n0 == self.root_objects@.len(),
                i0 <= n0,
                level@ == self.root_objects@.take(i0 as int),
            decreases n0 - i0,
        {
            level.push(self.root_objects[i0]);
            proof {
                assert(level@ =~= self.root_objects@.take(i0 + 1));
            }
            i0 = i0 + 1;
        }
        assert(self.root_objects@.take(n0 as int) =~= self.root_objects@);
        let mut depth: usize = 0;
        loop
            invariant
                h == heap@,
                max == self.settings.max_retention_depth,
                depth <= max,
                missing_in_walk(h, self.root_objects@, 0, max as nat) == missing_in_walk(
                    h,
                    level@,
                    depth as nat,
                    max as nat,
                ),
            decreases max - depth,
        {
            let mut missing: Vec<usize> = Vec::new();
            let n = level.len();
            let mut i: usize = 0;
            while i < n
                invariant
                    n == level@.len(),
                    i <= n,
                    h == heap@,
                    missing@ == unknown_ids(h, level@.take(i as int)),
                decreases n - i,
            {
                let id = level[i];
                proof {
                    assert(level@.take(i + 1).drop_last() =~= level@.take(i as int));
                    assert(level@.take(i + 1).last() == id);
                }
                if id != 0 {
                    match heap.get(id) {
                        Some(_) => {
                            assert(missing@ =~= unknown_ids(h, level@.take(i + 1)));
                        },
                        None => {
                            missing.push(id);
                            assert(missing@ =~= unknown_ids(h, level@.take(i + 1)));
                        },
                    }
                } else {
                    assert(missing@ =~= unknown_ids(h, level@.take(i + 1)));
                }
                i = i + 1;
            }
            assert(level@.take(n as int) =~= level@);
            proof {
                lemma_missing_in_walk(h, self.root_objects@, 0, max as nat);
            }
            if missing.len() > 0 {
                return missing;
            }
            if depth >= max {
                return missing;
            }
            // Every object of this level is known: go on with what they reference.
            proof {
                lemma_unknown_ids(h, level@);
            }
            let mut next: Vec<usize> = Vec::new();
            let mut j: usize = 0;
            while j < n
                invariant
                    n == level@.len(),
                    j <= n,
                    h == heap@,
                    all_known(h, level@),
                    next@ == refs_of_ids(h, level@.take(j as int)),
                decreases n - j,
            {
                let id = level[j];
                proof {
                    assert(level@.take(j + 1).drop_last() =~= level@.take(j as int));
                    assert(level@.take(j + 1).last() == id);
                }
                if id != 0 {
                    match heap.get(id) {
                        Some(info) => {
                            let m = info.references.len();
                            let ghost before = next@;
                            let mut k: usize = 0;
                            while k < m
                                invariant
                                    m == info.references@.len(),
                                    k <= m,
                                    next@ == before + info.references@.take(k as int),
                                decreases m - k,
                            {
                                next.push(info.references[k]);
                                proof {
                                    assert(next@ =~= before + info.references@.take(k + 1));
                                }
                                k = k + 1;
                            }
                            assert(info.references@.take(m as int) =~= info.references@);
                        },
                        None => {
                            assert(level@[j as int] == id);
                        },
                    }
                } else {
                    assert(next@ =~= refs_of_ids(h, level@.take(j + 1)));
                }
                j = j + 1;
            }
            assert(level@.take(n as int) =~= level@);
            level = next;
            depth = depth + 1;
        }
    }

    /// The class ids whose names the report on `tree` shows.
    pub fn report_class_ids(tree: &TreeNode) -> (ids: Vec<usize>)
        ensures
            ids@ == printed_keys_seq(tree@.children),
    {
        let ghost cs = tree@.children;
        proof {
            lemma_view_nodes(tree.children@);
            assert(cs.take(0) =~= Seq::<SpecTree>::empty());
        }
        let mut ids: Vec<usize> = Vec::new();
        let n = tree.children.len();
        let mut i: usize = 0;
        while i < n
            invariant
                n == tree.children@.len(),
                n == cs.len(),
                i <= n,
                forall|j: int| 0 <= j < n ==> #[trigger] cs[j] == view_node(tree.children@[j]),
                ids@ == printed_keys_seq(cs.take(i as int)),
            decreases n - i,
        {
            Self::collect_printed_keys(&tree.children[i], &mut ids);
            proof {
                assert(cs.take(i + 1).drop_last() =~= cs.take(i as int));
                assert(cs.take(i + 1).last() == cs[i as int]);
            }
            i = i + 1;
        }
        assert(cs.take(n as int) =~= cs);
        ids
    }

    fn collect_printed_keys(node: &TreeNode, out: &mut Vec<usize>)
        ensures
            final(out)@ == old(out)@ + printed_keys(node@),
        decreases node,
    {
        if node.key == 0 {
            assert(old(out)@ + Seq::<usize>::empty() =~= old(out)@);
            return;
        }
        let ghost cs = node@.children;
        let ghost start = out@;
        out.push(node.key);
        proof {
            lemma_view_nodes(node.children@);
            assert(cs.take(0) =~= Seq::<SpecTree>::empty());
            assert(out@ =~= start + seq![node.key] + printed_keys_seq(cs.take(0)));
        }
        let n = node.children.len();
        let mut i: usize = 0;
        while i < n
            invariant
                n == node.children@.len(),
                n == cs.len(),
                i <= n,
                forall|j: int| 0 <= j < n ==> #[trigger] cs[j] == view_node(node.children@[j]),
                out@ == start + seq![node.key] + printed_keys_seq(cs.take(i as int)),
            decreases n - i,
        {
            assert(decreases_to!(node => node.children@[i as int]));
            Self::collect_printed_keys(&node.children[i], out);
            proof {
                assert(cs.take(i + 1).drop_last() =~= cs.take(i as int));
                assert(cs.take(i + 1).last() == cs[i as int]);
                assert(out@ =~= start + seq![node.key] + printed_keys_seq(cs.take(i + 1)));
            }
            i = i + 1;
        }
        assert(cs.take(n as int) =~= cs);
        assert(out@ =~= start + printed_keys(node@));
    }

    /// The profiler's id, name, description and parameters, whose default
    /// values are those of `ProfilerSettings::default`.
    pub fn profiler_info() -> (info: ProfilerInfo)
        ensures
            info.uuid@ == "805A307B-061C-47F3-9B30-F795C3186E86"@,
            info.name@ == "List GC survivors V2"@,
            info.description@ == "Todo.\n\n*\u{26a0}\u{fe0f} Experimental*"@,
            info.parameters@.len() == 4,
            info.parameters@[0].name@ == "Sort by size"@,
            info.parameters@[0].key@ == "sort_by_size"@,
            info.parameters@[0].value@ == (if default_settings().sort_by_size {
                "true"@
            } else {
                "false"@
            }),
            info.parameters@[0].description@
                == "If true, sort the results by inclusive size (bytes). Otherwise, sort by inclusive instances count."@,
            info.parameters@[1].name@ == "Retained references threshold"@,
            info.parameters@[1].key@ == "retained_references_threshold"@,
            info.parameters@[1].value@ == decimal(
                default_settings().retained_references_threshold as nat,
            ),
            info.parameters@[1].description@
                == "Threshold of number of retained references by a root to ignore it"@,
            info.parameters@[2].name@ == "Retained bytes threshold"@,
            info.parameters@[2].key@ == "retained_bytes_threshold"@,
            info.parameters@[2].value@ == decimal(default_settings().retained_bytes_threshold as nat),
            info.parameters@[2].description@
                == "Threshold of number of retained bytes by a root to ignore it"@,
            info.parameters@[3].name@ == "Maximum depth"@,
            info.parameters@[3].key@ == "max_retention_depth"@,
            info.parameters@[3].value@ == decimal(default_settings().max_retention_depth as nat),
            info.parameters@[3].description@ == "The maximum depth while drilling through retention paths"@,
    {
        let defaults = ProfilerSettings::default();
        let mut parameters: Vec<ProfilerParameter> = Vec::new();
        parameters.push(
            ProfilerParameter::define(
                "Sort by size",
                "sort_by_size",
                String::from_str(
                    if defaults.sort_by_size {
                        "true"
                    } else {
                        "false"
                    },
                ),
                "If true, sort the results by inclusive size (bytes). Otherwise, sort by inclusive instances count.",
            ),
        );
        parameters.push(
            ProfilerParameter::define(
                "Retained references threshold",
                "retained_references_threshold",
                decimal_string(defaults.retained_references_threshold as u128),
                "Threshold of number of retained references by a root to ignore it",
            ),
        );
        parameters.push(
            ProfilerParameter::define(
                "Retained bytes threshold",
                "retained_bytes_threshold",
                decimal_string(defaults.retained_bytes_threshold as u128),
                "Threshold of number of retained bytes by a root to ignore it",
            ),
        );
        parameters.push(
            ProfilerParameter::define(
                "Maximum depth",
                "max_retention_depth",
                decimal_string(defaults.max_retention_depth as u128),
                "The maximum depth while drilling through retention paths",
            ),
        );
        ProfilerInfo {
            uuid: String::from_str("805A307B-061C-47F3-9B30-F795C3186E86"),
            name: String::from_str("List GC survivors V2"),
            description: String::from_str("Todo.\n\n*\u{26a0}\u{fe0f} Experimental*"),
            parameters,
        }
    }
}

} // verus!
