use std::collections::HashMap;

use profilers::format::decimal_string;
use profilers::heap::{HeapSnapshot, ObjectInfo};
use profilers::profiler::{GCSurvivorsProfiler2, ProfilerSettings};
use profilers::references::References;
use profilers::report::Report;
use profilers::tree::TreeNode;

fn object(class_id: usize, size: Option<usize>, references: Vec<usize>) -> ObjectInfo {
    ObjectInfo { class_id, size, references }
}

fn refs(entries: &[(usize, usize)]) -> References {
    let mut r = References::new();
    for &(id, size) in entries {
        r.insert(id, size);
    }
    r
}

fn entries(r: &References) -> Vec<(usize, usize)> {
    (0..r.len()).map(|i| r.entry(i)).collect()
}

fn settings(sort_by_size: bool, refs_threshold: usize, bytes_threshold: usize, max_depth: usize) -> ProfilerSettings {
    ProfilerSettings {
        sort_by_size,
        retained_references_threshold: refs_threshold,
        retained_bytes_threshold: bytes_threshold,
        max_retention_depth: max_depth,
    }
}

/// Roots 1, 2, 3 (and a null root); 1 and 2 are of class 10, 3 of class 20;
/// 1 references 4 (class 30), 3 references 5 (class 30), 5 references 6
/// (class 40).
fn sample_heap() -> HeapSnapshot {
    let mut heap = HeapSnapshot::new();
    heap.insert(1, object(10, Some(100), vec![4]));
    heap.insert(2, object(10, Some(50), vec![0]));
    heap.insert(3, object(20, Some(10), vec![5]));
    heap.insert(4, object(30, Some(7), vec![]));
    heap.insert(5, object(30, None, vec![6]));
    heap.insert(6, object(40, Some(3000), vec![]));
    heap
}

fn profiler_with_roots(s: ProfilerSettings) -> GCSurvivorsProfiler2 {
    let mut p = GCSurvivorsProfiler2::new(s);
    p.garbage_collection_started(true);
    p.root_references_2(&[1, 2, 0, 3]);
    p
}

fn keys(nodes: &Vec<TreeNode>) -> Vec<usize> {
    nodes.iter().map(|n| n.key).collect()
}

#[test]
fn summary_groups_total_with_commas() {
    let r = refs(&[(1, 1000), (2, 234)]);
    assert_eq!(r.to_string(), "(1,234 bytes) - 2");
    let big = refs(&[(1, 1_000_000), (2, 234_567)]);
    assert_eq!(big.to_string(), "(1,234,567 bytes) - 2");
    let small = refs(&[(9, 999)]);
    assert_eq!(small.to_string(), "(999 bytes) - 1");
}

#[test]
fn summary_of_zero_total_is_unknown() {
    assert_eq!(References::new().to_string(), "(??? bytes) - 0");
    assert_eq!(refs(&[(1, 0), (2, 0)]).to_string(), "(??? bytes) - 2");
}

#[test]
fn summary_total_beyond_usize() {
    let r = refs(&[(1, usize::MAX), (2, usize::MAX)]);
    let total = (usize::MAX as u128) * 2;
    assert_eq!(r.total_size(), total);
    assert_eq!(decimal_string(total), total.to_string());
}

#[test]
fn decimal_string_writes_digits() {
    assert_eq!(decimal_string(0), "0");
    assert_eq!(decimal_string(7), "7");
    assert_eq!(decimal_string(1234567890), "1234567890");
    assert_eq!(decimal_string(u128::MAX), u128::MAX.to_string());
}

#[test]
fn insert_replaces_the_size_of_a_known_object() {
    let mut r = refs(&[(5, 10), (6, 1)]);
    r.insert(5, 20);
    assert_eq!(entries(&r), vec![(5, 20), (6, 1)]);
    r.insert(7, 3);
    assert_eq!(entries(&r), vec![(5, 20), (6, 1), (7, 3)]);
    assert_eq!(r.total_size(), 24);
}

#[test]
fn add_assign_merges_later_sizes_win() {
    let mut a = refs(&[(1, 10), (2, 20)]);
    let b = refs(&[(2, 25), (3, 30)]);
    a.add_assign(&b);
    assert_eq!(entries(&a), vec![(1, 10), (2, 25), (3, 30)]);
    let d = a.duplicate();
    assert_eq!(entries(&d), entries(&a));
    assert_eq!(entries(&References::default()), vec![]);
}

#[test]
fn inclusive_value_merges_subtree() {
    let mut root = TreeNode::new(1);
    root.value = Some(refs(&[(1, 5)]));
    let mut a = TreeNode::new(2);
    a.value = Some(refs(&[(2, 6), (1, 5)]));
    let mut b = TreeNode::new(3);
    b.value = Some(refs(&[(3, 7)]));
    a.children.push(b);
    root.children.push(a);
    root.children.push(TreeNode::new(4));
    let v = root.get_inclusive_value();
    assert_eq!(entries(&v), vec![(1, 5), (2, 6), (3, 7)]);
    assert_eq!(root.sort_key(true), 18);
    assert_eq!(root.sort_key(false), 3);
}

#[test]
fn build_tree_groups_by_class() {
    let heap = sample_heap();
    let p = profiler_with_roots(settings(true, 0, 0, 4));
    assert!(p.missing_objects(&heap).is_empty());
    let tree = p.build_tree(&heap);
    assert_eq!(tree.key, 0);
    assert!(tree.value.is_none());
    assert_eq!(keys(&tree.children), vec![10, 20]);
    let c10 = &tree.children[0];
    assert_eq!(entries(c10.value.as_ref().unwrap()), vec![(1, 100), (2, 50)]);
    assert_eq!(keys(&c10.children), vec![30]);
    assert_eq!(entries(c10.children[0].value.as_ref().unwrap()), vec![(4, 7)]);
    let c20 = &tree.children[1];
    assert_eq!(entries(c20.value.as_ref().unwrap()), vec![(3, 10)]);
    assert_eq!(keys(&c20.children), vec![30]);
    // an unknown size counts as zero
    assert_eq!(entries(c20.children[0].value.as_ref().unwrap()), vec![(5, 0)]);
    assert_eq!(keys(&c20.children[0].children), vec![40]);
}

#[test]
fn build_tree_drops_branches_under_reference_threshold() {
    let heap = sample_heap();
    let p = profiler_with_roots(settings(true, 2, 0, 4));
    let tree = p.build_tree(&heap);
    // Branches are dropped from the bottom up: 6 alone, then 5 alone, then 3
    // alone are under the threshold, so class 20 goes; class 10 keeps {1, 2}
    // after its single-object child 4 is dropped.
    assert_eq!(keys(&tree.children), vec![10]);
    assert_eq!(keys(&tree.children[0].children), vec![]);
    assert_eq!(entries(&tree.children[0].get_inclusive_value()), vec![(1, 100), (2, 50)]);
}

#[test]
fn build_tree_drops_branches_under_bytes_threshold() {
    let heap = sample_heap();
    let p = profiler_with_roots(settings(true, 0, 1000, 4));
    let tree = p.build_tree(&heap);
    // class 10 retains 157 bytes, class 20 retains 3010 bytes
    assert_eq!(keys(&tree.children), vec![20]);
    assert_eq!(keys(&tree.children[0].children), vec![30]);
    assert_eq!(keys(&tree.children[0].children[0].children), vec![40]);
}

#[test]
fn build_tree_stops_at_max_depth() {
    let heap = sample_heap();
    let p0 = profiler_with_roots(settings(true, 0, 0, 0));
    let t0 = p0.build_tree(&heap);
    assert_eq!(keys(&t0.children), vec![10, 20]);
    assert!(t0.children.iter().all(|c| c.children.is_empty()));
    let p1 = profiler_with_roots(settings(true, 0, 0, 1));
    let t1 = p1.build_tree(&heap);
    assert_eq!(keys(&t1.children[1].children), vec![30]);
    assert!(t1.children[1].children[0].children.is_empty());
}

#[test]
fn missing_objects_reports_unknown_objects_level_by_level() {
    let full = sample_heap();
    let p = profiler_with_roots(settings(true, 0, 0, 4));
    let mut heap = HeapSnapshot::new();
    assert_eq!(p.missing_objects(&heap), vec![1, 2, 3]);
    for id in [1, 2, 3] {
        let o = full.get(id).unwrap();
        heap.insert(id, object(o.class_id, o.size, o.references.clone()));
    }
    assert_eq!(p.missing_objects(&heap), vec![4, 5]);
    let shallow = profiler_with_roots(settings(true, 0, 0, 0));
    assert!(shallow.missing_objects(&heap).is_empty());
}

#[test]
fn sort_tree_orders_by_size_or_count() {
    let heap = sample_heap();
    let by_size = profiler_with_roots(settings(true, 0, 0, 4));
    let mut t = by_size.build_tree(&heap);
    by_size.sort_tree(&mut t);
    // 3010 bytes before 157 bytes
    assert_eq!(keys(&t.children), vec![20, 10]);

    let mut heap2 = HeapSnapshot::new();
    heap2.insert(1, object(10, Some(1), vec![]));
    heap2.insert(2, object(20, Some(1000), vec![]));
    heap2.insert(3, object(30, Some(1), vec![]));
    heap2.insert(4, object(30, Some(1), vec![]));
    let mut p = GCSurvivorsProfiler2::new(settings(false, 0, 0, 4));
    p.garbage_collection_started(true);
    p.root_references_2(&[1, 2, 3, 4]);
    let mut t2 = p.build_tree(&heap2);
    p.sort_tree(&mut t2);
    // two objects first, then the one-object classes in their order
    assert_eq!(keys(&t2.children), vec![30, 10, 20]);
    let mut p_size = GCSurvivorsProfiler2::new(settings(true, 0, 0, 4));
    p_size.garbage_collection_started(true);
    p_size.root_references_2(&[1, 2, 3, 4]);
    let mut t3 = p_size.build_tree(&heap2);
    p_size.sort_tree(&mut t3);
    assert_eq!(keys(&t3.children), vec![20, 30, 10]);
}

#[test]
fn sort_by_iterative_sorts_every_level() {
    let mut root = TreeNode::new(0);
    let mut a = TreeNode::new(1);
    a.value = Some(refs(&[(1, 1)]));
    let mut a1 = TreeNode::new(11);
    a1.value = Some(refs(&[(11, 1)]));
    let mut a2 = TreeNode::new(12);
    a2.value = Some(refs(&[(12, 5)]));
    a.children.push(a1);
    a.children.push(a2);
    let mut b = TreeNode::new(2);
    b.value = Some(refs(&[(2, 100)]));
    root.children.push(a);
    root.children.push(b);
    root.sort_by_iterative(true);
    assert_eq!(keys(&root.children), vec![2, 1]);
    assert_eq!(keys(&root.children[1].children), vec![12, 11]);
}

#[test]
fn write_report_writes_html() {
    let heap = sample_heap();
    let p = profiler_with_roots(settings(true, 0, 0, 1));
    let tree = p.garbage_collection_finished(&heap).unwrap();
    let ids = GCSurvivorsProfiler2::report_class_ids(&tree);
    assert_eq!(ids, vec![10, 30, 20, 30]);
    let mut names: HashMap<usize, String> = HashMap::new();
    names.insert(10, "List<int>".to_string());
    names.insert(20, "A&B".to_string());
    names.insert(30, "Leaf".to_string());
    let mut report = Report::new();
    p.write_report(tree, &names, &mut report);
    let text = report.text();
    let lines: Vec<&str> = text.split("\r\n").collect();
    assert_eq!(
        lines,
        vec![
            "<h2>GC Survivors Report</h2>",
            "<h3>5 surviving objects of 2 classes</h3>",
            "<details><summary><span>(157 bytes) - 3</span><code>List&lt;int&gt;</code></summary>",
            "<ul>",
            "<li><span>(7 bytes) - 1</span><code>Leaf</code></li>",
            "</ul>",
            "</details>",
            "<details><summary><span>(10 bytes) - 2</span><code>A&amp;B</code></summary>",
            "<ul>",
            "<li><span>(??? bytes) - 1</span><code>Leaf</code></li>",
            "</ul>",
            "</details>",
            "",
        ]
    );
}

#[test]
fn print_html_truncated_path() {
    let p = GCSurvivorsProfiler2::new(ProfilerSettings::default());
    let node = TreeNode::new(0);
    let mut report = Report::new();
    p.print_html(&node, &HashMap::new(), &mut report);
    assert_eq!(report.text(), "Path truncated because of depth limit reached\r\n");
}

#[test]
fn report_lines_end_with_crlf() {
    let mut report = Report::new();
    report.write_line("a".to_string());
    report.new_line();
    report.write_line("b".to_string());
    assert_eq!(report.text(), "a\r\n\r\nb\r\n");
}

#[test]
fn roots_are_recorded_only_during_the_induced_gc() {
    let mut p = GCSurvivorsProfiler2::new(ProfilerSettings::default());
    p.root_references_2(&[1, 2]);
    assert!(p.root_objects.is_empty());
    p.garbage_collection_started(false);
    assert!(!p.is_relevant_gc);
    p.root_references_2(&[1, 2]);
    assert!(p.root_objects.is_empty());
    p.garbage_collection_started(true);
    p.root_references_2(&[1, 2]);
    p.root_references_2(&[3]);
    assert_eq!(p.root_objects, vec![1, 2, 3]);
    p.garbage_collection_started(false);
    assert!(p.is_relevant_gc);
}

#[test]
fn gc_finished_before_the_induced_gc_does_nothing() {
    let p = GCSurvivorsProfiler2::new(ProfilerSettings::default());
    assert!(p.garbage_collection_finished(&HeapSnapshot::new()).is_none());
}

#[test]
fn profiler_info_declares_the_parameters() {
    let info = GCSurvivorsProfiler2::profiler_info();
    assert_eq!(info.uuid, "805A307B-061C-47F3-9B30-F795C3186E86");
    assert_eq!(info.name, "List GC survivors V2");
    assert_eq!(info.description, "Todo.\n\n*\u{26a0}\u{fe0f} Experimental*");
    let params: Vec<(&str, &str)> = info.parameters.iter().map(|p| (p.key.as_str(), p.value.as_str())).collect();
    assert_eq!(
        params,
        vec![
            ("sort_by_size", "true"),
            ("retained_references_threshold", "100"),
            ("retained_bytes_threshold", "10000"),
            ("max_retention_depth", "4"),
        ]
    );
    assert_eq!(info.parameters[3].name, "Maximum depth");
    let d = ProfilerSettings::default();
    assert!(d.sort_by_size);
    assert_eq!(d.retained_references_threshold, 100);
    assert_eq!(d.retained_bytes_threshold, 10000);
    assert_eq!(d.max_retention_depth, 4);
}

fn params(pairs: &[(&str, &str)]) -> Vec<(String, String)> {
    pairs.iter().map(|(k, v)| (k.to_string(), v.to_string())).collect()
}

#[test]
fn settings_from_declared_parameters_are_the_defaults() {
    let info = GCSurvivorsProfiler2::profiler_info();
    let declared: Vec<(String, String)> =
        info.parameters.iter().map(|p| (p.key.clone(), p.value.clone())).collect();
    let s = ProfilerSettings::from_parameters(&declared).unwrap();
    let d = ProfilerSettings::default();
    assert_eq!(
        (s.sort_by_size, s.retained_references_threshold, s.retained_bytes_threshold, s.max_retention_depth),
        (d.sort_by_size, d.retained_references_threshold, d.retained_bytes_threshold, d.max_retention_depth)
    );
}

#[test]
fn settings_from_parameters_reads_each_value() {
    let p = params(&[
        ("max_retention_depth", "+7"),
        ("sort_by_size", "false"),
        ("retained_bytes_threshold", "0"),
        ("retained_references_threshold", "18446744073709551615"),
        ("sort_by_size", "true"),
    ]);
    let s = ProfilerSettings::from_parameters(&p).unwrap();
    assert!(!s.sort_by_size);
    assert_eq!(s.max_retention_depth, 7);
    assert_eq!(s.retained_bytes_threshold, 0);
    assert_eq!(s.retained_references_threshold, usize::MAX);
}

#[test]
fn settings_from_parameters_rejects_missing_or_unreadable() {
    let base = [
        ("sort_by_size", "true"),
        ("retained_references_threshold", "1"),
        ("retained_bytes_threshold", "2"),
        ("max_retention_depth", "3"),
    ];
    assert!(ProfilerSettings::from_parameters(&params(&base)).is_some());
    assert!(ProfilerSettings::from_parameters(&params(&base[..3])).is_none());
    for (key, bad) in [
        ("sort_by_size", "TRUE"),
        ("retained_references_threshold", ""),
        ("retained_bytes_threshold", "+"),
        ("max_retention_depth", "-3"),
        ("max_retention_depth", "1x"),
        ("max_retention_depth", "18446744073709551616"),
    ] {
        let p: Vec<(String, String)> = params(&base)
            .into_iter()
            .map(|(k, v)| if k == key { (k, bad.to_string()) } else { (k, v) })
            .collect();
        assert!(ProfilerSettings::from_parameters(&p).is_none(), "{} = {:?}", key, bad);
    }
}

#[test]
fn add_assign_twice_is_once_and_empty_is_identity() {
    let mut x = refs(&[(1, 10), (2, 20)]);
    let y = refs(&[(2, 25), (3, 30), (2, 26)]);
    x.add_assign(&y);
    let once = entries(&x);
    x.add_assign(&y);
    assert_eq!(entries(&x), once);
    x.add_assign(&References::default());
    assert_eq!(entries(&x), once);
}

#[test]
fn raising_a_threshold_never_adds_a_class() {
    let heap = sample_heap();
    let mut previous: Option<Vec<usize>> = None;
    for threshold in [0, 2, 3, 4] {
        let p = profiler_with_roots(settings(true, threshold, 0, 4));
        let ks = keys(&p.build_tree(&heap).children);
        if let Some(prev) = &previous {
            assert!(ks.iter().all(|k| prev.contains(k)));
        }
        previous = Some(ks);
    }
}
