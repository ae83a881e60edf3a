use composite_tree::composite::Tree;
use composite_tree::visitor::{ReportVisitor, SizeVisitor};

fn scenario_tree() -> (Tree, usize) {
    // Top-down, as the scenario reads: root and bin first, then the leaves.
    let mut t = Tree::new();
    let root = t.new_composite(String::from("root"));
    let bin = t.new_composite(String::from("bin"));
    let vi = t.new_leaf(String::from("vi"), 10000);
    let latex = t.new_leaf(String::from("latex"), 20000);
    assert_eq!(t.add_child(bin, vi), Ok(()));
    assert_eq!(t.add_child(bin, latex), Ok(()));
    assert_eq!(t.add_child(root, bin), Ok(()));
    let tmp = t.new_composite(String::from("tmp"));
    assert_eq!(t.add_child(root, tmp), Ok(()));
    (t, root)
}

#[test]
fn test_visitor() {
    // Double dispatch: each node kind reaches its own visitor method.
    let mut t = Tree::new();
    let leaf = t.new_leaf(String::from("file"), 7);
    let comp = t.new_composite(String::from("dir"));
    assert_eq!(t.add_child(comp, leaf), Ok(()));

    let mut report = ReportVisitor::new();
    t.traverse(comp, &mut report);
    assert_eq!(report.entries.len(), 2);
    assert_eq!(report.entries[0].name, "dir");
    assert_eq!(report.entries[0].size, None);
    assert_eq!(report.entries[1].name, "file");
    assert_eq!(report.entries[1].size, Some(7));
}

#[test]
fn test_scenario_traversal_order() {
    // Pre-order, children in insertion order: root, bin, vi, latex, tmp.
    let (t, root) = scenario_tree();
    let mut report = ReportVisitor::new();
    t.traverse(root, &mut report);
    let names: Vec<&str> = report.entries.iter().map(|e| e.name.as_str()).collect();
    assert_eq!(names, vec!["root", "bin", "vi", "latex", "tmp"]);
    let depths: Vec<usize> = report.entries.iter().map(|e| e.depth).collect();
    assert_eq!(depths, vec![0, 1, 2, 2, 1]);
}

#[test]
fn test_visitor_visits_each_node_once() {
    let (t, root) = scenario_tree();
    let mut report = ReportVisitor::new();
    t.traverse(root, &mut report);
    let mut seen: Vec<usize> = report.entries.iter().map(|e| e.idx).collect();
    assert_eq!(seen.len(), 5);
    seen.sort();
    assert_eq!(seen, vec![0, 1, 2, 3, 4]);
}

#[test]
fn test_visitor_parent_before_child() {
    let (t, root) = scenario_tree();
    let mut report = ReportVisitor::new();
    t.traverse(root, &mut report);
    let order: Vec<usize> = report.entries.iter().map(|e| e.idx).collect();
    for (pos, e) in report.entries.iter().enumerate() {
        if e.idx != root {
            let parent = t.parent_of(e.idx).unwrap();
            let ppos = order.iter().position(|&i| i == parent).unwrap();
            assert!(ppos < pos);
        }
    }
}

#[test]
fn test_scenario_visitor_total() {
    let (t, root) = scenario_tree();
    let mut acc = SizeVisitor::new();
    t.traverse(root, &mut acc);
    assert_eq!(acc.total(), 30000);
    assert_eq!(acc.total(), t.get_size(root));
    assert_eq!(t.total_size(root), 30000);
}

#[test]
fn test_traversal_of_single_node() {
    let mut t = Tree::new();
    let lone = t.new_composite(String::from("lone"));
    let mut report = ReportVisitor::new();
    t.traverse(lone, &mut report);
    assert_eq!(report.entries.len(), 1);
    assert_eq!(report.entries[0].name, "lone");
    assert_eq!(report.entries[0].depth, 0);

    let mut acc = SizeVisitor::new();
    t.traverse(lone, &mut acc);
    assert_eq!(acc.total(), 0);
}

#[test]
fn test_size_visitor_saturates() {
    let mut t = Tree::new();
    let big = t.new_leaf(String::from("big"), u64::MAX);
    let one = t.new_leaf(String::from("one"), 1);
    let all = t.new_composite(String::from("all"));
    assert_eq!(t.add_child(all, big), Ok(()));
    assert_eq!(t.add_child(all, one), Ok(()));
    assert_eq!(t.total_size(all), u64::MAX);
}

#[test]
fn test_visitor_accumulates_across_traversals() {
    let (t, root) = scenario_tree();
    let mut acc = SizeVisitor::new();
    t.traverse(root, &mut acc);
    t.traverse(root, &mut acc);
    assert_eq!(acc.total(), 60000);
}

#[test]
fn test_accept_dispatches_on_kind() {
    let (t, root) = scenario_tree();
    let vi = 2;
    assert_eq!(t.get_name(vi), "vi");
    let mut report = ReportVisitor::new();
    t.nodes[vi].accept(vi, 0, &mut report);
    t.nodes[root].accept(root, 0, &mut report);
    assert_eq!(report.entries.len(), 2);
    assert_eq!(report.entries[0].size, Some(10000));
    assert_eq!(report.entries[1].size, None);
}
