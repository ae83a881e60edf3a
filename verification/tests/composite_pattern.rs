use composite_tree::composite::{Component, Composite, Leaf, Tree, TreeError};

fn scenario_tree() -> (Tree, usize, usize, usize, usize, usize) {
    // Top-down, as a client would write it: composites first, children added
    // as they are created.
    let mut t = Tree::new();
    let root = t.new_composite(String::from("root"));
    let bin = t.new_composite(String::from("bin"));
    let vi = t.new_leaf(String::from("vi"), 10000);
    let latex = t.new_leaf(String::from("latex"), 20000);
    assert_eq!(t.add_child(bin, vi), Ok(()));
    assert_eq!(t.add_child(bin, latex), Ok(()));
    assert_eq!(t.add_child(root, bin), Ok(()));
    let tmp = t.new_composite(String::from("tmp"));
    assert_eq!(t.add_child(root, tmp), Ok(()));
    (t, vi, latex, bin, tmp, root)
}

#[test]
fn test_leaf() {
    let mut t = Tree::new();
    let i = t.new_leaf(String::from("passwd"), 2048);
    assert_eq!(t.len(), 1);
    assert_eq!(t.get_name(i), "passwd");
    assert!(!t.is_composite(i));
    assert_eq!(t.get_size(i), 2048);
    assert_eq!(t.parent_of(i), None);

    let l = Leaf { name: String::from("motd"), size: 17, parent: None };
    assert_eq!(l.get_name(), "motd");
    assert!(!l.is_composite());
    assert_eq!(l.operation(), "Leaf");
}

#[test]
fn test_composite_kind() {
    let c = Composite { name: String::from("usr"), children: Vec::new(), parent: None };
    assert_eq!(c.get_name(), "usr");
    assert!(c.is_composite());
    assert_eq!(c.operation(), "Composite");
}

#[test]
fn test_empty_composite_size_is_zero() {
    let mut t = Tree::new();
    let c = t.new_composite(String::from("empty"));
    assert!(t.is_composite(c));
    assert_eq!(t.get_size(c), 0);
}

#[test]
fn test_scenario_sizes() {
    let (t, vi, latex, bin, tmp, root) = scenario_tree();
    assert_eq!(t.get_size(root), 30000);
    assert_eq!(t.get_size(bin), 30000);
    assert_eq!(t.get_size(tmp), 0);
    assert_eq!(t.get_size(vi), 10000);
    assert_eq!(t.get_size(latex), 20000);
}

#[test]
fn test_add_child_on_leaf_fails() {
    let mut t = Tree::new();
    let stray = t.new_leaf(String::from("stray"), 1);
    let leaf = t.new_leaf(String::from("leaf"), 2);
    assert_eq!(t.add_child(leaf, stray), Err(TreeError::InvalidOperation));
    // Nothing was silently attached: the stray leaf is still unattached.
    assert_eq!(t.parent_of(stray), None);
    assert_eq!(t.get_size(leaf), 2);
}

#[test]
fn test_add_child_cycle_guard() {
    let mut t = Tree::new();
    let a = t.new_composite(String::from("a"));
    let b = t.new_composite(String::from("b"));
    let c = t.new_composite(String::from("c"));
    // A node can never become its own child.
    assert_eq!(t.add_child(a, a), Err(TreeError::CycleDetected));
    // Order of creation does not matter: any composite accepts any
    // unattached node that its own ancestry does not pass through.
    assert_eq!(t.add_child(b, c), Ok(()));
    assert_eq!(t.add_child(a, b), Ok(()));
    // But a node is never attached below itself: `a` is reachable from `a`'s
    // own subtree root, wherever the attach is attempted.
    assert_eq!(t.add_child(c, a), Err(TreeError::CycleDetected));
    assert_eq!(t.add_child(b, a), Err(TreeError::CycleDetected));
    // The failed attempts changed nothing.
    assert_eq!(t.parent_of(a), None);
    assert_eq!(t.parent_of(c), Some(b));
}

#[test]
fn test_add_child_twice_fails() {
    let mut t = Tree::new();
    let leaf = t.new_leaf(String::from("shared"), 5);
    let p1 = t.new_composite(String::from("first"));
    let p2 = t.new_composite(String::from("second"));
    assert_eq!(t.add_child(p1, leaf), Ok(()));
    // A node is attached into at most one parent.
    assert_eq!(t.add_child(p2, leaf), Err(TreeError::InvalidOperation));
    assert_eq!(t.add_child(p1, leaf), Err(TreeError::InvalidOperation));
    assert_eq!(t.parent_of(leaf), Some(p1));
}

#[test]
fn test_add_then_remove_restores() {
    let (mut t, _vi, _latex, bin, _tmp, root) = scenario_tree();
    let size_before = t.get_size(root);
    let extra = t.new_leaf(String::from("extra"), 111);
    assert_eq!(t.add_child(bin, extra), Ok(()));
    assert_eq!(t.get_size(root), size_before + 111);
    assert_eq!(t.parent_of(extra), Some(bin));
    assert_eq!(t.remove_child(bin, extra), Ok(()));
    assert_eq!(t.get_size(root), size_before);
    assert_eq!(t.get_size(bin), 30000);
    assert_eq!(t.parent_of(extra), None);
}

#[test]
fn test_remove_absent_child_is_noop() {
    let (mut t, vi, _latex, bin, tmp, root) = scenario_tree();
    // `vi` is a child of `bin`, not of `tmp` or `root`.
    assert_eq!(t.remove_child(tmp, vi), Ok(()));
    assert_eq!(t.remove_child(root, vi), Ok(()));
    assert_eq!(t.parent_of(vi), Some(bin));
    assert_eq!(t.get_size(root), 30000);
}

#[test]
fn test_remove_child_on_leaf_fails() {
    let mut t = Tree::new();
    let a = t.new_leaf(String::from("a"), 1);
    let b = t.new_leaf(String::from("b"), 2);
    assert_eq!(t.remove_child(b, a), Err(TreeError::InvalidOperation));
}

#[test]
fn test_queries_are_idempotent() {
    let (t, _vi, _latex, bin, _tmp, root) = scenario_tree();
    assert_eq!(t.get_size(root), t.get_size(root));
    assert_eq!(t.get_size(bin), t.get_size(bin));
    assert_eq!(t.get_name(root), t.get_name(root));
    assert_eq!(t.get_name(root), "root");
    assert_eq!(t.get_name(root), "root");
}

#[test]
fn test_mutation_reflected_in_size() {
    // Sizes are recomputed on every call, never cached.
    let mut t = Tree::new();
    let l1 = t.new_leaf(String::from("one"), 10);
    let inner = t.new_composite(String::from("inner"));
    let outer = t.new_composite(String::from("outer"));
    assert_eq!(t.add_child(inner, l1), Ok(()));
    assert_eq!(t.add_child(outer, inner), Ok(()));
    assert_eq!(t.get_size(outer), 10);
    assert_eq!(t.remove_child(inner, l1), Ok(()));
    assert_eq!(t.get_size(outer), 0);
}

#[test]
fn test_sibling_names_need_not_be_unique() {
    let mut t = Tree::new();
    let a = t.new_leaf(String::from("twin"), 1);
    let b = t.new_leaf(String::from("twin"), 2);
    let p = t.new_composite(String::from("parent"));
    assert_eq!(t.add_child(p, a), Ok(()));
    assert_eq!(t.add_child(p, b), Ok(()));
    assert_eq!(t.get_name(a), t.get_name(b));
    assert_eq!(t.get_size(p), 3);
    // Identity is the index, not the name: removing `a` keeps `b`.
    assert_eq!(t.remove_child(p, a), Ok(()));
    assert_eq!(t.get_size(p), 2);
}

#[test]
fn test_deeply_nested_chain() {
    let mut t = Tree::new();
    let leaf = t.new_leaf(String::from("inner"), 42);
    let mut cur = leaf;
    for _ in 0..20 {
        let wrap = t.new_composite(String::from("wrap"));
        assert_eq!(t.add_child(wrap, cur), Ok(()));
        cur = wrap;
    }
    assert_eq!(t.get_size(cur), 42);
    assert_eq!(t.total_size(cur), 42);
}
