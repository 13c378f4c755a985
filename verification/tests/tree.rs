use ks_cli::terminal::{build_tree, less, tree, Node, TreeLine};

fn view(ls: &[TreeLine]) -> Vec<(String, String, bool)> {
    ls.iter().map(|l| (l.guide.clone(), l.label.clone(), l.is_dir)).collect()
}

fn t(g: &str, l: &str, d: bool) -> (String, String, bool) {
    (g.to_string(), l.to_string(), d)
}

#[test]
fn tree_lists_sorted_with_guides() {
    let lines = tree(&["b/x", "a", "b/y/z", "b/x"]);
    assert_eq!(
        view(&lines),
        vec![
            t("", "a", false),
            t("", "b/", true),
            t("├── ", "x", false),
            t("└── ", "y/", true),
            t("    └── ", "z", false),
        ]
    );
}

#[test]
fn deeper_guides_continue_bars() {
    let lines = tree(&["r/a/one", "r/a/two", "r/b"]);
    assert_eq!(
        view(&lines),
        vec![
            t("", "r/", true),
            t("├── ", "a/", true),
            t("│   ├── ", "one", false),
            t("│   └── ", "two", false),
            t("└── ", "b", false),
        ]
    );
}

#[test]
fn empty_listing_has_no_lines() {
    assert!(tree(&[]).is_empty());
}

#[test]
fn insert_builds_sorted_unique_children() {
    let mut root = Node::new();
    root.insert(&["b", "c"]);
    root.insert(&["a"]);
    root.insert(&["b", "c"]);
    let names: Vec<&str> = root.children.iter().map(|(n, _)| n.as_str()).collect();
    assert_eq!(names, vec!["a", "b"]);
    assert!(root.children[0].1.is_leaf);
    assert!(!root.children[1].1.is_leaf);
    assert_eq!(root.children[1].1.children.len(), 1);
    assert!(root.children[1].1.children[0].1.is_leaf);
    let built = build_tree(&["x/y"]);
    assert_eq!(built.children.len(), 1);
}

#[test]
fn string_order_matches_std() {
    for (a, b) in [("a", "b"), ("a", "ab"), ("", "a"), ("b", "a"), ("x", "x"), ("Z", "a"), ("é", "z")] {
        assert_eq!(less(a, b), a < b, "{a:?} < {b:?}");
    }
}

#[test]
fn listing_depends_only_on_the_set_of_paths() {
    let a = tree(&["b/x", "a", "b/y/z"]);
    let b = tree(&["b/y/z", "a", "b/x", "a", "b/x"]);
    assert_eq!(view(&a), view(&b));
}

fn shape(n: &Node) -> Vec<(String, bool, usize)> {
    let mut out = Vec::new();
    for (name, child) in &n.children {
        out.push((name.clone(), child.is_leaf, child.children.len()));
        out.extend(shape(child));
    }
    out
}

#[test]
fn inserts_are_idempotent_and_commute() {
    let mut a = Node::new();
    a.insert(&["b", "x"]);
    a.insert(&["a"]);
    let before = shape(&a);
    a.insert(&["b", "x"]);
    assert_eq!(shape(&a), before);
    let mut b = Node::new();
    b.insert(&["a"]);
    b.insert(&["b", "x"]);
    assert_eq!(shape(&a), shape(&b));
}
