use concat_rs::tree::{sort_names, tree_line, tree_lines, TreeEntry};

fn strings(v: &[&str]) -> Vec<String> {
    v.iter().map(|s| s.to_string()).collect()
}

#[test]
fn siblings_sorted() {
    assert_eq!(sort_names(&strings(&["b", "a", "c"])), strings(&["a", "b", "c"]));
    assert_eq!(
        sort_names(&strings(&["main.rs", "Cargo.toml", "lib", "li", "a", "a"])),
        strings(&["Cargo.toml", "a", "a", "li", "lib", "main.rs"])
    );
    assert!(sort_names(&Vec::new()).is_empty());
}

#[test]
fn lines_indented_by_depth() {
    let e = TreeEntry { depth: 2, name: "x.rs".to_string() };
    assert_eq!(tree_line(&e), "    x.rs");
    let entries = vec![
        TreeEntry { depth: 0, name: "a".to_string() },
        TreeEntry { depth: 1, name: "b".to_string() },
        TreeEntry { depth: 0, name: "c".to_string() },
    ];
    assert_eq!(tree_lines(&entries), strings(&["Directory tree:", "a", "  b", "c"]));
    assert_eq!(tree_lines(&Vec::new()), strings(&["Directory tree:"]));
}

#[test]
fn listing_order_ignores_enumeration_order() {
    let a = sort_names(&strings(&["c", "a", "b"]));
    let b = sort_names(&strings(&["b", "c", "a"]));
    assert_eq!(a, b);
    assert!(a.windows(2).all(|w| w[0] < w[1]));
}
