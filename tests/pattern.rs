use concat_rs::pattern::matches_pattern;

#[test]
fn test_matches_pattern() {
    assert!(matches_pattern("*.rs", "src/main.rs"));
    assert!(matches_pattern("src/*", "src/main.rs"));
    assert!(!matches_pattern("src/*.rs", "tests/main.rs"));
}

#[test]
fn star_matches_anything() {
    assert!(matches_pattern("*", ""));
    assert!(matches_pattern("*", "a/b/c.txt"));
    assert!(matches_pattern("**", ""));
}

#[test]
fn literal_pattern_matches_only_itself() {
    assert!(matches_pattern("src/main.rs", "src/main.rs"));
    assert!(!matches_pattern("src/main.rs", "src/main.rsx"));
    assert!(!matches_pattern("src/main.rs", "xsrc/main.rs"));
    assert!(matches_pattern("", ""));
    assert!(!matches_pattern("", "a"));
}

#[test]
fn anchored_start_and_end() {
    assert!(!matches_pattern("main*", "src/main.rs"));
    assert!(matches_pattern("*main*", "src/main.rs"));
    assert!(!matches_pattern("*.rs", "src/main.rs.bak"));
    assert!(matches_pattern("a*b*c", "aXbYc"));
    assert!(!matches_pattern("a*b*c", "aXbYcZ"));
}

#[test]
fn scan_does_not_backtrack() {
    // the piece "ab" is taken at its first occurrence, leaving "xab" unmatched
    assert!(!matches_pattern("*ab", "abxab"));
    assert!(matches_pattern("*ab*", "abxab"));
    assert!(!matches_pattern("a*b", "abxabc"));
    assert!(!matches_pattern("*a.rs", "a.rs.a.rsx"));
}
