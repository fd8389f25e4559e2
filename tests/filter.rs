use concat_rs::filter::{should_include, Options};

fn options(exts: &[&str], includes: &[&str], excludes: &[&str], hidden: bool) -> Options {
    Options {
        exts: exts.iter().map(|s| s.to_string()).collect(),
        includes: includes.iter().map(|s| s.to_string()).collect(),
        excludes: excludes.iter().map(|s| s.to_string()).collect(),
        hidden,
        tree: false,
        text: false,
        output: None,
        inputs: Vec::new(),
    }
}

#[test]
fn extension_rule() {
    let o = options(&["rs"], &[], &[], false);
    assert!(!should_include("a/b.txt", &o));
    assert!(!should_include("a/b", &o));
    assert!(should_include("a/b.rs", &o));
    assert!(!should_include("a.rs/b", &o));
}

#[test]
fn hidden_rule() {
    assert!(!should_include(".env", &options(&[], &[], &[], false)));
    assert!(!should_include("dir/.env", &options(&[], &[], &[], false)));
    assert!(should_include(".env", &options(&[], &[], &[], true)));
    assert!(should_include(".hidden/file", &options(&[], &[], &[], false)));
}

#[test]
fn dotfile_extension() {
    assert!(should_include(".rs", &options(&["rs"], &[], &[], true)));
    assert!(should_include(".env", &options(&["env"], &[], &[], true)));
    assert!(!should_include(".env", &options(&["env"], &[], &[], false)));
    assert!(should_include(".x.rs", &options(&["rs"], &[], &[], true)));
    assert!(!should_include("dir/.env", &options(&["rs"], &[], &[], true)));
}

#[test]
fn include_and_exclude() {
    let o = options(&[], &["src/*"], &[], false);
    assert!(should_include("src/main.rs", &o));
    assert!(!should_include("tests/main.rs", &o));
    let o = options(&[], &["src/*"], &["*main*"], false);
    assert!(!should_include("src/main.rs", &o));
    assert!(should_include("src/lib.rs", &o));
    let o = options(&[], &[], &["*.lock"], false);
    assert!(!should_include("Cargo.lock", &o));
    assert!(should_include("Cargo.toml", &o));
}
