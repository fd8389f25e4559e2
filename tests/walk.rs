use concat_rs::filter::Options;
use concat_rs::walk::{gather_files, EntryKind, WalkEntry};

fn entry(path: &str, kind: EntryKind) -> WalkEntry {
    WalkEntry { path: path.to_string(), kind }
}

fn rs_only() -> Options {
    Options {
        exts: vec!["rs".to_string()],
        includes: Vec::new(),
        excludes: Vec::new(),
        hidden: false,
        tree: false,
        text: false,
        output: None,
        inputs: Vec::new(),
    }
}

#[test]
fn gather_keeps_visiting_order() {
    let entries = vec![
        entry("./b.rs", EntryKind::File),
        entry("./src", EntryKind::Dir),
        entry("./src/z.rs", EntryKind::File),
        entry("./src/a.txt", EntryKind::File),
        entry("./link.rs", EntryKind::Other),
        entry("./a.rs", EntryKind::File),
    ];
    let got = gather_files(&entries, &rs_only());
    assert_eq!(got, vec!["./b.rs", "./src/z.rs", "./a.rs"]);
    assert_eq!(gather_files(&entries, &rs_only()), got);
}

#[test]
fn gather_single_file_root() {
    let o = rs_only();
    assert_eq!(gather_files(&vec![entry("main.rs", EntryKind::File)], &o), vec!["main.rs"]);
    assert!(gather_files(&vec![entry("notes.txt", EntryKind::File)], &o).is_empty());
}

#[test]
fn gather_nothing() {
    assert!(gather_files(&Vec::new(), &rs_only()).is_empty());
}
