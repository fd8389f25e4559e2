use concat_rs::filter::Options;
use concat_rs::output::{escape_xml, file_element_text, render_document, FileText};
use concat_rs::walk::{gather_files, EntryKind, WalkEntry};

fn file(path: &str, content: &str) -> FileText {
    FileText { path: path.to_string(), content: content.to_string() }
}

fn unescape(s: &str) -> String {
    s.replace("&lt;", "<").replace("&gt;", ">").replace("&amp;", "&")
}

#[test]
fn escape_in_fixed_order() {
    assert_eq!(escape_xml("a<b>&c"), "a&lt;b&gt;&amp;c");
    assert_eq!(escape_xml("&lt;"), "&amp;lt;");
    assert_eq!(escape_xml(""), "");
    assert_eq!(escape_xml("plain"), "plain");
}

#[test]
fn escape_reverses() {
    for s in ["x < y && y > z", "&amp;", "<<>>&&", "no markup"] {
        assert_eq!(unescape(&escape_xml(s)), s);
    }
}

#[test]
fn element_for_one_file() {
    assert_eq!(
        file_element_text("src/a.rs", "if a < b {}"),
        "<file path=\"src/a.rs\"><![CDATA[if a &lt; b {}]]></file>"
    );
}

#[test]
fn plain_text_document() {
    let files = vec![file("a", "one"), file("b", "two\n")];
    assert_eq!(render_document(&files, &None, true), "one\ntwo\n\n");
    let tree = Some(vec!["Directory tree:".to_string(), "a<".to_string()]);
    assert_eq!(render_document(&files, &tree, true), "one\ntwo\n\nDirectory tree:\na<\n");
    assert_eq!(render_document(&Vec::new(), &None, true), "");
}

#[test]
fn structured_document() {
    let files = vec![file("a&b", "x>y")];
    assert_eq!(
        render_document(&files, &None, false),
        "<files>\n<file path=\"a&b\"><![CDATA[x&gt;y]]></file>\n</files>\n"
    );
    let tree = Some(vec!["Directory tree:".to_string(), "a&b".to_string()]);
    assert_eq!(
        render_document(&Vec::new(), &tree, false),
        "<files>\n<tree>\nDirectory tree:\na&amp;b\n\n</tree>\n</files>\n"
    );
}

#[test]
fn end_to_end_selection_and_output() {
    let entries = vec![
        WalkEntry { path: "./src".to_string(), kind: EntryKind::Dir },
        WalkEntry { path: "./src/main.rs".to_string(), kind: EntryKind::File },
        WalkEntry { path: "./.hidden".to_string(), kind: EntryKind::File },
    ];
    let opts = Options {
        exts: vec!["rs".to_string()],
        includes: Vec::new(),
        excludes: Vec::new(),
        hidden: false,
        tree: false,
        text: false,
        output: None,
        inputs: vec![".".to_string()],
    };
    let paths = gather_files(&entries, &opts);
    assert_eq!(paths, vec!["./src/main.rs"]);
    let files = vec![file(&paths[0], "fn main() {}")];
    let doc = render_document(&files, &None, false);
    assert_eq!(
        doc,
        "<files>\n<file path=\"./src/main.rs\"><![CDATA[fn main() {}]]></file>\n</files>\n"
    );
    assert_eq!(doc.matches("<file ").count(), 1);
    assert!(!doc.contains("secret"));
}
