//! Writing the gathered files, and the tree, as plain text or as a small XML dialect.
use vstd::prelude::*;
use vstd::string::*;
use crate::text::views;

verus! {

/// What a single character becomes in escaped text.
pub open spec fn escape_char(c: char) -> Seq<char> {
    if c == '&' {
        seq!['&', 'a', 'm', 'p', ';']
    } else if c == '<' {
        seq!['&', 'l', 't', ';']
    } else if c == '>' {
        seq!['&', 'g', 't', ';']
    } else {
        seq![c]
    }
}

/// `s` with `&`, `<` and `>` written as `&amp;`, `&lt;` and `&gt;`.
pub open spec fn escape(s: Seq<char>) -> Seq<char>
    decreases s.len(),
{
    if s.len() == 0 {
        Seq::empty()
    } else {
        escape(s.drop_last()) + escape_char(s.last())
    }
}

/// Escaped text read back: the three entities turned into their characters again.
pub open spec fn unescape(s: Seq<char>) -> Seq<char>
    decreases s.len(),
{
    if s.len() == 0 {
        Seq::empty()
    } else if s.len() >= 5 && s.take(5) == seq!['&', 'a', 'm', 'p', ';'] {
        seq!['&'] + unescape(s.skip(5))
    } else if s.len() >= 4 && s.take(4) == seq!['&', 'l', 't', ';'] {
        seq!['<'] + unescape(s.skip(4))
    } else if s.len() >= 4 && s.take(4) == seq!['&', 'g', 't', ';'] {
        seq!['>'] + unescape(s.skip(4))
    } else {
        seq![s[0]] + unescape(s.skip(1))
    }
}

/// Escaping reads from the front as it is defined from the back.
pub proof fn lemma_escape_front(s: Seq<char>)
    requires
        s.len() > 0,
    ensures
        escape(s) == escape_char(s[0]) + escape(s.drop_first()),
    decreases s.len(),
{
    if s.len() == 1 {
        assert(s.drop_last() =~= Seq::<char>::empty());
        assert(s.drop_first() =~= Seq::<char>::empty());
        assert(escape(s) =~= escape_char(s[0]) + escape(s.drop_first()));
    } else {
        let t = s.drop_last();
        lemma_escape_front(t);
        assert(t.drop_first() =~= s.drop_first().drop_last());
        assert(s.drop_first().last() == s.last());
        assert(escape(s) =~= escape_char(s[0]) + escape(s.drop_first()));
    }
}

/// Escaped text reads back to the text it came from.
pub proof fn lemma_escape_round_trip(s: Seq<char>)
    ensures
        unescape(escape(s)) == s,
    decreases s.len(),
{
    if s.len() > 0 {
        lemma_escape_front(s);
        lemma_escape_round_trip(s.drop_first());
        let e = escape(s);
        let c = s[0];
        let head = escape_char(c);
        let rest = escape(s.drop_first());
        assert(e == head + rest);
        assert(e.skip(head.len() as int) =~= rest);
        if c == '&' {
            assert(e.take(5) =~= head);
        } else if c == '<' {
            assert(e.take(4) =~= head);
            assert(e.len() >= 5 ==> e.take(5)[1] == 'l');
        } else if c == '>' {
            assert(e.take(4) =~= head);
            assert(e.len() >= 5 ==> e.take(5)[1] == 'g');
            assert(e.take(4)[1] == 'g');
        } else {
            assert(e[0] == c);
            assert(e.len() >= 5 ==> e.take(5)[0] == c);
            assert(e.len() >= 4 ==> e.take(4)[0] == c);
            assert(e.skip(1) =~= rest);
        }
        assert(s =~= seq![c] + s.drop_first());
    } else {
        assert(s =~= Seq::<char>::empty());
    }
}

/// `text` with `&`, `<` and `>` replaced by `&amp;`, `&lt;` and `&gt;`, in that order.
pub fn escape_xml(text: &str) -> (r: String)
    ensures
        r@ == escape(text@),
{
    let n = text.unicode_len();
    let mut r = String::new();
    let mut i: usize = 0;
    assert(text@.take(0) =~= Seq::<char>::empty());
    while i < n
        invariant
            n == text@.len(),
            i <= n,
            r@ == escape(text@.take(i as int)),
        decreases n - i,
    {
        let c = text.get_char(i);
        if c == '&' {
            r.append("&amp;");
        } else if c == '<' {
            r.append("&lt;");
        } else if c == '>' {
            r.append("&gt;");
        } else {
            r.append(text.substring_char(i, i + 1));
        }
        proof {
            reveal_strlit("&amp;");
            reveal_strlit("&lt;");
            reveal_strlit("&gt;");
            assert(text@.take(i + 1).drop_last() =~= text@.take(i as int));
            assert(text@.subrange(i as int, i + 1) =~= seq![c]);
            assert(escape_char(c) =~= (if c == '&' {
                "&amp;"@
            } else if c == '<' {
                "&lt;"@
            } else if c == '>' {
                "&gt;"@
            } else {
                seq![c]
            }));
        }
        i += 1;
    }
    assert(text@.take(n as int) =~= text@);
    r
}

/// A gathered file: its path and what it holds.
pub struct FileText {
    pub path: String,
    pub content: String,
}

/// Each line followed by a line break.
pub open spec fn lines_text(lines: Seq<Seq<char>>) -> Seq<char>
    decreases lines.len(),
{
    if lines.len() == 0 {
        Seq::empty()
    } else {
        lines_text(lines.drop_last()) + lines.last() + seq!['\n']
    }
}

/// The lines of a tree, where one was asked for.
pub open spec fn tree_view(tree: Option<Vec<String>>) -> Option<Seq<Seq<char>>> {
    match tree {
        Some(v) => Some(views(v@)),
        None => None,
    }
}

/// Plain text: each file's content followed by a line break, in order.
pub open spec fn plain_files(files: Seq<FileText>) -> Seq<char>
    decreases files.len(),
{
    if files.len() == 0 {
        Seq::empty()
    } else {
        plain_files(files.drop_last()) + files.last().content@ + seq!['\n']
    }
}

/// The element for one file: its path as an attribute, its escaped content in a literal block.
pub open spec fn file_element(path: Seq<char>, content: Seq<char>) -> Seq<char> {
    "<file path=\""@ + path + "\"><![CDATA["@ + escape(content) + "]]></file>"@
}

/// The elements of the files, one per line, in order.
pub open spec fn xml_files(files: Seq<FileText>) -> Seq<char>
    decreases files.len(),
{
    if files.len() == 0 {
        Seq::empty()
    } else {
        xml_files(files.drop_last()) + file_element(files.last().path@, files.last().content@)
            + seq!['\n']
    }
}

/// The plain-text document: the files, then the tree's lines as they are.
pub open spec fn plain_document(files: Seq<FileText>, tree: Option<Seq<Seq<char>>>) -> Seq<char> {
    plain_files(files) + match tree {
        Some(lines) => lines_text(lines),
        None => Seq::empty(),
    }
}

/// The structured document: the file elements inside `<files>`, then the
/// escaped tree inside `<tree>`.
pub open spec fn xml_document(files: Seq<FileText>, tree: Option<Seq<Seq<char>>>) -> Seq<char> {
    "<files>\n"@ + xml_files(files) + match tree {
        Some(lines) => "<tree>\n"@ + escape(lines_text(lines)) + "\n</tree>\n"@,
        None => Seq::empty(),
    } + "</files>\n"@
}

/// The document for `files` and, where given, the tree's lines.
pub open spec fn document(files: Seq<FileText>, tree: Option<Seq<Seq<char>>>, plain: bool) -> Seq<char> {
    if plain {
        plain_document(files, tree)
    } else {
        xml_document(files, tree)
    }
}

/// Appends each line of `lines` and a line break after it.
fn append_lines(r: &mut String, lines: &Vec<String>)
    ensures
        final(r)@ == old(r)@ + lines_text(views(lines@)),
{
    let ghost start = r@;
    let mut i: usize = 0;
    assert(views(lines@).take(0) =~= Seq::<Seq<char>>::empty());
    assert(r@ =~= start + lines_text(views(lines@).take(0)));
    while i < lines.len()
        invariant
            i <= lines@.len(),
            r@ == start + lines_text(views(lines@).take(i as int)),
        decreases lines@.len() - i,
    {
        r.append(lines[i].as_str());
        r.append("\n");
        proof {
            reveal_strlit("\n");
            let v = views(lines@);
            assert(v.take(i + 1).drop_last() =~= v.take(i as int));
            assert(v.take(i + 1).last() == lines@[i as int]@);
            assert(r@ =~= start + lines_text(v.take(i + 1)));
        }
        i += 1;
    }
    assert(views(lines@).take(lines@.len() as int) =~= views(lines@));
}

/// The element for one file: `<file path="...">` with the content, escaped,
/// in a CDATA block.
pub fn file_element_text(path: &str, content: &str) -> (r: String)
    ensures
        r@ == file_element(path@, content@),
{
    let mut r = String::new();
    r.append("<file path=\"");
    r.append(path);
    r.append("\"><![CDATA[");
    let e = escape_xml(content);
    r.append(e.as_str());
    r.append("]]></file>");
    proof {
        assert(r@ =~= file_element(path@, content@));
    }
    r
}

/// The whole output for `files`, in order, and the tree's lines where a tree
/// was asked for: plain text, or the structured form.
pub fn render_document(files: &Vec<FileText>, tree: &Option<Vec<String>>, plain: bool) -> (r: String)
    ensures
        r@ == document(files@, tree_view(*tree), plain),
{
    let mut r = String::new();
    if !plain {
        r.append("<files>\n");
    }
    let ghost start = r@;
    let mut i: usize = 0;
    assert(files@.take(0) =~= Seq::<FileText>::empty());
    assert(r@ =~= start + (if plain { plain_files(files@.take(0)) } else { xml_files(files@.take(0)) }));
    while i < files.len()
        invariant
            i <= files@.len(),
            r@ == start + (if plain { plain_files(files@.take(i as int)) } else { xml_files(files@.take(i as int)) }),
        decreases files@.len() - i,
    {
        let f = &files[i];
        if plain {
            r.append(f.content.as_str());
        } else {
            let e = file_element_text(f.path.as_str(), f.content.as_str());
            r.append(e.as_str());
        }
        r.append("\n");
        proof {
            reveal_strlit("\n");
            assert(files@.take(i + 1).drop_last() =~= files@.take(i as int));
            assert(files@.take(i + 1).last() == files@[i as int]);
            if plain {
                assert(r@ =~= start + plain_files(files@.take(i + 1)));
            } else {
                assert(r@ =~= start + xml_files(files@.take(i + 1)));
            }
        }
        i += 1;
    }
    assert(files@.take(files@.len() as int) =~= files@);
    let ghost body = r@;
    match tree {
        Some(lines) => {
            if plain {
                append_lines(&mut r, lines);
            } else {
                let mut t = String::new();
                append_lines(&mut t, lines);
                let e = escape_xml(t.as_str());
                r.append("<tree>\n");
                r.append(e.as_str());
                r.append("\n</tree>\n");
            }
        },
        None => {},
    }
    if !plain {
        r.append("</files>\n");
    }
    proof {
        if plain {
            assert(r@ =~= document(files@, tree_view(*tree), plain));
        } else {
            assert(r@ =~= document(files@, tree_view(*tree), plain));
        }
    }
    r
}

/// Escaped text holds no `<` and no `>`.
pub proof fn lemma_escape_no_brackets(s: Seq<char>)
    ensures
        forall|i: int| 0 <= i < escape(s).len() ==> escape(s)[i] != '<' && escape(s)[i] != '>',
    decreases s.len(),
{
    if s.len() > 0 {
        lemma_escape_no_brackets(s.drop_last());
        let a = escape(s.drop_last());
        let b = escape_char(s.last());
        assert forall|i: int| 0 <= i < escape(s).len() implies escape(s)[i] != '<' && escape(s)[i]
            != '>' by {
            if i >= a.len() {
                assert(escape(s)[i] == b[i - a.len()]);
            } else {
                assert(escape(s)[i] == a[i]);
            }
        }
    }
}

/// The plain text of the files one after the other is the plain text of the
/// first ones followed by that of the rest.
pub proof fn lemma_plain_files_concat(a: Seq<FileText>, b: Seq<FileText>)
    ensures
        plain_files(a + b) == plain_files(a) + plain_files(b),
    decreases b.len(),
{
    if b.len() == 0 {
        assert(a + b =~= a);
        assert(plain_files(a) + plain_files(b) =~= plain_files(a));
    } else {
        lemma_plain_files_concat(a, b.drop_last());
        assert((a + b).drop_last() =~= a + b.drop_last());
        assert((a + b).last() == b.last());
        assert(plain_files(a + b) =~= plain_files(a) + plain_files(b));
    }
}

/// Plain text without a tree is each file's content followed by a line break,
/// the files one after the other in order.
pub proof fn lemma_plain_document(files: Seq<FileText>, f: FileText)
    ensures
        plain_document(seq![f], None) == f.content@ + seq!['\n'],
        plain_document(files.push(f), None) == plain_document(files, None) + f.content@ + seq!['\n'],
{
    let one = seq![f];
    assert(one.drop_last() =~= Seq::<FileText>::empty());
    assert(plain_files(one.drop_last()) == Seq::<char>::empty());
    assert(plain_files(one) =~= f.content@ + seq!['\n']);
    assert(plain_document(one, None) =~= f.content@ + seq!['\n']);
    lemma_plain_files_concat(files, one);
    assert(files + one =~= files.push(f));
    assert(plain_document(files.push(f), None) =~= plain_document(files, None) + f.content@ + seq!['\n']);
}

} // verus!
