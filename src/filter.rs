//! Which files are selected: hidden files, extensions, include and exclude patterns.
use vstd::prelude::*;
use crate::pattern::{pattern_matches, matches_pattern};
use crate::text::{chars_of, last_index, last_index_of, same_chars, sub_vec, views};

verus! {

/// How files are selected and how the result is written.
pub struct Options {
    /// Extensions, without the dot, of which a file must have one (none: any file).
    pub exts: Vec<String>,
    /// Patterns of which a path must match one (none: any path).
    pub includes: Vec<String>,
    /// Patterns of which a path may match none.
    pub excludes: Vec<String>,
    /// Whether files whose name starts with `.` are selected.
    pub hidden: bool,
    /// Whether a directory tree is added to the output.
    pub tree: bool,
    /// Whether the output is plain text rather than the structured form.
    pub text: bool,
    /// Where the output goes, if not to the default file.
    pub output: Option<String>,
    /// The roots to gather from.
    pub inputs: Vec<String>,
}

/// The last component of a `/`-separated path.
pub open spec fn base_name(path: Seq<char>) -> Seq<char> {
    path.subrange(last_index_of(path, '/') + 1, path.len() as int)
}

/// The text after the last `.` of a file name, where the name has a `.` at all.
pub open spec fn extension(name: Seq<char>) -> Option<Seq<char>> {
    let k = last_index_of(name, '.');
    if k >= 0 {
        Some(name.subrange(k + 1, name.len() as int))
    } else {
        None
    }
}

pub open spec fn is_hidden(name: Seq<char>) -> bool {
    name.len() > 0 && name[0] == '.'
}

pub open spec fn any_matches(pats: Seq<Seq<char>>, path: Seq<char>) -> bool {
    exists|i: int| 0 <= i < pats.len() && pattern_matches(#[trigger] pats[i], path)
}

/// Whether a file at `path` is selected under the given rules.
pub open spec fn selected(
    path: Seq<char>,
    exts: Seq<Seq<char>>,
    includes: Seq<Seq<char>>,
    excludes: Seq<Seq<char>>,
    hidden: bool,
) -> bool {
    &&& hidden || !is_hidden(base_name(path))
    &&& exts.len() == 0 || (extension(base_name(path)) matches Some(e) && exts.contains(e))
    &&& includes.len() == 0 || any_matches(includes, path)
    &&& !any_matches(excludes, path)
}

impl Options {
    /// Whether a file at `path` is selected under these options.
    pub open spec fn selects(&self, path: Seq<char>) -> bool {
        selected(path, views(self.exts@), views(self.includes@), views(self.excludes@), self.hidden)
    }
}

/// Whether some pattern of `pats` matches `path`.
fn any_pattern_matches(pats: &Vec<String>, path: &str) -> (r: bool)
    ensures
        r == any_matches(views(pats@), path@),
{
    let mut i: usize = 0;
    while i < pats.len()
        invariant
            i <= pats@.len(),
            forall|k: int| 0 <= k < i ==> !pattern_matches(#[trigger] views(pats@)[k], path@),
        decreases pats@.len() - i,
    {
        if matches_pattern(pats[i].as_str(), path) {
            assert(pattern_matches(views(pats@)[i as int], path@));
            return true;
        }
        i += 1;
    }
    false
}

/// Whether `e` is one of `exts`.
fn has_extension(exts: &Vec<String>, e: &Vec<char>) -> (r: bool)
    ensures
        r == views(exts@).contains(e@),
{
    let mut i: usize = 0;
    while i < exts.len()
        invariant
            i <= exts@.len(),
            forall|k: int| 0 <= k < i ==> views(exts@)[k] != e@,
        decreases exts@.len() - i,
    {
        let x = chars_of(exts[i].as_str());
        if same_chars(&x, e) {
            assert(views(exts@)[i as int] == e@);
            return true;
        }
        i += 1;
    }
    false
}

/// Whether the file at `path` is selected: it is not hidden (unless hidden
/// files are wanted), has one of the extensions (if any are given), matches
/// an include pattern (if any are given) and matches no exclude pattern.
pub fn should_include(path: &str, opts: &Options) -> (r: bool)
    ensures
        r == opts.selects(path@),
{
    let p = chars_of(path);
    let pl = p.len();
    let start: usize = match last_index(&p, '/') {
        Some(k) => k + 1,
        None => 0,
    };
    let name = sub_vec(&p, start, pl);
    assert(name@ == base_name(path@));
    if !opts.hidden && name.len() > 0 && name[0] == '.' {
        return false;
    }
    if opts.exts.len() > 0 {
        match last_index(&name, '.') {
            Some(k) => {
                let e = sub_vec(&name, k + 1, name.len());
                if !has_extension(&opts.exts, &e) {
                    return false;
                }
            },
            None => {
                return false;
            },
        }
    }
    if opts.includes.len() > 0 && !any_pattern_matches(&opts.includes, path) {
        return false;
    }
    !any_pattern_matches(&opts.excludes, path)
}

/// A path that an exclude pattern matches is never selected, whatever the
/// include patterns say.
pub proof fn lemma_exclude_wins(
    path: Seq<char>,
    exts: Seq<Seq<char>>,
    includes: Seq<Seq<char>>,
    excludes: Seq<Seq<char>>,
    hidden: bool,
)
    requires
        any_matches(excludes, path),
    ensures
        !selected(path, exts, includes, excludes, hidden),
{
}

/// A hidden file is not selected unless hidden files are wanted.
pub proof fn lemma_hidden_rejected(
    path: Seq<char>,
    exts: Seq<Seq<char>>,
    includes: Seq<Seq<char>>,
    excludes: Seq<Seq<char>>,
)
    requires
        is_hidden(base_name(path)),
    ensures
        !selected(path, exts, includes, excludes, false),
{
}

/// Where extensions are given, a file without an extension is not selected.
pub proof fn lemma_no_extension_rejected(
    path: Seq<char>,
    exts: Seq<Seq<char>>,
    includes: Seq<Seq<char>>,
    excludes: Seq<Seq<char>>,
    hidden: bool,
)
    requires
        exts.len() > 0,
        extension(base_name(path)) is None,
    ensures
        !selected(path, exts, includes, excludes, hidden),
{
}

} // verus!
