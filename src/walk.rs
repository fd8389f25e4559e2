//! Gathering the selected files from a walk of the roots.
//!
//! The walk itself visits each root in the given order; inside a directory it
//! takes the entries in the order the directory yields them and descends into
//! each subdirectory before the next sibling. What it saw is handed here as a
//! list of entries in visiting order.
use vstd::prelude::*;
use crate::filter::{Options, should_include};
use crate::text::views;

verus! {

/// What a path on disk is.
#[derive(Clone, Copy, Debug, PartialEq, Eq, Structural)]
pub enum EntryKind {
    File,
    Dir,
    /// Neither a regular file nor a directory (a link, a device): never selected or entered.
    Other,
}

/// One path met by the walk, in visiting order.
pub struct WalkEntry {
    pub path: String,
    pub kind: EntryKind,
}

/// The paths of the selected regular files among `entries`, in visiting order.
pub open spec fn gathered(entries: Seq<WalkEntry>, opts: Options) -> Seq<Seq<char>>
    decreases entries.len(),
{
    if entries.len() == 0 {
        Seq::empty()
    } else {
        let prev = gathered(entries.drop_last(), opts);
        let e = entries.last();
        if e.kind == EntryKind::File && opts.selects(e.path@) {
            prev.push(e.path@)
        } else {
            prev
        }
    }
}

/// The paths of the regular files among `entries` that `opts` selects, in
/// visiting order.
pub fn gather_files(entries: &Vec<WalkEntry>, opts: &Options) -> (r: Vec<String>)
    ensures
        views(r@) == gathered(entries@, *opts),
{
    let mut r: Vec<String> = Vec::new();
    let mut i: usize = 0;
    assert(entries@.take(0) =~= Seq::<WalkEntry>::empty());
    assert(views(r@) =~= Seq::<Seq<char>>::empty());
    while i < entries.len()
        invariant
            i <= entries@.len(),
            views(r@) == gathered(entries@.take(i as int), *opts),
        decreases entries@.len() - i,
    {
        let e = &entries[i];
        assert(entries@.take(i + 1).drop_last() =~= entries@.take(i as int));
        assert(entries@.take(i + 1).last() == entries@[i as int]);
        if e.kind == EntryKind::File && should_include(e.path.as_str(), opts) {
            let ghost prev = r@;
            r.push(e.path.clone());
            assert(views(r@) =~= views(prev).push(e.path@));
        }
        i += 1;
    }
    assert(entries@.take(entries@.len() as int) =~= entries@);
    r
}

/// Gathering is a function of what the walk saw and of the options: the same
/// walk gathered twice gives the same files in the same order.
pub proof fn lemma_gather_deterministic(a: Seq<WalkEntry>, b: Seq<WalkEntry>, opts: Options)
    requires
        a == b,
    ensures
        gathered(a, opts) == gathered(b, opts),
{
}

/// A root that is a single regular file gives exactly that file where it is
/// selected, and nothing otherwise.
pub proof fn lemma_gather_single_file(e: WalkEntry, opts: Options)
    requires
        e.kind == EntryKind::File,
    ensures
        opts.selects(e.path@) ==> gathered(seq![e], opts) == seq![e.path@],
        !opts.selects(e.path@) ==> gathered(seq![e], opts) == Seq::<Seq<char>>::empty(),
{
    let s = seq![e];
    assert(s.drop_last() =~= Seq::<WalkEntry>::empty());
    assert(gathered(s.drop_last(), opts) == Seq::<Seq<char>>::empty());
    assert(Seq::<Seq<char>>::empty().push(e.path@) =~= seq![e.path@]);
}

} // verus!
