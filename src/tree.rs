//! The directory tree listing: siblings in lexicographic order, one indented line per entry.
use vstd::prelude::*;
use vstd::string::*;
use vstd::seq_lib::{to_multiset_build, to_multiset_contains, to_multiset_insert, to_multiset_remove};
use crate::text::{chars_of, views};

verus! {

/// `a` comes strictly before `b`: compared character by character, by code point, with a proper prefix first.
pub open spec fn lex_lt(a: Seq<char>, b: Seq<char>) -> bool
    decreases a.len(),
{
    if a.len() == 0 {
        b.len() > 0
    } else if b.len() == 0 {
        false
    } else if a[0] != b[0] {
        a[0] < b[0]
    } else {
        lex_lt(a.drop_first(), b.drop_first())
    }
}

pub open spec fn lex_le(a: Seq<char>, b: Seq<char>) -> bool {
    a == b || lex_lt(a, b)
}

/// Every name comes no later than the ones after it.
pub open spec fn sorted(s: Seq<Seq<char>>) -> bool {
    forall|i: int, j: int| 0 <= i < j < s.len() ==> lex_le(#[trigger] s[i], #[trigger] s[j])
}

/// Two names that are not in order one way are in order the other way.
pub proof fn lemma_lex_total(a: Seq<char>, b: Seq<char>)
    ensures
        !lex_lt(a, b) ==> lex_le(b, a),
    decreases a.len(),
{
    if a.len() == 0 {
        if b.len() == 0 {
            assert(a =~= b);
        }
    } else if b.len() == 0 {
    } else if a[0] != b[0] {
    } else {
        lemma_lex_total(a.drop_first(), b.drop_first());
        if a.drop_first() == b.drop_first() {
            assert(a =~= seq![a[0]] + a.drop_first());
            assert(b =~= seq![b[0]] + b.drop_first());
        }
    }
}

/// The order is transitive.
pub proof fn lemma_lex_trans(a: Seq<char>, b: Seq<char>, c: Seq<char>)
    requires
        lex_lt(a, b),
        lex_lt(b, c),
    ensures
        lex_lt(a, c),
    decreases a.len(),
{
    if a.len() > 0 && b.len() > 0 && c.len() > 0 {
        if a[0] == b[0] && b[0] == c[0] {
            lemma_lex_trans(a.drop_first(), b.drop_first(), c.drop_first());
        }
    }
}

/// A name never comes strictly before itself, and two names are never each
/// strictly before the other.
pub proof fn lemma_lex_asym(a: Seq<char>, b: Seq<char>)
    requires
        lex_lt(a, b),
    ensures
        a != b,
        !lex_lt(b, a),
    decreases a.len(),
{
    if a.len() > 0 && b.len() > 0 && a[0] == b[0] {
        lemma_lex_asym(a.drop_first(), b.drop_first());
        if a == b {
            assert(a.drop_first() == b.drop_first());
        }
    }
}

/// Two sorted lists of the same names are the same list: the order in which
/// the names were given does not matter.
pub proof fn lemma_sorted_unique(a: Seq<Seq<char>>, b: Seq<Seq<char>>)
    requires
        sorted(a),
        sorted(b),
        a.to_multiset() == b.to_multiset(),
    ensures
        a == b,
    decreases a.len(),
{
    vstd::seq_lib::to_multiset_len(a);
    vstd::seq_lib::to_multiset_len(b);
    if a.len() == 0 {
        assert(a =~= b);
    } else {
        to_multiset_contains(a, a[0]);
        to_multiset_contains(b, a[0]);
        assert(a.contains(a[0]));
        assert(b.contains(a[0]));
        let j = choose|j: int| 0 <= j < b.len() && b[j] == a[0];
        to_multiset_contains(a, b[0]);
        to_multiset_contains(b, b[0]);
        assert(b.contains(b[0]));
        assert(a.contains(b[0]));
        let k = choose|k: int| 0 <= k < a.len() && a[k] == b[0];
        if j > 0 {
            assert(lex_le(b[0], b[j]));
        }
        if k > 0 {
            assert(lex_le(a[0], a[k]));
        }
        if a[0] != b[0] {
            lemma_lex_asym(b[0], a[0]);
        }
        to_multiset_remove(a, 0);
        to_multiset_remove(b, 0);
        assert(a.remove(0) =~= a.drop_first());
        assert(b.remove(0) =~= b.drop_first());
        lemma_sorted_unique(a.drop_first(), b.drop_first());
        assert(a[0] == b[0]);
        assert(a =~= seq![a[0]] + a.drop_first());
        assert(b =~= seq![b[0]] + b.drop_first());
    }
}

/// Sorted names that are all different stand in strictly increasing order.
pub proof fn lemma_sorted_distinct(s: Seq<Seq<char>>, names: Seq<Seq<char>>)
    requires
        sorted(s),
        s.to_multiset() == names.to_multiset(),
        names.no_duplicates(),
    ensures
        forall|i: int, j: int| 0 <= i < j < s.len() ==> lex_lt(#[trigger] s[i], #[trigger] s[j]),
{
    names.lemma_multiset_has_no_duplicates();
    s.lemma_multiset_has_no_duplicates_conv();
    assert forall|i: int, j: int| 0 <= i < j < s.len() implies lex_lt(#[trigger] s[i], #[trigger] s[j]) by {
        assert(lex_le(s[i], s[j]));
    }
}

/// Whether `a` comes strictly before `b`.
pub fn lex_less(a: &Vec<char>, b: &Vec<char>) -> (r: bool)
    ensures
        r == lex_lt(a@, b@),
{
    let mut i: usize = 0;
    assert(a@.skip(0) =~= a@);
    assert(b@.skip(0) =~= b@);
    while i < a.len() && i < b.len()
        invariant
            i <= a@.len(),
            i <= b@.len(),
            lex_lt(a@, b@) == lex_lt(a@.skip(i as int), b@.skip(i as int)),
        decreases a@.len() - i,
    {
        assert(a@.skip(i as int)[0] == a@[i as int]);
        assert(b@.skip(i as int)[0] == b@[i as int]);
        if a[i] != b[i] {
            return a[i] < b[i];
        }
        assert(a@.skip(i as int).drop_first() =~= a@.skip(i + 1));
        assert(b@.skip(i as int).drop_first() =~= b@.skip(i + 1));
        i += 1;
    }
    i == a.len() && i < b.len()
}

/// `names` in lexicographic order.
pub fn sort_names(names: &Vec<String>) -> (r: Vec<String>)
    ensures
        sorted(views(r@)),
        views(r@).to_multiset() == views(names@).to_multiset(),
{
    let mut r: Vec<String> = Vec::new();
    let mut i: usize = 0;
    assert(views(names@).take(0) =~= Seq::<Seq<char>>::empty());
    assert(views(r@) =~= Seq::<Seq<char>>::empty());
    while i < names.len()
        invariant
            i <= names@.len(),
            r@.len() == i,
            sorted(views(r@)),
            views(r@).to_multiset() == views(names@).take(i as int).to_multiset(),
        decreases names@.len() - i,
    {
        let x = chars_of(names[i].as_str());
        let mut k: usize = 0;
        while k < r.len() && !lex_less(&x, &chars_of(r[k].as_str()))
            invariant
                k <= r@.len(),
                forall|j: int| 0 <= j < k ==> !lex_lt(x@, #[trigger] views(r@)[j]),
            decreases r@.len() - k,
        {
            k += 1;
        }
        let ghost old_r = views(r@);
        r.insert(k, names[i].clone());
        proof {
            let v = views(r@);
            assert(v =~= old_r.insert(k as int, x@));
            assert forall|p: int, q: int| 0 <= p < q < v.len() implies lex_le(#[trigger] v[p], #[trigger] v[q]) by {
                if q < k {
                    assert(v[p] == old_r[p] && v[q] == old_r[q]);
                } else if p > k {
                    assert(v[p] == old_r[p - 1] && v[q] == old_r[q - 1]);
                } else if p == k {
                    // x comes before the name that was at k, which comes no later than the rest
                    assert(lex_lt(x@, old_r[k as int]));
                    if q > k + 1 {
                        assert(lex_le(old_r[k as int], old_r[q - 1]));
                        if old_r[k as int] != old_r[q - 1] {
                            lemma_lex_trans(x@, old_r[k as int], old_r[q - 1]);
                        }
                    }
                } else if q == k {
                    lemma_lex_total(x@, old_r[p]);
                } else {
                    assert(v[p] == old_r[p] && v[q] == old_r[q - 1]);
                }
            }
            let nv = views(names@);
            assert(nv.take(i + 1) =~= nv.take(i as int).push(x@));
            to_multiset_insert(old_r, k as int, x@);
            to_multiset_build(nv.take(i as int), x@);
        }
        i += 1;
    }
    assert(views(names@).take(names@.len() as int) =~= views(names@));
    r
}

/// One entry of a tree listing: its name and how deep below the root it stands.
pub struct TreeEntry {
    pub depth: usize,
    pub name: String,
}

/// Two spaces for each level of depth.
pub open spec fn indent(depth: nat) -> Seq<char>
    decreases depth,
{
    if depth == 0 {
        Seq::empty()
    } else {
        indent((depth - 1) as nat) + seq![' ', ' ']
    }
}

/// The line for one entry: its name, indented by its depth.
pub open spec fn entry_line(e: TreeEntry) -> Seq<char> {
    indent(e.depth as nat) + e.name@
}

/// The lines of a listing: a header, then one line per entry, in order.
pub open spec fn listing_lines(entries: Seq<TreeEntry>) -> Seq<Seq<char>> {
    seq!["Directory tree:"@] + entries.map_values(|e: TreeEntry| entry_line(e))
}

/// The line for one entry: its name after two spaces per level of depth.
pub fn tree_line(e: &TreeEntry) -> (r: String)
    ensures
        r@ == entry_line(*e),
{
    let mut r = String::new();
    let mut d: usize = 0;
    while d < e.depth
        invariant
            d <= e.depth,
            r@ == indent(d as nat),
        decreases e.depth - d,
    {
        r.append("  ");
        proof {
            reveal_strlit("  ");
            assert(r@ =~= indent((d + 1) as nat));
        }
        d += 1;
    }
    r.append(e.name.as_str());
    r
}

/// The lines of the listing: the header `Directory tree:`, then one line per
/// entry in the order given.
pub fn tree_lines(entries: &Vec<TreeEntry>) -> (r: Vec<String>)
    ensures
        views(r@) == listing_lines(entries@),
{
    let mut r: Vec<String> = Vec::new();
    r.push(String::from_str("Directory tree:"));
    let mut i: usize = 0;
    let ghost head = seq!["Directory tree:"@];
    assert(views(r@) =~= head + entries@.take(0).map_values(|e: TreeEntry| entry_line(e)));
    while i < entries.len()
        invariant
            i <= entries@.len(),
            views(r@) == head + entries@.take(i as int).map_values(|e: TreeEntry| entry_line(e)),
        decreases entries@.len() - i,
    {
        let line = tree_line(&entries[i]);
        let ghost prev = r@;
        r.push(line);
        assert(views(r@) =~= views(prev).push(entry_line(entries@[i as int])));
        assert(entries@.take(i + 1).map_values(|e: TreeEntry| entry_line(e)) =~= entries@.take(
            i as int,
        ).map_values(|e: TreeEntry| entry_line(e)).push(entry_line(entries@[i as int])));
        assert(views(r@) =~= head + entries@.take(i + 1).map_values(|e: TreeEntry| entry_line(e)));
        i += 1;
    }
    assert(entries@.take(entries@.len() as int) =~= entries@);
    r
}

} // verus!
