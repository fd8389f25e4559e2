//! Wildcard patterns in which `*` stands for any run of characters.
//!
//! Matching is a single left-to-right scan over the literal pieces of the
//! pattern, without backtracking: each piece is matched at its first
//! occurrence after the previous one.
use vstd::prelude::*;
use crate::text::chars_of;

verus! {

/// The pieces of `p` between `*`s, empty ones included; never empty itself.
pub open spec fn split_star(p: Seq<char>) -> Seq<Seq<char>>
    decreases p.len(),
{
    if p.len() == 0 {
        seq![Seq::empty()]
    } else {
        let s = split_star(p.drop_last());
        if p.last() == '*' {
            s.push(Seq::empty())
        } else {
            s.update(s.len() - 1, s.last().push(p.last()))
        }
    }
}

/// `s` stands in `t` at index `i`.
pub open spec fn occurs_at(t: Seq<char>, s: Seq<char>, i: int) -> bool {
    0 <= i && i + s.len() <= t.len() && t.subrange(i, i + s.len()) == s
}

/// The first index at or after `pos` at which `s` stands in `t`.
pub open spec fn find_from(t: Seq<char>, s: Seq<char>, pos: int) -> Option<int>
    decreases t.len() as int - pos,
{
    if pos < 0 || pos > t.len() || pos + s.len() > t.len() {
        None
    } else if occurs_at(t, s, pos) {
        Some(pos)
    } else if pos < t.len() {
        find_from(t, s, pos + 1)
    } else {
        None
    }
}

/// One piece of the scan: from position `pos` (and whether no piece was
/// matched yet), match the piece `seg` at its first occurrence. The first
/// piece of an anchored pattern must start right at `pos`.
pub open spec fn step(st: (int, bool), seg: Seq<char>, t: Seq<char>, anchored: bool) -> Option<(int, bool)> {
    if seg.len() == 0 {
        Some(st)
    } else {
        match find_from(t, seg, st.0) {
            None => None,
            Some(idx) => if st.1 && anchored && idx != st.0 {
                None
            } else {
                Some((idx + seg.len(), false))
            },
        }
    }
}

/// The scan over the pieces `segs` of a pattern: the position reached in `t`
/// and whether no piece was matched yet, or `None` where a piece fails.
pub open spec fn scan(segs: Seq<Seq<char>>, t: Seq<char>, anchored: bool) -> Option<(int, bool)>
    decreases segs.len(),
{
    if segs.len() == 0 {
        Some((0, true))
    } else {
        match scan(segs.drop_last(), t, anchored) {
            None => None,
            Some(st) => step(st, segs.last(), t, anchored),
        }
    }
}

pub open spec fn starts_with_star(p: Seq<char>) -> bool {
    p.len() > 0 && p[0] == '*'
}

pub open spec fn ends_with_star(p: Seq<char>) -> bool {
    p.len() > 0 && p.last() == '*'
}

/// Whether pattern `p` matches text `t`.
pub open spec fn pattern_matches(p: Seq<char>, t: Seq<char>) -> bool {
    if p == seq!['*'] {
        true
    } else {
        match scan(split_star(p), t, !starts_with_star(p)) {
            None => false,
            Some(st) => ends_with_star(p) || st.0 == t.len(),
        }
    }
}

/// Whether `s` stands in `t` at index `i`.
fn occurs_at_exec(t: &Vec<char>, s: &Vec<char>, i: usize) -> (r: bool)
    requires
        i + s@.len() <= t@.len(),
    ensures
        r == occurs_at(t@, s@, i as int),
{
    let tl = t.len();
    let mut j: usize = 0;
    while j < s.len()
        invariant
            tl == t@.len(),
            i + s@.len() <= t@.len(),
            j <= s@.len(),
            forall|k: int| 0 <= k < j ==> t@[i + k] == s@[k],
        decreases s@.len() - j,
    {
        if t[i + j] != s[j] {
            assert(t@.subrange(i as int, i + s@.len())[j as int] != s@[j as int]);
            return false;
        }
        j += 1;
    }
    assert(t@.subrange(i as int, i + s@.len()) =~= s@);
    true
}

/// The first index at or after `pos` at which `s` stands in `t`.
fn find_from_exec(t: &Vec<char>, s: &Vec<char>, pos: usize) -> (r: Option<usize>)
    ensures
        r matches Some(i) ==> find_from(t@, s@, pos as int) == Some(i as int),
        r is None ==> find_from(t@, s@, pos as int) is None,
{
    if s.len() == 0 {
        if pos <= t.len() {
            assert(t@.subrange(pos as int, pos as int) =~= s@);
            return Some(pos);
        }
        return None;
    }
    let tl = t.len();
    let mut i: usize = pos;
    while i < tl && s.len() <= tl - i
        invariant
            tl == t@.len(),
            s@.len() > 0,
            pos <= i,
            find_from(t@, s@, pos as int) == find_from(t@, s@, i as int),
        decreases t@.len() + 1 - i,
    {
        if occurs_at_exec(t, s, i) {
            return Some(i);
        }
        i += 1;
    }
    None
}

/// Whether `text` matches the wildcard `pattern`.
pub fn matches_pattern(pattern: &str, text: &str) -> (r: bool)
    ensures
        r == pattern_matches(pattern@, text@),
{
    let p = chars_of(pattern);
    let t = chars_of(text);
    let tl = t.len();
    if p.len() == 1 && p[0] == '*' {
        assert(p@ =~= seq!['*']);
        return true;
    }
    assert(p@ != seq!['*']);
    let anchored = !(p.len() > 0 && p[0] == '*');
    let mut failed = false;
    let mut pos: usize = 0;
    let mut first = true;
    let mut seg: Vec<char> = Vec::new();
    let ghost mut done: Seq<Seq<char>> = Seq::empty();
    let mut i: usize = 0;
    assert(p@.take(0) =~= Seq::<char>::empty());
    while i < p.len()
        invariant
            i <= p@.len(),
            tl == t@.len(),
            anchored == !starts_with_star(p@),
            split_star(p@.take(i as int)) == done.push(seg@),
            pos <= t@.len(),
            scan(done, t@, anchored) == (if failed { None } else { Some((pos as int, first)) }),
        decreases p@.len() - i,
    {
        let c = p[i];
        assert(p@.take(i + 1).drop_last() =~= p@.take(i as int));
        if c == '*' {
            let ghost prev = done;
            proof {
                done = done.push(seg@);
            }
            assert(done.drop_last() =~= prev);
            if !failed && seg.len() > 0 {
                match find_from_exec(&t, &seg, pos) {
                    None => {
                        failed = true;
                    },
                    Some(idx) => {
                        if first && anchored && idx != pos {
                            failed = true;
                        } else {
                            proof { lemma_find_from_occurs(t@, seg@, pos as int); }
                            pos = idx + seg.len();
                            first = false;
                        }
                    },
                }
            }
            seg = Vec::new();
            assert(split_star(p@.take(i + 1)) =~= done.push(seg@));
        } else {
            seg.push(c);
            assert(split_star(p@.take(i + 1)) =~= done.push(seg@));
        }
        i += 1;
    }
    assert(p@.take(p@.len() as int) =~= p@);
    let ghost all = done.push(seg@);
    assert(all.drop_last() =~= done);
    if !failed && seg.len() > 0 {
        match find_from_exec(&t, &seg, pos) {
            None => {
                failed = true;
            },
            Some(idx) => {
                if first && anchored && idx != pos {
                    failed = true;
                } else {
                    proof { lemma_find_from_occurs(t@, seg@, pos as int); }
                    pos = idx + seg.len();
                    first = false;
                }
            },
        }
    }
    assert(scan(all, t@, anchored) == (if failed { None } else { Some((pos as int, first)) }));
    if failed {
        return false;
    }
    let ends = p.len() > 0 && p[p.len() - 1] == '*';
    ends || pos == t.len()
}

/// Where `find_from` gives an index, the piece stands there, at or after `pos`.
pub proof fn lemma_find_from_occurs(t: Seq<char>, s: Seq<char>, pos: int)
    ensures
        find_from(t, s, pos) matches Some(i) ==> pos <= i && occurs_at(t, s, i),
    decreases t.len() as int - pos,
{
    if pos < 0 || pos > t.len() || pos + s.len() > t.len() {
    } else if occurs_at(t, s, pos) {
    } else if pos < t.len() {
        lemma_find_from_occurs(t, s, pos + 1);
    }
}

/// The pattern `*` alone matches every text, the empty one included.
pub proof fn lemma_star_matches_all(t: Seq<char>)
    ensures
        pattern_matches(seq!['*'], t),
{
}

/// A pattern without `*` is a single piece.
pub proof fn lemma_split_without_star(p: Seq<char>)
    requires
        !p.contains('*'),
    ensures
        split_star(p) == seq![p],
    decreases p.len(),
{
    if p.len() > 0 {
        let q = p.drop_last();
        assert forall|i: int| 0 <= i < q.len() implies q[i] != '*' by {
            assert(q[i] == p[i]);
        }
        assert(p.last() == p[p.len() - 1]);
        lemma_split_without_star(q);
        assert(q.push(p.last()) =~= p);
        assert(split_star(p) =~= seq![p]);
    } else {
        assert(p =~= Seq::<char>::empty());
    }
}

/// A pattern without `*` matches exactly the text equal to it.
pub proof fn lemma_literal_pattern(p: Seq<char>, t: Seq<char>)
    requires
        !p.contains('*'),
    ensures
        pattern_matches(p, t) <==> p == t,
{
    lemma_split_without_star(p);
    assert(p != seq!['*']) by {
        if p == seq!['*'] {
            assert(p[0] == '*');
        }
    }
    assert(!ends_with_star(p)) by {
        if p.len() > 0 {
            assert(p.contains(p[p.len() - 1]));
        }
    }
    assert(!starts_with_star(p)) by {
        if p.len() > 0 {
            assert(p.contains(p[0]));
        }
    }
    let segs = split_star(p);
    assert(segs.drop_last() =~= Seq::<Seq<char>>::empty());
    assert(segs.last() == p);
    assert(scan(segs.drop_last(), t, true) == Some((0int, true)));
    assert(scan(segs, t, true) == step((0int, true), p, t, true));
    if p.len() == 0 {
        if t.len() == 0 {
            assert(p =~= t);
        }
    } else {
        lemma_find_from_occurs(t, p, 0);
        if p == t {
            assert(t.subrange(0, p.len() as int) =~= p);
            assert(occurs_at(t, p, 0));
        }
        if pattern_matches(p, t) {
            assert(find_from(t, p, 0) == Some(0int));
            assert(p.len() == t.len());
            assert(t.subrange(0, p.len() as int) =~= t);
        }
    }
}

} // verus!
