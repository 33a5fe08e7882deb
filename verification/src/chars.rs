//! Splitting character sequences at a separator, as `str::split_once`,
//! `str::split` and their relatives do, with exact contracts.

use vstd::prelude::*;
use crate::text::prefix_at;

verus! {

/// `k` is the first position of `c` in `s`.
pub open spec fn is_first(s: Seq<char>, c: char, k: int) -> bool {
    0 <= k < s.len() && s[k] == c && forall|j: int| 0 <= j < k ==> s[j] != c
}

/// The first position of `c` in `s`, if any.
pub open spec fn first_pos(s: Seq<char>, c: char) -> Option<int> {
    if exists|k: int| is_first(s, c, k) {
        Some(choose|k: int| is_first(s, c, k))
    } else {
        None
    }
}

/// `k` is the last position of `c` in `s`.
pub open spec fn is_last(s: Seq<char>, c: char, k: int) -> bool {
    0 <= k < s.len() && s[k] == c && forall|j: int| k < j < s.len() ==> s[j] != c
}

/// The last position of `c` in `s`, if any.
pub open spec fn last_pos(s: Seq<char>, c: char) -> Option<int> {
    if exists|k: int| is_last(s, c, k) {
        Some(choose|k: int| is_last(s, c, k))
    } else {
        None
    }
}

/// What the first-position search gives: a first position, or no
/// occurrence at all.
pub proof fn lemma_first_pos(s: Seq<char>, c: char)
    ensures
        first_pos(s, c) matches Some(k) ==> is_first(s, c, k),
        first_pos(s, c) is None ==> forall|j: int| 0 <= j < s.len() ==> s[j] != c,
{
    if first_pos(s, c) is None {
        assert forall|j: int| 0 <= j < s.len() implies s[j] != c by {
            if s[j] == c {
                let k = least_occurrence(s, c, j);
                assert(is_first(s, c, k));
            }
        }
    }
}

proof fn least_occurrence(s: Seq<char>, c: char, j: int) -> (k: int)
    requires
        0 <= j < s.len(),
        s[j] == c,
    ensures
        is_first(s, c, k),
    decreases j,
{
    if exists|i: int| 0 <= i < j && s[i] == c {
        let i = choose|i: int| 0 <= i < j && s[i] == c;
        least_occurrence(s, c, i)
    } else {
        j
    }
}

pub proof fn lemma_first_unique(s: Seq<char>, c: char, k: int)
    requires
        is_first(s, c, k),
    ensures
        first_pos(s, c) == Some(k),
{
    let k2 = choose|i: int| is_first(s, c, i);
    assert(is_first(s, c, k2));
    if k2 < k {
        assert(s[k2] != c);
    }
    if k < k2 {
        assert(s[k] != c);
    }
}

proof fn lemma_last_unique(s: Seq<char>, c: char, k: int)
    requires
        is_last(s, c, k),
    ensures
        last_pos(s, c) == Some(k),
{
    let k2 = choose|i: int| is_last(s, c, i);
    assert(is_last(s, c, k2));
    if k2 < k {
        assert(s[k] != c);
    }
    if k < k2 {
        assert(s[k2] != c);
    }
}

/// `s.split_once(c)`.
pub open spec fn split_once(s: Seq<char>, c: char) -> Option<(Seq<char>, Seq<char>)> {
    match first_pos(s, c) {
        Some(k) => Some((s.take(k), s.skip(k + 1))),
        None => None,
    }
}

/// `s.split(c).next()`: the text before the first `c`, or all of it.
pub open spec fn before_first(s: Seq<char>, c: char) -> Seq<char> {
    match first_pos(s, c) {
        Some(k) => s.take(k),
        None => s,
    }
}

/// `s.split(c).next_back()`: the text after the last `c`, or all of it.
pub open spec fn after_last(s: Seq<char>, c: char) -> Seq<char> {
    match last_pos(s, c) {
        Some(k) => s.skip(k + 1),
        None => s,
    }
}

/// `s.split(c)`: every piece between separators, empty ones included.
pub open spec fn split_all(s: Seq<char>, c: char) -> Seq<Seq<char>>
    decreases s.len(),
{
    match first_pos(s, c) {
        Some(k) => {
            proof {
                lemma_first_pos(s, c);
            }
            seq![s.take(k)] + split_all(s.skip(k + 1), c)
        },
        None => seq![s],
    }
}

/// Whether `c` occurs in `s`.
pub open spec fn has_char(s: Seq<char>, c: char) -> bool {
    exists|i: int| 0 <= i < s.len() && s[i] == c
}

/// The characters of each piece.
pub open spec fn piece_views(v: Seq<Vec<char>>) -> Seq<Seq<char>> {
    v.map_values(|p: Vec<char>| p@)
}

/// The first position of `c` in `v[lo..]`, counted from `lo`.
pub fn find_char_from(v: &Vec<char>, lo: usize, c: char) -> (r: Option<usize>)
    requires
        lo <= v.len(),
    ensures
        match r {
            Some(k) => lo <= k < v.len() && first_pos(v@.skip(lo as int), c) == Some(k - lo),
            None => first_pos(v@.skip(lo as int), c) is None,
        },
{
    let ghost s = v@.skip(lo as int);
    let mut i = lo;
    while i < v.len()
        invariant
            lo <= i <= v.len(),
            s == v@.skip(lo as int),
            forall|j: int| 0 <= j < i - lo ==> s[j] != c,
        decreases v.len() - i,
    {
        if v[i] == c {
            proof {
                assert(is_first(s, c, i - lo));
                lemma_first_unique(s, c, i - lo);
            }
            return Some(i);
        }
        i = i + 1;
    }
    proof {
        lemma_first_pos(s, c);
        if first_pos(s, c) is Some {
            let k = first_pos(s, c)->0;
            assert(s[k] != c);
        }
    }
    None
}

/// The first position of `c` in `v`.
pub fn find_char(v: &Vec<char>, c: char) -> (r: Option<usize>)
    ensures
        match r {
            Some(k) => k < v.len() && first_pos(v@, c) == Some(k as int),
            None => first_pos(v@, c) is None,
        },
{
    assert(v@.skip(0) =~= v@);
    find_char_from(v, 0, c)
}

/// The last position of `c` in `v`.
pub fn find_last_char(v: &Vec<char>, c: char) -> (r: Option<usize>)
    ensures
        match r {
            Some(k) => k < v.len() && last_pos(v@, c) == Some(k as int),
            None => last_pos(v@, c) is None,
        },
{
    let mut i = v.len();
    while i > 0
        invariant
            i <= v.len(),
            forall|j: int| i <= j < v.len() ==> v@[j] != c,
        decreases i,
    {
        if v[i - 1] == c {
            proof {
                assert(is_last(v@, c, i - 1));
                lemma_last_unique(v@, c, i - 1);
            }
            return Some(i - 1);
        }
        i = i - 1;
    }
    proof {
        if last_pos(v@, c) is Some {
            let k = choose|k: int| is_last(v@, c, k);
            assert(is_last(v@, c, k));
        }
    }
    None
}

/// `v[lo..hi]`.
pub fn slice(v: &Vec<char>, lo: usize, hi: usize) -> (r: Vec<char>)
    requires
        lo <= hi <= v.len(),
    ensures
        r@ == v@.subrange(lo as int, hi as int),
{
    let mut r: Vec<char> = Vec::new();
    let mut i = lo;
    while i < hi
        invariant
            lo <= i <= hi <= v.len(),
            r@ == v@.subrange(lo as int, i as int),
        decreases hi - i,
    {
        r.push(v[i]);
        i = i + 1;
        assert(r@ =~= v@.subrange(lo as int, i as int));
    }
    r
}

/// `s.split_once(c)` on characters.
pub fn split_once_char(v: &Vec<char>, c: char) -> (r: Option<(Vec<char>, Vec<char>)>)
    ensures
        match r {
            Some((a, b)) => split_once(v@, c) == Some((a@, b@)),
            None => split_once(v@, c) is None,
        },
{
    match find_char(v, c) {
        Some(k) => {
            let a = slice(v, 0, k);
            let b = slice(v, k + 1, v.len());
            assert(a@ =~= v@.take(k as int));
            assert(b@ =~= v@.skip(k + 1));
            Some((a, b))
        },
        None => None,
    }
}

/// `s.split(c).next()` on characters.
pub fn before_first_char(v: &Vec<char>, c: char) -> (r: Vec<char>)
    ensures
        r@ == before_first(v@, c),
{
    match find_char(v, c) {
        Some(k) => {
            let a = slice(v, 0, k);
            assert(a@ =~= v@.take(k as int));
            a
        },
        None => slice(v, 0, v.len()),
    }
}

/// `s.split(c).next_back()` on characters.
pub fn after_last_char(v: &Vec<char>, c: char) -> (r: Vec<char>)
    ensures
        r@ == after_last(v@, c),
{
    match find_last_char(v, c) {
        Some(k) => {
            let b = slice(v, k + 1, v.len());
            assert(b@ =~= v@.skip(k + 1));
            b
        },
        None => slice(v, 0, v.len()),
    }
}

/// Whether `c` occurs in `v`.
pub fn contains_char(v: &Vec<char>, c: char) -> (r: bool)
    ensures
        r == has_char(v@, c),
{
    let r = find_char(v, c);
    proof {
        lemma_first_pos(v@, c);
    }
    r.is_some()
}

/// `s.split(c)` on characters: every piece, empty ones included.
pub fn split_all_char(v: &Vec<char>, c: char) -> (r: Vec<Vec<char>>)
    ensures
        piece_views(r@) == split_all(v@, c),
{
    let mut out: Vec<Vec<char>> = Vec::new();
    let mut lo: usize = 0;
    assert(v@.skip(0) =~= v@);
    assert(piece_views(out@) =~= Seq::<Seq<char>>::empty());
    assert(split_all(v@, c) =~= piece_views(out@) + split_all(v@.skip(0), c));
    loop
        invariant
            lo <= v.len(),
            split_all(v@, c) == piece_views(out@) + split_all(v@.skip(lo as int), c),
        decreases v.len() - lo,
    {
        let ghost rest = v@.skip(lo as int);
        match find_char_from(v, lo, c) {
            Some(k) => {
                let piece = slice(v, lo, k);
                proof {
                    lemma_first_pos(rest, c);
                    assert(piece@ =~= rest.take(k - lo));
                    assert(rest.skip(k - lo + 1) =~= v@.skip(k + 1));
                    assert(split_all(rest, c) == seq![rest.take(k - lo)] + split_all(
                        rest.skip(k - lo + 1),
                        c,
                    ));
                }
                let ghost before = out@;
                out.push(piece);
                proof {
                    assert(piece_views(out@) =~= piece_views(before) + seq![piece@]);
                    assert(piece_views(out@) + split_all(v@.skip(k + 1), c) =~= piece_views(before)
                        + split_all(rest, c));
                }
                lo = k + 1;
            },
            None => {
                let piece = slice(v, lo, v.len());
                let ghost before = out@;
                out.push(piece);
                proof {
                    assert(piece@ =~= rest);
                    assert(split_all(rest, c) == seq![rest]);
                    assert(piece_views(out@) =~= piece_views(before) + seq![piece@]);
                }
                return out;
            },
        }
    }
}

/// `p` occurs at `k` in `s`.
pub open spec fn sub_at(s: Seq<char>, p: Seq<char>, k: int) -> bool {
    0 <= k && k + p.len() <= s.len() && s.subrange(k, k + p.len()) == p
}

/// `k` is the first occurrence of `p` in `s`.
pub open spec fn is_first_sub(s: Seq<char>, p: Seq<char>, k: int) -> bool {
    sub_at(s, p, k) && forall|j: int| 0 <= j < k ==> !sub_at(s, p, j)
}

/// The first occurrence of `p` in `s`, if any.
pub open spec fn first_sub(s: Seq<char>, p: Seq<char>) -> Option<int> {
    if exists|k: int| is_first_sub(s, p, k) {
        Some(choose|k: int| is_first_sub(s, p, k))
    } else {
        None
    }
}


pub fn find_sub(s: &Vec<char>, p: &Vec<char>) -> (r: Option<usize>)
    ensures
        match r {
            Some(k) => first_sub(s@, p@) == Some(k as int) && k + p.len() <= s.len(),
            None => first_sub(s@, p@) is None,
        },
{
    let mut i: usize = 0;
    loop
        invariant
            i <= s.len(),
            forall|j: int| 0 <= j < i ==> !sub_at(s@, p@, j),
        decreases s.len() - i,
    {
        if prefix_at(s, i, p) {
            proof {
                assert(s@.subrange(i as int, s.len() as int).subrange(0, p.len() as int)
                    =~= s@.subrange(i as int, i + p.len()));
                assert(is_first_sub(s@, p@, i as int));
                let k = choose|k: int| is_first_sub(s@, p@, k);
                assert(is_first_sub(s@, p@, k));
                if k < i {
                    assert(!sub_at(s@, p@, k));
                }
                if i < k {
                    assert(!sub_at(s@, p@, i as int));
                }
            }
            return Some(i);
        }
        proof {
            if sub_at(s@, p@, i as int) {
                assert(s@.subrange(i as int, s.len() as int).subrange(0, p.len() as int)
                    =~= s@.subrange(i as int, i + p.len()));
            }
        }
        if i == s.len() {
            proof {
                if exists|k: int| is_first_sub(s@, p@, k) {
                    let k = choose|k: int| is_first_sub(s@, p@, k);
                    assert(sub_at(s@, p@, k));
                }
            }
            return None;
        }
        i = i + 1;
    }
}

/// Whether `p` occurs somewhere in `s`.
pub open spec fn has_sub(s: Seq<char>, p: Seq<char>) -> bool {
    first_sub(s, p) is Some
}

/// Whether `p` occurs somewhere in `s` (`str::contains`).
pub fn contains_text(s: &str, p: &str) -> (r: bool)
    ensures
        r == has_sub(s@, p@),
{
    let sv = crate::text::chars_of(s);
    let pv = crate::text::chars_of(p);
    find_sub(&sv, &pv).is_some()
}

// ── Lines ──────────────────────────────────────────────────────────────────

/// A line without the `\r` of a `\r\n` ending.
pub open spec fn strip_cr(l: Seq<char>) -> Seq<char> {
    if l.len() > 0 && l.last() == '\r' {
        l.drop_last()
    } else {
        l
    }
}

/// `str::lines`: the text split at `\n`, a `\r` before the `\n` removed,
/// and no empty line after a final `\n`.
pub open spec fn text_lines(s: Seq<char>) -> Seq<Seq<char>> {
    let pieces = split_all(s, '\n');
    let ended = pieces.drop_last().map_values(|l: Seq<char>| strip_cr(l));
    if pieces.last().len() == 0 {
        ended
    } else {
        ended.push(pieces.last())
    }
}

pub proof fn lemma_split_all_nonempty(s: Seq<char>, c: char)
    ensures
        split_all(s, c).len() > 0,
    decreases s.len(),
{
    lemma_first_pos(s, c);
    if first_pos(s, c) is Some {
        let k = first_pos(s, c)->0;
        lemma_split_all_nonempty(s.skip(k + 1), c);
    }
}

pub fn lines_of(s: &Vec<char>) -> (r: Vec<Vec<char>>)
    ensures
        piece_views(r@) == text_lines(s@),
{
    let pieces = split_all_char(s, '\n');
    proof {
        lemma_split_all_nonempty(s@, '\n');
    }
    let ghost pv = piece_views(pieces@);
    let n = pieces.len();
    let mut out: Vec<Vec<char>> = Vec::new();
    let mut i: usize = 0;
    while i + 1 < n
        invariant
            n == pieces.len(),
            n > 0,
            i + 1 <= n,
            pv == piece_views(pieces@),
            piece_views(out@) == pv.drop_last().map_values(|l: Seq<char>| strip_cr(l)).take(
                i as int,
            ),
        decreases n - i,
    {
        let p = &pieces[i];
        let line = if p.len() > 0 && p[p.len() - 1] == '\r' {
            slice(p, 0, p.len() - 1)
        } else {
            slice(p, 0, p.len())
        };
        assert(line@ =~= strip_cr(pv[i as int]));
        let ghost before = piece_views(out@);
        out.push(line);
        assert(piece_views(out@) =~= before.push(line@));
        assert(piece_views(out@) =~= pv.drop_last().map_values(|l: Seq<char>| strip_cr(l)).take(
            i + 1,
        ));
        i = i + 1;
    }
    let ghost ended = pv.drop_last().map_values(|l: Seq<char>| strip_cr(l));
    assert(ended.take(i as int) =~= ended);
    let last = &pieces[n - 1];
    assert(last@ == pv.last());
    if last.len() > 0 {
        let ghost before = piece_views(out@);
        let l2 = slice(last, 0, last.len());
        assert(l2@ =~= last@);
        out.push(l2);
        assert(piece_views(out@) =~= before.push(pv.last()));
    }
    out
}



/// A text without the separator is one piece.
pub proof fn lemma_split_single(a: Seq<char>, c: char)
    requires
        !has_char(a, c),
    ensures
        split_all(a, c) == seq![a],
{
    lemma_first_pos(a, c);
    if first_pos(a, c) is Some {
        let k = first_pos(a, c)->0;
        assert(a[k] == c);
    }
}

/// Splitting `a c b` where `a` holds no `c`: `a`, then the pieces of `b`.
pub proof fn lemma_split_concat(a: Seq<char>, b: Seq<char>, c: char)
    requires
        !has_char(a, c),
    ensures
        split_all(a + seq![c] + b, c) == seq![a] + split_all(b, c),
{
    let s = a + seq![c] + b;
    assert(s[a.len() as int] == c);
    assert forall|j: int| 0 <= j < a.len() implies s[j] != c by {
        assert(s[j] == a[j]);
    }
    assert(is_first(s, c, a.len() as int));
    lemma_first_unique(s, c, a.len() as int);
    lemma_first_pos(s, c);
    assert(s.take(a.len() as int) =~= a);
    assert(s.skip(a.len() as int + 1) =~= b);
}

/// Splitting `k c v` once at `c`, where `k` holds no `c`, gives `k` and `v`.
pub proof fn lemma_split_once_concat(k: Seq<char>, v: Seq<char>, c: char)
    requires
        !has_char(k, c),
    ensures
        split_once(k + seq![c] + v, c) == Some((k, v)),
{
    let s = k + seq![c] + v;
    assert(s[k.len() as int] == c);
    assert forall|j: int| 0 <= j < k.len() implies s[j] != c by {
        assert(s[j] == k[j]);
    }
    lemma_first_unique(s, c, k.len() as int);
    assert(s.take(k.len() as int) =~= k);
    assert(s.skip(k.len() as int + 1) =~= v);
}

} // verus!
