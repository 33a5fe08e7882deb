//! Title evidence for structural grouping: cleaned title tokens, the
//! dash-separated segments of a window title, the recurring trailing
//! segments ("chrome") an application appends to many unrelated titles,
//! and the near-duplicate test between two token sets.

use vstd::prelude::*;
use vstd::utf8::encode_utf8;
use crate::ledger::works::push_all;
use crate::observation::observed_state::lemma_utf8_len_bounds;
use crate::pods::wrapper::{lowercase, lowercased};
use crate::sorting::views;
use crate::chars::{find_sub, first_sub, is_first_sub, piece_views, slice, sub_at};
use crate::sorting::{sort_strings, sorted_texts};
use crate::text::{chars_of, holds_text, join_with, push_new, push_unique, seq_eq, string_of, string_of_range, trim, trim_bounds};

verus! {

broadcast use vstd::seq_lib::group_seq_properties;

/// Whether `char::is_alphanumeric` accepts a character.
pub uninterp spec fn alphanumeric(c: char) -> bool;

/// Whether `char::is_numeric` accepts a character.
pub uninterp spec fn numeric(c: char) -> bool;

/// `char::is_alphanumeric`: the Unicode `Alphabetic` or numeric property.
/// Among ASCII characters exactly the letters and digits have it; beyond
/// ASCII the property tables are left unnamed: the answer is a function of
/// the character.
#[verifier::external_body]
fn is_alnum(c: char) -> (r: bool)
    ensures
        r == alphanumeric(c),
        crate::pods::wrapper::is_ascii_char(c) ==> (r <==> crate::pods::wrapper::ascii_alnum(c)),
{
    c.is_alphanumeric()
}

/// `char::is_numeric`: the Unicode number categories (`Nd`, `Nl`, `No`).
/// Among ASCII characters exactly the digits are in them; beyond ASCII the
/// tables are left unnamed: the answer is a function of the character.
#[verifier::external_body]
fn is_num(c: char) -> (r: bool)
    ensures
        r == numeric(c),
        crate::pods::wrapper::is_ascii_char(c) ==> (r <==> '0' <= c <= '9'),
{
    c.is_numeric()
}

/// Common English function words of three or more letters.
pub open spec fn stopwords() -> Seq<Seq<char>> {
    seq![
        seq!['t', 'h', 'e'],
        seq!['a', 'n', 'd'],
        seq!['f', 'o', 'r'],
        seq!['w', 'i', 't', 'h'],
        seq!['f', 'r', 'o', 'm'],
        seq!['t', 'h', 'a', 't'],
        seq!['t', 'h', 'i', 's'],
        seq!['y', 'o', 'u'],
        seq!['y', 'o', 'u', 'r'],
        seq!['a', 'r', 'e'],
        seq!['n', 'o', 't'],
        seq!['b', 'u', 't'],
        seq!['a', 'l', 'l'],
        seq!['c', 'a', 'n'],
        seq!['h', 'e', 'r'],
        seq!['w', 'a', 's'],
        seq!['o', 'n', 'e'],
        seq!['o', 'u', 'r'],
        seq!['o', 'u', 't'],
        seq!['d', 'a', 'y'],
        seq!['g', 'e', 't'],
        seq!['h', 'a', 's'],
        seq!['h', 'i', 'm'],
        seq!['h', 'i', 's'],
        seq!['h', 'o', 'w'],
        seq!['m', 'a', 'n'],
        seq!['n', 'e', 'w'],
        seq!['n', 'o', 'w'],
        seq!['o', 'l', 'd'],
        seq!['s', 'e', 'e'],
        seq!['t', 'w', 'o'],
        seq!['w', 'a', 'y'],
        seq!['w', 'h', 'o'],
        seq!['i', 't', 's'],
        seq!['d', 'i', 'd'],
        seq!['y', 'e', 's']
    ]
}

/// `s.split(|c| !c.is_alphanumeric())`: the runs between characters that
/// are not alphanumeric, empty runs included.
pub open spec fn alnum_pieces(s: Seq<char>) -> Seq<Seq<char>>
    decreases s.len(),
{
    if s.len() == 0 {
        seq![Seq::<char>::empty()]
    } else {
        let p = alnum_pieces(s.drop_last());
        if alphanumeric(s.last()) {
            p.update(p.len() - 1, p.last().push(s.last()))
        } else {
            p.push(Seq::<char>::empty())
        }
    }
}

/// Every character is numeric.
pub open spec fn all_numeric(t: Seq<char>) -> bool {
    forall|i: int| 0 <= i < t.len() ==> numeric(#[trigger] t[i])
}

/// A piece that carries identity: three or more bytes in UTF-8, not a
/// function word, not a pure number (page numbers and counts).
pub open spec fn token_kept() -> spec_fn(Seq<char>) -> bool {
    |t: Seq<char>| encode_utf8(t).len() >= 3 && !stopwords().contains(t) && !all_numeric(t)
}

/// The distinct elements of `v`, in order of first occurrence.
pub open spec fn distinct(v: Seq<Seq<char>>) -> Seq<Seq<char>> {
    push_all(Seq::empty(), v)
}

/// The cleaned tokens of a title: the identity-carrying alphanumeric
/// runs of its lowercase form, each once.
pub open spec fn title_tokens(title: Seq<char>) -> Seq<Seq<char>> {
    distinct(alnum_pieces(lowercased(title)).filter(token_kept()))
}

proof fn lemma_alnum_pieces_nonempty(s: Seq<char>)
    ensures
        alnum_pieces(s).len() >= 1,
    decreases s.len(),
{
    if s.len() > 0 {
        lemma_alnum_pieces_nonempty(s.drop_last());
    }
}

fn is_stopword(t: &Vec<char>) -> (r: bool)
    ensures
        r == stopwords().contains(t@),
{
    let words: Vec<Vec<char>> = vec![
        vec!['t', 'h', 'e'],
        vec!['a', 'n', 'd'],
        vec!['f', 'o', 'r'],
        vec!['w', 'i', 't', 'h'],
        vec!['f', 'r', 'o', 'm'],
        vec!['t', 'h', 'a', 't'],
        vec!['t', 'h', 'i', 's'],
        vec!['y', 'o', 'u'],
        vec!['y', 'o', 'u', 'r'],
        vec!['a', 'r', 'e'],
        vec!['n', 'o', 't'],
        vec!['b', 'u', 't'],
        vec!['a', 'l', 'l'],
        vec!['c', 'a', 'n'],
        vec!['h', 'e', 'r'],
        vec!['w', 'a', 's'],
        vec!['o', 'n', 'e'],
        vec!['o', 'u', 'r'],
        vec!['o', 'u', 't'],
        vec!['d', 'a', 'y'],
        vec!['g', 'e', 't'],
        vec!['h', 'a', 's'],
        vec!['h', 'i', 'm'],
        vec!['h', 'i', 's'],
        vec!['h', 'o', 'w'],
        vec!['m', 'a', 'n'],
        vec!['n', 'e', 'w'],
        vec!['n', 'o', 'w'],
        vec!['o', 'l', 'd'],
        vec!['s', 'e', 'e'],
        vec!['t', 'w', 'o'],
        vec!['w', 'a', 'y'],
        vec!['w', 'h', 'o'],
        vec!['i', 't', 's'],
        vec!['d', 'i', 'd'],
        vec!['y', 'e', 's']
    ];
    let ghost ws = words@.map_values(|w: Vec<char>| w@);
    assert(ws =~= stopwords());
    let mut i: usize = 0;
    while i < words.len()
        invariant
            i <= words@.len(),
            ws == words@.map_values(|w: Vec<char>| w@),
            ws == stopwords(),
            forall|j: int| 0 <= j < i ==> ws[j] != t@,
        decreases words@.len() - i,
    {
        if seq_eq(&words[i], t) {
            assert(ws[i as int] == t@);
            return true;
        }
        i = i + 1;
    }
    proof {
        if stopwords().contains(t@) {
            let j = choose|j: int| 0 <= j < ws.len() && ws[j] == t@;
            assert(ws[j] != t@);
        }
    }
    false
}

fn is_all_numeric(t: &Vec<char>) -> (r: bool)
    ensures
        r == all_numeric(t@),
{
    let mut i: usize = 0;
    while i < t.len()
        invariant
            i <= t@.len(),
            forall|j: int| 0 <= j < i ==> numeric(#[trigger] t@[j]),
        decreases t@.len() - i,
    {
        if !is_num(t[i]) {
            return false;
        }
        i = i + 1;
    }
    true
}

/// Whether a finished piece carries identity.
fn keeps_token(t: &Vec<char>) -> (r: bool)
    ensures
        r == token_kept()(t@),
{
    proof {
        lemma_utf8_len_bounds(t@);
    }
    let long = if t.len() >= 3 {
        true
    } else {
        let s = string_of(t);
        s.as_str().len() >= 3
    };
    long && !is_stopword(t) && !is_all_numeric(t)
}

/// The cleaned tokens of a title: lowercase words of three or more bytes,
/// function words and pure numbers left out, each once.
pub fn title_tokens_of(title: &str) -> (r: Vec<String>)
    ensures
        views(r@) == title_tokens(title@),
{
    let lower = lowercase(title);
    let s = chars_of(lower.as_str());
    let ghost ls = lowercased(title@);
    let mut out: Vec<String> = Vec::new();
    let mut cur: Vec<char> = Vec::new();
    let mut i: usize = 0;
    proof {
        assert(s@.take(0) =~= Seq::<char>::empty());
        assert(alnum_pieces(s@.take(0)).drop_last() =~= Seq::<Seq<char>>::empty());
        assert(Seq::<Seq<char>>::empty().filter(token_kept()) =~= Seq::<Seq<char>>::empty());
    }
    while i < s.len()
        invariant
            i <= s@.len(),
            s@ == ls,
            cur@ == alnum_pieces(s@.take(i as int)).last(),
            views(out@) == distinct(alnum_pieces(s@.take(i as int)).drop_last().filter(token_kept())),
        decreases s@.len() - i,
    {
        let c = s[i];
        let ghost prev = alnum_pieces(s@.take(i as int));
        proof {
            lemma_alnum_pieces_nonempty(s@.take(i as int));
            assert(s@.take(i + 1).drop_last() =~= s@.take(i as int));
            assert(s@.take(i + 1).last() == c);
        }
        if is_alnum(c) {
            cur.push(c);
            proof {
                let next = alnum_pieces(s@.take(i + 1));
                assert(next == prev.update(prev.len() - 1, prev.last().push(c)));
                assert(next.drop_last() =~= prev.drop_last());
                assert(next.last() =~= cur@);
            }
        } else {
            let ghost done = prev.drop_last();
            let ghost old_cur = cur@;
            let ghost before = views(out@);
            proof {
                assert(prev =~= done.push(old_cur));
                done.lemma_filter_push(old_cur, token_kept());
                let f = done.filter(token_kept());
                assert(f.push(old_cur).drop_last() =~= f);
            }
            if keeps_token(&cur) {
                let t = string_of(&cur);
                push_unique(&mut out, t.as_str());
            }
            cur = Vec::new();
            proof {
                let next = alnum_pieces(s@.take(i + 1));
                assert(next == prev.push(Seq::<char>::empty()));
                assert(next.drop_last() =~= prev);
                assert(next.last() =~= cur@);
            }
        }
        i = i + 1;
    }
    proof {
        assert(s@.take(s@.len() as int) =~= s@);
        lemma_alnum_pieces_nonempty(s@);
        let all = alnum_pieces(s@);
        assert(all =~= all.drop_last().push(cur@));
        all.drop_last().lemma_filter_push(cur@, token_kept());
        let f = all.drop_last().filter(token_kept());
        assert(f.push(cur@).drop_last() =~= f);
    }
    if keeps_token(&cur) {
        let t = string_of(&cur);
        push_unique(&mut out, t.as_str());
    }
    out
}

// ── Segments ───────────────────────────────────────────────────────────────

/// `s.split(sep)` for a non-empty separator: the pieces between the
/// occurrences of `sep`, found left to right, empty pieces included.
pub open spec fn split_text(s: Seq<char>, sep: Seq<char>) -> Seq<Seq<char>>
    decreases s.len(),
{
    if sep.len() == 0 {
        seq![s]
    } else {
        match first_sub(s, sep) {
            Some(k) => {
                if 0 <= k && k + sep.len() <= s.len() {
                    seq![s.take(k)] + split_text(s.skip(k + sep.len()), sep)
                } else {
                    seq![s]
                }
            },
            None => seq![s],
        }
    }
}

/// ` - `, the separator of title segments.
pub open spec fn dash_sep() -> Seq<char> {
    seq![' ', '-', ' ']
}

/// ` — `, the em-dash separator that reads as ` - `.
pub open spec fn em_dash_sep() -> Seq<char> {
    seq![' ', '\u{2014}', ' ']
}

/// The non-empty text of a piece once trimmed.
pub open spec fn trimmed_piece() -> spec_fn(Seq<char>) -> Seq<char> {
    |p: Seq<char>| trim(p)
}

/// A non-empty text.
pub open spec fn non_empty() -> spec_fn(Seq<char>) -> bool {
    |p: Seq<char>| p.len() > 0
}

/// The dash-separated segments of a title: ` — ` read as ` - `, the title
/// split at ` - `, each piece trimmed, empty pieces dropped.
pub open spec fn title_segments(title: Seq<char>) -> Seq<Seq<char>> {
    let dashed = join_with(split_text(title, em_dash_sep()), dash_sep());
    split_text(dashed, dash_sep()).map_values(trimmed_piece()).filter(non_empty())
}

/// `s.split(sep)` over characters.
fn split_chars(s: &Vec<char>, sep: &Vec<char>) -> (r: Vec<Vec<char>>)
    requires
        sep.len() > 0,
    ensures
        piece_views(r@) == split_text(s@, sep@),
{
    let mut out: Vec<Vec<char>> = Vec::new();
    let mut rest: Vec<char> = slice(s, 0, s.len());
    assert(s@.subrange(0, s@.len() as int) =~= s@);
    loop
        invariant
            sep.len() > 0,
            piece_views(out@) + split_text(rest@, sep@) == split_text(s@, sep@),
        decreases rest@.len(),
    {
        match find_sub(&rest, sep) {
            Some(k) => {
                let ghost before = rest@;
                let piece = slice(&rest, 0, k);
                let next = slice(&rest, k + sep.len(), rest.len());
                proof {
                    assert(piece@ =~= before.take(k as int));
                    assert(next@ =~= before.skip(k + sep.len()));
                    assert(split_text(before, sep@) == seq![before.take(k as int)] + split_text(next@, sep@));
                    assert(piece_views(out@).push(piece@) + split_text(next@, sep@) =~= piece_views(out@) + (seq![piece@] + split_text(next@, sep@)));
                }
                let ghost prev_out = out@;
                let ghost pv = piece@;
                out.push(piece);
                assert(piece_views(out@) =~= piece_views(prev_out).push(pv));
                rest = next;
            },
            None => {
                let ghost before = out@;
                let ghost last = rest@;
                proof {
                    assert(split_text(rest@, sep@) == seq![rest@]);
                }
                out.push(rest);
                proof {
                    assert(piece_views(out@) =~= piece_views(before).push(last));
                    assert(piece_views(before) + seq![last] =~= piece_views(before).push(last));
                }
                return out;
            },
        }
    }
}

/// `v.join(sep)` over characters.
fn join_chars(v: &Vec<Vec<char>>, sep: &Vec<char>) -> (r: Vec<char>)
    ensures
        r@ == join_with(piece_views(v@), sep@),
{
    let ghost t = piece_views(v@);
    let mut out: Vec<char> = Vec::new();
    let mut i: usize = 0;
    while i < v.len()
        invariant
            i <= v@.len(),
            t == piece_views(v@),
            out@ == join_with(t.take(i as int), sep@),
        decreases v@.len() - i,
    {
        assert(t.take(i + 1).drop_last() =~= t.take(i as int));
        assert(t.take(i + 1).last() == v@[i as int]@);
        if i > 0 {
            let mut k: usize = 0;
            let ghost base = out@;
            while k < sep.len()
                invariant
                    k <= sep@.len(),
                    out@ == base + sep@.take(k as int),
                decreases sep@.len() - k,
            {
                out.push(sep[k]);
                k = k + 1;
                assert(out@ =~= base + sep@.take(k as int));
            }
            assert(sep@.take(sep@.len() as int) =~= sep@);
        }
        let ghost mid = out@;
        let mut k: usize = 0;
        while k < v[i].len()
            invariant
                i < v@.len(),
                k <= v@[i as int]@.len(),
                out@ == mid + v@[i as int]@.take(k as int),
            decreases v@[i as int]@.len() - k,
        {
            out.push(v[i][k]);
            k = k + 1;
            assert(out@ =~= mid + v@[i as int]@.take(k as int));
        }
        assert(v@[i as int]@.take(v@[i as int]@.len() as int) =~= v@[i as int]@);
        if i == 0 {
            assert(out@ =~= join_with(t.take(1), sep@));
        }
        i = i + 1;
    }
    assert(t.take(v@.len() as int) =~= t);
    out
}

/// The dash-separated segments of a title, each trimmed, empty ones left
/// out; ` — ` counts as ` - `.
pub fn title_segments_of(title: &str) -> (r: Vec<String>)
    ensures
        views(r@) == title_segments(title@),
{
    let t = chars_of(title);
    let em: Vec<char> = vec![' ', '\u{2014}', ' '];
    let dash: Vec<char> = vec![' ', '-', ' '];
    assert(em@ =~= em_dash_sep());
    assert(dash@ =~= dash_sep());
    let parts = split_chars(&t, &em);
    let dashed = join_chars(&parts, &dash);
    let pieces = split_chars(&dashed, &dash);
    let ghost pv = piece_views(pieces@);
    let ghost trimmed = pv.map_values(trimmed_piece());
    let mut out: Vec<String> = Vec::new();
    let mut i: usize = 0;
    assert(trimmed.take(0).filter(non_empty()) =~= Seq::<Seq<char>>::empty());
    while i < pieces.len()
        invariant
            i <= pieces@.len(),
            pv == piece_views(pieces@),
            trimmed == pv.map_values(trimmed_piece()),
            views(out@) == trimmed.take(i as int).filter(non_empty()),
        decreases pieces@.len() - i,
    {
        let (lo, hi) = trim_bounds(&pieces[i]);
        let seg = string_of_range(&pieces[i], lo, hi);
        proof {
            assert(seg@ == trimmed[i as int]);
            assert(trimmed.take(i + 1) =~= trimmed.take(i as int).push(trimmed[i as int]));
            trimmed.take(i as int).lemma_filter_push(trimmed[i as int], non_empty());
        }
        if hi > lo {
            let ghost before = out@;
            out.push(seg);
            assert(views(out@) =~= views(before).push(seg@));
        }
        i = i + 1;
    }
    assert(trimmed.take(pieces@.len() as int) =~= trimmed);
    out
}

// ── Recurring chrome ───────────────────────────────────────────────────────

/// The last two segments of a title, last first: only they can be chrome.
pub open spec fn tail_segments(segs: Seq<Seq<char>>) -> Seq<Seq<char>> {
    if segs.len() >= 2 {
        seq![segs.last(), segs[segs.len() - 2]]
    } else {
        segs
    }
}

/// The tail segments of every title, in order.
pub open spec fn all_tails(titles: Seq<Seq<char>>) -> Seq<Seq<char>>
    decreases titles.len(),
{
    if titles.len() == 0 {
        Seq::empty()
    } else {
        all_tails(titles.drop_last()) + tail_segments(title_segments(titles.last()))
    }
}

/// How often `seg` occurs in `ts`.
pub open spec fn occurrences(ts: Seq<Seq<char>>, seg: Seq<char>) -> nat {
    ts.filter(|x: Seq<char>| x == seg).len()
}

/// The recurring trailing segments of a corpus of titles: a tail segment
/// seen three or more times is an application's suffix, not a page's name.
/// In code-point order.
pub open spec fn recurring_chrome(titles: Seq<Seq<char>>) -> Seq<Seq<char>> {
    let ts = all_tails(titles);
    sorted_texts(distinct(ts.filter(|x: Seq<char>| occurrences(ts, x) >= 3)))
}

fn count_occurrences(ts: &Vec<String>, seg: &str) -> (r: usize)
    ensures
        r == occurrences(views(ts@), seg@),
{
    let ghost tv = views(ts@);
    let ghost pred = |x: Seq<char>| x == seg@;
    let mut n: usize = 0;
    let mut i: usize = 0;
    assert(tv.take(0).filter(pred) =~= Seq::<Seq<char>>::empty());
    while i < ts.len()
        invariant
            i <= ts@.len(),
            tv == views(ts@),
            pred == (|x: Seq<char>| x == seg@),
            n == tv.take(i as int).filter(pred).len(),
            n <= i,
        decreases ts@.len() - i,
    {
        proof {
            assert(tv.take(i + 1) =~= tv.take(i as int).push(tv[i as int]));
            tv.take(i as int).lemma_filter_push(tv[i as int], pred);
        }
        if crate::text::str_eq(ts[i].as_str(), seg) {
            n = n + 1;
        }
        i = i + 1;
    }
    assert(tv.take(ts@.len() as int) =~= tv);
    n
}

/// The recurring trailing segments across a corpus of titles, in
/// code-point order: a segment among the last two of a title that occurs
/// three or more times over the corpus.
pub fn recurring_title_chrome(all_titles: &Vec<String>) -> (r: Vec<String>)
    ensures
        views(r@) == recurring_chrome(views(all_titles@)),
{
    let ghost tv = views(all_titles@);
    let mut tails: Vec<String> = Vec::new();
    let mut i: usize = 0;
    while i < all_titles.len()
        invariant
            i <= all_titles@.len(),
            tv == views(all_titles@),
            views(tails@) == all_tails(tv.take(i as int)),
        decreases all_titles@.len() - i,
    {
        let segs = title_segments_of(all_titles[i].as_str());
        proof {
            assert(tv.take(i + 1).drop_last() =~= tv.take(i as int));
            assert(tv.take(i + 1).last() == all_titles@[i as int]@);
        }
        let ghost before = views(tails@);
        let ghost sv = views(segs@);
        let n = segs.len();
        if n >= 2 {
            tails.push(segs[n - 1].clone());
            tails.push(segs[n - 2].clone());
            assert(views(tails@) =~= before + tail_segments(sv));
        } else if n == 1 {
            tails.push(segs[0].clone());
            assert(views(tails@) =~= before + tail_segments(sv));
        } else {
            assert(views(tails@) =~= before + tail_segments(sv));
        }
        i = i + 1;
    }
    assert(tv.take(all_titles@.len() as int) =~= tv);
    let ghost at = views(tails@);
    let ghost keep = |x: Seq<char>| occurrences(at, x) >= 3;
    let mut found: Vec<String> = Vec::new();
    let mut j: usize = 0;
    assert(at.take(0).filter(keep) =~= Seq::<Seq<char>>::empty());
    while j < tails.len()
        invariant
            j <= tails@.len(),
            at == views(tails@),
            keep == (|x: Seq<char>| occurrences(at, x) >= 3),
            views(found@) == distinct(at.take(j as int).filter(keep)),
        decreases tails@.len() - j,
    {
        let c = count_occurrences(&tails, tails[j].as_str());
        proof {
            assert(at.take(j + 1) =~= at.take(j as int).push(at[j as int]));
            at.take(j as int).lemma_filter_push(at[j as int], keep);
            let f = at.take(j as int).filter(keep);
            assert(f.push(at[j as int]).drop_last() =~= f);
        }
        if c >= 3 {
            push_unique(&mut found, tails[j].as_str());
        }
        j = j + 1;
    }
    assert(at.take(tails@.len() as int) =~= at);
    sort_strings(&found)
}

// ── Stripping and comparing ────────────────────────────────────────────────

/// How many leading segments come before the first chrome segment.
pub open spec fn chrome_cut(segs: Seq<Seq<char>>, chrome: Seq<Seq<char>>) -> nat
    decreases segs.len(),
{
    if segs.len() == 0 || chrome.contains(segs[0]) {
        0
    } else {
        1 + chrome_cut(segs.drop_first(), chrome)
    }
}

/// A title without its chrome: the segments before the first chrome
/// segment, joined by ` - `; a title that is all chrome keeps its first
/// segment.
pub open spec fn stripped_title(title: Seq<char>, chrome: Seq<Seq<char>>) -> Seq<char> {
    let segs = title_segments(title);
    let k = chrome_cut(segs, chrome);
    if k == 0 {
        if segs.len() > 0 {
            segs[0]
        } else {
            Seq::empty()
        }
    } else {
        join_with(segs.take(k as int), dash_sep())
    }
}

proof fn lemma_chrome_cut(segs: Seq<Seq<char>>, chrome: Seq<Seq<char>>, k: int)
    requires
        0 <= k <= segs.len(),
        forall|j: int| 0 <= j < k ==> !chrome.contains(#[trigger] segs[j]),
        k < segs.len() ==> chrome.contains(segs[k]),
    ensures
        chrome_cut(segs, chrome) == k,
    decreases k,
{
    if k > 0 {
        assert(!chrome.contains(segs[0]));
        let rest = segs.drop_first();
        assert forall|j: int| 0 <= j < k - 1 implies !chrome.contains(#[trigger] rest[j]) by {
            assert(rest[j] == segs[j + 1]);
        }
        if k - 1 < rest.len() {
            assert(rest[k - 1] == segs[k]);
        }
        lemma_chrome_cut(rest, chrome, k - 1);
    }
}

/// A title without its chrome segments and everything after the first
/// of them; a title that is all chrome keeps its first segment.
pub fn strip_title_chrome(title: &str, chrome: &Vec<String>) -> (r: String)
    ensures
        r@ == stripped_title(title@, views(chrome@)),
{
    let segs = title_segments_of(title);
    let ghost sv = views(segs@);
    let ghost cv = views(chrome@);
    let mut k: usize = 0;
    while k < segs.len() && !holds_text(chrome, segs[k].as_str())
        invariant
            k <= segs@.len(),
            sv == views(segs@),
            cv == views(chrome@),
            forall|j: int| 0 <= j < k ==> !cv.contains(#[trigger] sv[j]),
        decreases segs@.len() - k,
    {
        k = k + 1;
    }
    proof {
        lemma_chrome_cut(sv, cv, k as int);
    }
    if k == 0 {
        if segs.len() > 0 {
            segs[0].clone()
        } else {
            String::new()
        }
    } else {
        let mut kept: Vec<String> = Vec::new();
        let mut j: usize = 0;
        while j < k
            invariant
                j <= k <= segs@.len(),
                sv == views(segs@),
                views(kept@) == sv.take(j as int),
            decreases k - j,
        {
            let ghost before = views(kept@);
            kept.push(segs[j].clone());
            assert(views(kept@) =~= before.push(sv[j as int]));
            j = j + 1;
            assert(views(kept@) =~= sv.take(j as int));
        }
        proof {
            reveal_strlit(" - ");
            assert(" - "@ =~= dash_sep());
        }
        crate::text::join_texts(&kept, " - ")
    }
}

/// How many pages hold `token` among their titles.
pub open spec fn title_frequency(title_sets: Seq<Seq<Seq<char>>>, token: Seq<char>) -> nat {
    title_sets.filter(|set: Seq<Seq<char>>| set.contains(token)).len()
}

/// The title's specific tokens: the cleaned tokens of the title without
/// its chrome, less any token that more than a tenth of the pages hold as
/// one of their titles.
pub open spec fn specific_tokens(
    title_sets: Seq<Seq<Seq<char>>>,
    chrome: Seq<Seq<char>>,
    title: Seq<char>,
) -> Seq<Seq<char>> {
    let tokens = title_tokens(stripped_title(title, chrome));
    if title_sets.len() == 0 {
        tokens
    } else {
        tokens.filter(|t: Seq<char>| 10 * title_frequency(title_sets, t) <= title_sets.len())
    }
}

/// The title sets of the pages.
pub open spec fn set_views(v: Seq<Vec<String>>) -> Seq<Seq<Seq<char>>> {
    v.map_values(|set: Vec<String>| views(set@))
}

fn frequency(title_sets: &Vec<Vec<String>>, token: &str) -> (r: usize)
    ensures
        r == title_frequency(set_views(title_sets@), token@),
{
    let ghost sv = set_views(title_sets@);
    let ghost pred = |set: Seq<Seq<char>>| set.contains(token@);
    let mut n: usize = 0;
    let mut i: usize = 0;
    assert(sv.take(0).filter(pred) =~= Seq::<Seq<Seq<char>>>::empty());
    while i < title_sets.len()
        invariant
            i <= title_sets@.len(),
            sv == set_views(title_sets@),
            pred == (|set: Seq<Seq<char>>| set.contains(token@)),
            n == sv.take(i as int).filter(pred).len(),
            n <= i,
        decreases title_sets@.len() - i,
    {
        proof {
            assert(sv.take(i + 1) =~= sv.take(i as int).push(sv[i as int]));
            sv.take(i as int).lemma_filter_push(sv[i as int], pred);
        }
        if holds_text(&title_sets[i], token) {
            n = n + 1;
        }
        i = i + 1;
    }
    assert(sv.take(title_sets@.len() as int) =~= sv);
    n
}

/// The specific tokens of a title over a corpus of page title sets: its
/// cleaned tokens once the chrome is stripped, less those held by more
/// than a tenth of the pages.
pub fn specific_tokens_of(title_sets: &Vec<Vec<String>>, chrome: &Vec<String>, title: &str) -> (r: Vec<String>)
    ensures
        views(r@) == specific_tokens(set_views(title_sets@), views(chrome@), title@),
{
    let stripped = strip_title_chrome(title, chrome);
    let tokens = title_tokens_of(stripped.as_str());
    let n = title_sets.len();
    if n == 0 {
        return tokens;
    }
    let ghost tv = views(tokens@);
    let ghost sv = set_views(title_sets@);
    let ghost keep = |t: Seq<char>| 10 * title_frequency(sv, t) <= sv.len();
    let mut out: Vec<String> = Vec::new();
    let mut i: usize = 0;
    assert(tv.take(0).filter(keep) =~= Seq::<Seq<char>>::empty());
    while i < tokens.len()
        invariant
            i <= tokens@.len(),
            n == title_sets@.len(),
            tv == views(tokens@),
            sv == set_views(title_sets@),
            keep == (|t: Seq<char>| 10 * title_frequency(sv, t) <= sv.len()),
            views(out@) == tv.take(i as int).filter(keep),
        decreases tokens@.len() - i,
    {
        let f = frequency(title_sets, tokens[i].as_str());
        proof {
            assert(tv.take(i + 1) =~= tv.take(i as int).push(tv[i as int]));
            tv.take(i as int).lemma_filter_push(tv[i as int], keep);
            assert(title_frequency(sv, tv[i as int]) <= sv.len()) by {
                sv.lemma_filter_len(|set: Seq<Seq<char>>| set.contains(tv[i as int]));
            }
        }
        assert((f <= n / 10) == (10 * f <= n)) by (nonlinear_arith);
        if f <= n / 10 {
            let ghost before = out@;
            out.push(tokens[i].clone());
            assert(views(out@) =~= views(before).push(tv[i as int]));
        }
        i = i + 1;
    }
    assert(tv.take(tokens@.len() as int) =~= tv);
    out
}

/// How many of `a`'s tokens `b` holds too.
pub open spec fn shared_count(a: Seq<Seq<char>>, b: Seq<Seq<char>>) -> nat {
    a.filter(|x: Seq<char>| b.contains(x)).len()
}

/// Two token lists are near duplicates: both non-empty, and the tokens
/// they share are at least a quarter of all the tokens either holds
/// (over lists without repeats: a Jaccard index of at least 1/4).
pub open spec fn near_duplicate(a: Seq<Seq<char>>, b: Seq<Seq<char>>) -> bool {
    &&& a.len() > 0
    &&& b.len() > 0
    &&& 4 * shared_count(a, b) >= a.len() + b.len() - shared_count(a, b)
}

/// Whether two token lists are near duplicates.
pub fn near_duplicate_tokens(a: &Vec<String>, b: &Vec<String>) -> (r: bool)
    ensures
        r == near_duplicate(views(a@), views(b@)),
{
    if a.len() == 0 || b.len() == 0 {
        return false;
    }
    let ghost av = views(a@);
    let ghost bv = views(b@);
    let ghost pred = |x: Seq<char>| bv.contains(x);
    let mut shared: usize = 0;
    let mut i: usize = 0;
    assert(av.take(0).filter(pred) =~= Seq::<Seq<char>>::empty());
    while i < a.len()
        invariant
            i <= a@.len(),
            av == views(a@),
            bv == views(b@),
            pred == (|x: Seq<char>| bv.contains(x)),
            shared == av.take(i as int).filter(pred).len(),
            shared <= i,
        decreases a@.len() - i,
    {
        proof {
            assert(av.take(i + 1) =~= av.take(i as int).push(av[i as int]));
            av.take(i as int).lemma_filter_push(av[i as int], pred);
        }
        if holds_text(b, a[i].as_str()) {
            shared = shared + 1;
        }
        i = i + 1;
    }
    assert(av.take(a@.len() as int) =~= av);
    let union = (a.len() - shared) as u128 + b.len() as u128;
    4 * (shared as u128) >= union
}

} // verus!
