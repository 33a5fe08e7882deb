//! Page-level resource identity.
//!
//! A host is not a page, and a work is not a host. The resource atom for
//! grouping is the page: the stable, canonical identity of one addressable
//! thing a person attended. The rules are shape-based or follow universal
//! web conventions: opaque query values are identity, the tracking standard
//! is stripped, the search text `q` is the page, `www.` is the null
//! subdomain, and the path is identity.

use vstd::prelude::*;
use vstd::utf8::{decode_utf8, encode_utf8, valid_utf8};
use crate::chars::{after_last, after_last_char, before_first, before_first_char, contains_char,
    first_pos, has_char, lemma_first_pos, piece_views, slice, split_all, split_all_char,
    split_once, split_once_char};
use crate::sorting::{pair_order, pair_views, sort_pairs};
use crate::text::{blank, chars_of, has_prefix, is_whitespace, is_ws, prefix_at, starts_with,
    str_eq, string_of, trim, trimmed};

verus! {

broadcast use vstd::seq_lib::group_seq_properties;

// ── Percent decoding and opaque tokens ─────────────────────────────────────

/// The text `String::from_utf8_lossy` makes of a byte sequence.
pub uninterp spec fn utf8_lossy(b: Seq<u8>) -> Seq<char>;

/// `String::from_utf8_lossy`: the characters the bytes encode, each
/// invalid sequence replaced by U+FFFD. Stated here: the result is a
/// function of the bytes, and valid UTF-8 decodes to exactly its
/// characters; the replacement rule for invalid input is left unnamed.
#[verifier::external_body]
pub(crate) fn lossy_text(bytes: &Vec<u8>) -> (r: String)
    ensures
        r@ == utf8_lossy(bytes@),
        valid_utf8(bytes@) ==> r@ == decode_utf8(bytes@),
{
    String::from_utf8_lossy(bytes.as_slice()).into_owned()
}

/// The value of an ASCII hexadecimal digit.
pub open spec fn hex_value(b: u8) -> Option<u8> {
    if 48 <= b <= 57 {
        Some((b - 48) as u8)
    } else if 97 <= b <= 102 {
        Some((b - 87) as u8)
    } else if 65 <= b <= 70 {
        Some((b - 55) as u8)
    } else {
        None
    }
}

/// `u8::from_str_radix` over two bytes in base 16: two hex digits, or a
/// `+` sign and one hex digit.
pub open spec fn hex_pair(a: u8, b: u8) -> Option<u8> {
    if a == 43 {
        hex_value(b)
    } else {
        match (hex_value(a), hex_value(b)) {
            (Some(x), Some(y)) => Some((16 * x + y) as u8),
            _ => None,
        }
    }
}

/// Decodes `%XX` escapes; `+` is a space.
pub open spec fn pct_decode(b: Seq<u8>) -> Seq<u8>
    decreases b.len(),
{
    if b.len() == 0 {
        Seq::empty()
    } else if b[0] == 37 && b.len() >= 3 && hex_pair(b[1], b[2]) is Some {
        seq![hex_pair(b[1], b[2])->0] + pct_decode(b.skip(3))
    } else {
        seq![if b[0] == 43 { 32u8 } else { b[0] }] + pct_decode(b.skip(1))
    }
}

fn hex_digit(b: u8) -> (r: Option<u8>)
    ensures
        r == hex_value(b),
{
    if 48 <= b && b <= 57 {
        Some(b - 48)
    } else if 97 <= b && b <= 102 {
        Some(b - 87)
    } else if 65 <= b && b <= 70 {
        Some(b - 55)
    } else {
        None
    }
}

pub(crate) fn hex_byte(a: u8, b: u8) -> (r: Option<u8>)
    ensures
        r == hex_pair(a, b),
{
    if a == 43 {
        hex_digit(b)
    } else {
        match (hex_digit(a), hex_digit(b)) {
            (Some(x), Some(y)) => Some(16 * x + y),
            _ => None,
        }
    }
}

/// Decodes `%XX` percent-encoding byte by byte (`+` is a space), for every
/// text; a value that decodes to prose was never a machine token.
pub fn percent_decode(value: &str) -> (r: String)
    ensures
        r@ == utf8_lossy(pct_decode(encode_utf8(value@))),
{
    let bytes = value.as_bytes();
    let ghost b = bytes@;
    assert(b == encode_utf8(value@));
    let mut out: Vec<u8> = Vec::new();
    let mut i: usize = 0;
    assert(b.skip(0) =~= b);
    while i < bytes.len()
        invariant
            i <= bytes.len(),
            b == bytes@,
            pct_decode(b) == out@ + pct_decode(b.skip(i as int)),
        decreases bytes.len() - i,
    {
        let ghost rest = b.skip(i as int);
        if bytes[i] == 37u8 && bytes.len() - i >= 3 {
            if let Some(v) = hex_byte(bytes[i + 1], bytes[i + 2]) {
                assert(rest[0] == b[i as int] && rest[1] == b[i + 1] && rest[2] == b[i + 2]);
                assert(rest.skip(3) =~= b.skip(i + 3));
                let ghost before = out@;
                out.push(v);
                assert(out@ + pct_decode(b.skip(i + 3)) =~= before + pct_decode(rest));
                i = i + 3;
                continue;
            }
        }
        let c = if bytes[i] == 43u8 {
            32u8
        } else {
            bytes[i]
        };
        assert(rest[0] == b[i as int]);
        if bytes.len() - i >= 3 {
            assert(rest[1] == b[i + 1] && rest[2] == b[i + 2]);
        }
        assert(rest.skip(1) =~= b.skip(i + 1));
        let ghost before = out@;
        out.push(c);
        assert(out@ + pct_decode(b.skip(i + 1)) =~= before + pct_decode(rest));
        i = i + 1;
    }
    assert(b.skip(bytes.len() as int) =~= Seq::<u8>::empty());
    assert(out@ =~= pct_decode(b));
    lossy_text(&out)
}

/// An ASCII decimal digit.
pub open spec fn ascii_digit(c: char) -> bool {
    '0' <= c <= '9'
}

/// An ASCII upper-case letter.
pub open spec fn ascii_upper(c: char) -> bool {
    'A' <= c <= 'Z'
}

/// An ASCII lower-case letter.
pub open spec fn ascii_lower(c: char) -> bool {
    'a' <= c <= 'z'
}

/// The text a query value reads as: trimmed, percent-decoded, trimmed.
pub open spec fn decoded_token(v: Seq<char>) -> Seq<char> {
    trim(utf8_lossy(pct_decode(encode_utf8(trim(v)))))
}

/// The shape of a machine-minted token: 6 to 128 characters, no white
/// space, and mixed case or letters mixed with digits.
pub open spec fn opaque_text(d: Seq<char>) -> bool {
    &&& 6 <= d.len() <= 128
    &&& forall|i: int| 0 <= i < d.len() ==> !is_ws(#[trigger] d[i])
    &&& ((exists|i: int| 0 <= i < d.len() && ascii_upper(#[trigger] d[i])) && (exists|i: int|
        0 <= i < d.len() && ascii_lower(#[trigger] d[i]))) || ((exists|i: int|
        0 <= i < d.len() && ascii_digit(#[trigger] d[i])) && (exists|i: int|
        0 <= i < d.len() && (ascii_upper(#[trigger] d[i]) || ascii_lower(d[i]))))
}

/// Whether a value looks machine-minted rather than human-worded.
pub open spec fn opaque_token(v: Seq<char>) -> bool {
    opaque_text(decoded_token(v))
}

fn opaque_chars(d: &Vec<char>) -> (r: bool)
    ensures
        r == opaque_text(d@),
{
    if d.len() < 6 || d.len() > 128 {
        return false;
    }
    let mut upper = false;
    let mut lower = false;
    let mut digit = false;
    let mut i: usize = 0;
    while i < d.len()
        invariant
            i <= d.len(),
            forall|j: int| 0 <= j < i ==> !is_ws(#[trigger] d@[j]),
            upper == exists|j: int| 0 <= j < i && ascii_upper(#[trigger] d@[j]),
            lower == exists|j: int| 0 <= j < i && ascii_lower(#[trigger] d@[j]),
            digit == exists|j: int| 0 <= j < i && ascii_digit(#[trigger] d@[j]),
        decreases d.len() - i,
    {
        let c = d[i];
        if is_whitespace(c) {
            return false;
        }
        if 'A' <= c && c <= 'Z' {
            upper = true;
        }
        if 'a' <= c && c <= 'z' {
            lower = true;
        }
        if '0' <= c && c <= '9' {
            digit = true;
        }
        i = i + 1;
    }
    let letter = upper || lower;
    proof {
        if letter {
            if upper {
                let j = choose|j: int| 0 <= j < d.len() && ascii_upper(#[trigger] d@[j]);
                assert(ascii_upper(d@[j]) || ascii_lower(d@[j]));
            } else {
                let j = choose|j: int| 0 <= j < d.len() && ascii_lower(#[trigger] d@[j]);
                assert(ascii_upper(d@[j]) || ascii_lower(d@[j]));
            }
        }
        if exists|j: int| 0 <= j < d.len() && (ascii_upper(#[trigger] d@[j]) || ascii_lower(d@[j])) {
            let j = choose|j: int| 0 <= j < d.len() && (ascii_upper(#[trigger] d@[j]) || ascii_lower(
                d@[j],
            ));
            if ascii_upper(d@[j]) {
                assert(upper);
            } else {
                assert(lower);
            }
        }
    }
    (upper && lower) || (digit && letter)
}

/// Whether a value looks machine-minted rather than human-worded: at
/// least 6 and at most 128 characters once decoded and trimmed, no white
/// space, and mixed case or letters mixed with digits.
pub fn is_opaque_token(value: &str) -> (r: bool)
    ensures
        r == opaque_token(value@),
{
    let t = trimmed(value);
    let decoded = percent_decode(t.as_str());
    let d = trimmed(decoded.as_str());
    let cs = chars_of(d.as_str());
    opaque_chars(&cs)
}


// ── Canonical page identity ────────────────────────────────────────────────

/// The characters of an optional string.
pub open spec fn opt_text(o: Option<String>) -> Option<Seq<char>> {
    match o {
        Some(s) => Some(s@),
        None => None,
    }
}

/// The URL without its `https://` or `http://` scheme; `None` for any
/// other string.
pub open spec fn strip_scheme(u: Seq<char>) -> Option<Seq<char>> {
    if has_prefix(u, "https://"@) {
        Some(u.skip("https://"@.len() as int))
    } else if has_prefix(u, "http://"@) {
        Some(u.skip("http://"@.len() as int))
    } else {
        None
    }
}

/// `trim_start_matches("www.")`: every leading `www.` removed.
pub open spec fn strip_www(s: Seq<char>) -> Seq<char>
    decreases s.len(),
{
    if s.len() >= 4 && s.take(4) == seq!['w', 'w', 'w', '.'] {
        strip_www(s.skip(4))
    } else {
        s
    }
}

/// `trim_end_matches('/')`: every trailing `/` removed.
pub open spec fn trim_slashes(s: Seq<char>) -> Seq<char>
    decreases s.len(),
{
    if s.len() > 0 && s.last() == '/' {
        trim_slashes(s.drop_last())
    } else {
        s
    }
}

/// The authority of the text after the scheme: everything before the
/// first `/`.
pub open spec fn url_authority(rest: Seq<char>) -> Seq<char> {
    match split_once(rest, '/') {
        Some((a, _)) => a,
        None => rest,
    }
}

/// Everything after the first `/` of the text after the scheme.
pub open spec fn url_tail(rest: Seq<char>) -> Seq<char> {
    match split_once(rest, '/') {
        Some((_, t)) => t,
        None => Seq::empty(),
    }
}

/// The host: the authority without user information, port and `www.`.
pub open spec fn url_host(rest: Seq<char>) -> Seq<char> {
    strip_www(before_first(after_last(url_authority(rest), '@'), ':'))
}

/// The path: the tail before its query and fragment, without trailing
/// slashes.
pub open spec fn url_path(rest: Seq<char>) -> Seq<char> {
    let p = match split_once(url_tail(rest), '?') {
        Some((p, _)) => p,
        None => url_tail(rest),
    };
    trim_slashes(before_first(p, '#'))
}

/// The query: the tail after its first `?`.
pub open spec fn url_query(rest: Seq<char>) -> Option<Seq<char>> {
    match split_once(url_tail(rest), '?') {
        Some((_, q)) => Some(q),
        None => None,
    }
}

/// The tracking standard and the search-engine tracking family: never
/// identity.
pub open spec fn tracking_param(n: Seq<char>) -> bool {
    ||| has_prefix(n, "utm_"@)
    ||| has_prefix(n, "gs_"@)
    ||| has_prefix(n, "si"@)
    ||| n == "fbclid"@
    ||| n == "gclid"@
    ||| n == "msclkid"@
    ||| n == "ref"@
    ||| n == "referrer"@
    ||| n == "oq"@
    ||| n == "ei"@
    ||| n == "ved"@
    ||| n == "sa"@
    ||| n == "sourceid"@
    ||| n == "ie"@
    ||| n == "oe"@
    ||| n == "mtid"@
}

/// The name of a query pair: before its first `=`, or all of it.
pub open spec fn param_name(piece: Seq<char>) -> Seq<char> {
    match split_once(piece, '=') {
        Some((n, _)) => n,
        None => piece,
    }
}

/// The value of a query pair: after its first `=`, or empty.
pub open spec fn param_value(piece: Seq<char>) -> Seq<char> {
    match split_once(piece, '=') {
        Some((_, v)) => v,
        None => Seq::empty(),
    }
}

/// The identity a query pair contributes: the search text `q`, or a
/// parameter whose value is an opaque token; nothing for an empty pair,
/// a tracking parameter, or a word-valued one.
pub open spec fn identity_param(piece: Seq<char>) -> Option<(Seq<char>, Seq<char>)> {
    if piece.len() == 0 || tracking_param(param_name(piece)) {
        None
    } else if param_name(piece) == seq!['q'] {
        Some((param_name(piece), param_value(piece)))
    } else if opaque_token(param_value(piece)) {
        Some((param_name(piece), param_value(piece)))
    } else {
        None
    }
}

/// The identity parameters of the query pairs, in order.
pub open spec fn identity_params(pieces: Seq<Seq<char>>) -> Seq<(Seq<char>, Seq<char>)>
    decreases pieces.len(),
{
    if pieces.len() == 0 {
        Seq::empty()
    } else {
        let head = match identity_param(pieces[0]) {
            Some(p) => seq![p],
            None => Seq::empty(),
        };
        head + identity_params(pieces.drop_first())
    }
}

/// The query pairs of the text after the scheme.
pub open spec fn query_pieces(rest: Seq<char>) -> Seq<Seq<char>> {
    match url_query(rest) {
        Some(q) => split_all(q, '&'),
        None => Seq::empty(),
    }
}

/// The identity parameters of a page, in tuple order.
pub open spec fn page_params(rest: Seq<char>) -> Seq<(Seq<char>, Seq<char>)> {
    identity_params(query_pieces(rest)).sort_by(pair_order())
}

/// `name=value`.
pub open spec fn param_text(p: (Seq<char>, Seq<char>)) -> Seq<char> {
    p.0 + seq!['='] + p.1
}

/// The parameters joined by `&`.
pub open spec fn join_params(ps: Seq<(Seq<char>, Seq<char>)>) -> Seq<char>
    decreases ps.len(),
{
    if ps.len() == 0 {
        Seq::empty()
    } else if ps.len() == 1 {
        param_text(ps[0])
    } else {
        join_params(ps.drop_last()) + seq!['&'] + param_text(ps.last())
    }
}

/// `https://host[/path][?params]`.
pub open spec fn render_page(host: Seq<char>, path: Seq<char>, ps: Seq<(Seq<char>, Seq<char>)>) -> Seq<
    char,
> {
    "https://"@ + host + (if path.len() == 0 {
        Seq::empty()
    } else {
        seq!['/'] + path
    }) + (if ps.len() == 0 {
        Seq::empty()
    } else {
        seq!['?'] + join_params(ps)
    })
}

/// The canonical page identity of a URL, or `None` when the string is not
/// an http(s) URL with a dotted host.
pub open spec fn canonical_page_of(u: Seq<char>) -> Option<Seq<char>> {
    match strip_scheme(u) {
        None => None,
        Some(rest) => {
            let host = url_host(rest);
            if rest.len() == 0 || host.len() == 0 || !has_char(host, '.') {
                None
            } else {
                Some(render_page(host, url_path(rest), page_params(rest)))
            }
        },
    }
}

/// The host without its leading `www.` labels.
pub(crate) fn strip_www_chars(v: &Vec<char>) -> (r: Vec<char>)
    ensures
        r@ == strip_www(v@),
{
    let mut lo: usize = 0;
    assert(v@.skip(0) =~= v@);
    while v.len() - lo >= 4 && v[lo] == 'w' && v[lo + 1] == 'w' && v[lo + 2] == 'w' && v[lo + 3]
        == '.'
        invariant
            lo <= v.len(),
            strip_www(v@) == strip_www(v@.skip(lo as int)),
        decreases v.len() - lo,
    {
        let ghost s = v@.skip(lo as int);
        assert(s.take(4) =~= seq!['w', 'w', 'w', '.']);
        assert(s.skip(4) =~= v@.skip(lo + 4));
        lo = lo + 4;
    }
    let ghost s = v@.skip(lo as int);
    proof {
        if s.len() >= 4 && s.take(4) == seq!['w', 'w', 'w', '.'] {
            assert(s.take(4)[0] == v@[lo as int]);
            assert(s.take(4)[1] == v@[lo + 1]);
            assert(s.take(4)[2] == v@[lo + 2]);
            assert(s.take(4)[3] == v@[lo + 3]);
        }
    }
    let r = slice(v, lo, v.len());
    assert(r@ =~= s);
    r
}

fn trim_slashes_chars(v: &Vec<char>) -> (r: Vec<char>)
    ensures
        r@ == trim_slashes(v@),
{
    let mut hi: usize = v.len();
    assert(v@.take(v.len() as int) =~= v@);
    while hi > 0 && v[hi - 1] == '/'
        invariant
            hi <= v.len(),
            trim_slashes(v@) == trim_slashes(v@.take(hi as int)),
        decreases hi,
    {
        assert(v@.take(hi as int).drop_last() =~= v@.take(hi - 1));
        hi = hi - 1;
    }
    let r = slice(v, 0, hi);
    assert(r@ =~= v@.take(hi as int));
    r
}

fn push_all(out: &mut Vec<char>, s: &Vec<char>)
    ensures
        final(out)@ == old(out)@ + s@,
{
    let mut i: usize = 0;
    while i < s.len()
        invariant
            i <= s.len(),
            out@ == old(out)@ + s@.take(i as int),
        decreases s.len() - i,
    {
        out.push(s[i]);
        i = i + 1;
        assert(out@ =~= old(out)@ + s@.take(i as int));
    }
    assert(s@.take(s.len() as int) =~= s@);
}

fn is_tracking_param(name: &Vec<char>) -> (r: bool)
    ensures
        r == tracking_param(name@),
{
    let s = string_of(name);
    let n = s.as_str();
    starts_with(n, "utm_") || starts_with(n, "gs_") || starts_with(n, "si") || str_eq(n, "fbclid")
        || str_eq(n, "gclid") || str_eq(n, "msclkid") || str_eq(n, "ref") || str_eq(n, "referrer")
        || str_eq(n, "oq") || str_eq(n, "ei") || str_eq(n, "ved") || str_eq(n, "sa") || str_eq(
        n,
        "sourceid",
    ) || str_eq(n, "ie") || str_eq(n, "oe") || str_eq(n, "mtid")
}

fn identity_param_chars(piece: &Vec<char>) -> (r: Option<(Vec<char>, Vec<char>)>)
    ensures
        match r {
            Some(p) => identity_param(piece@) == Some((p.0@, p.1@)),
            None => identity_param(piece@) is None,
        },
{
    if piece.len() == 0 {
        return None;
    }
    let (name, value) = match split_once_char(piece, '=') {
        Some((n, v)) => (n, v),
        None => (slice(piece, 0, piece.len()), Vec::new()),
    };
    assert(name@ == param_name(piece@) && value@ == param_value(piece@)) by {
        if split_once(piece@, '=') is None {
            assert(piece@.subrange(0, piece@.len() as int) =~= piece@);
        }
    }
    if is_tracking_param(&name) {
        return None;
    }
    if name.len() == 1 && name[0] == 'q' {
        assert(name@ =~= seq!['q']);
        return Some((name, value));
    }
    assert(name@ != seq!['q']) by {
        if name@ == seq!['q'] {
            assert(name@.len() == 1 && name@[0] == 'q');
        }
    }
    let v = string_of(&value);
    if is_opaque_token(v.as_str()) {
        Some((name, value))
    } else {
        None
    }
}

fn render_params(out: &mut Vec<char>, ps: &Vec<(Vec<char>, Vec<char>)>)
    requires
        ps.len() > 0,
    ensures
        final(out)@ == old(out)@ + join_params(pair_views(ps@)),
{
    let ghost pv = pair_views(ps@);
    let mut i: usize = 0;
    while i < ps.len()
        invariant
            i <= ps.len(),
            pv == pair_views(ps@),
            out@ == old(out)@ + join_params(pv.take(i as int)),
        decreases ps.len() - i,
    {
        let ghost before = out@;
        if i > 0 {
            out.push('&');
        }
        push_all(out, &ps[i].0);
        out.push('=');
        push_all(out, &ps[i].1);
        proof {
            let t = pv.take(i + 1);
            assert(pv[i as int] == (ps@[i as int].0@, ps@[i as int].1@));
            if i > 0 {
                assert(t.drop_last() =~= pv.take(i as int));
                assert(out@ =~= before + seq!['&'] + param_text(pv[i as int]));
            } else {
                assert(out@ =~= before + param_text(pv[i as int]));
            }
        }
        i = i + 1;
    }
    assert(pv.take(ps.len() as int) =~= pv);
}

/// The canonical page identity of a URL, or `None` when the string is not
/// an http(s) URL with a dotted host; every string gets an answer. Two
/// attendance records of the same page canonicalize equal.
#[verifier::spinoff_prover]
#[verifier::rlimit(40)]
pub fn canonical_page(url: &str) -> (r: Option<String>)
    ensures
        opt_text(r) == canonical_page_of(url@),
{
    let u = chars_of(url);
    let rest: Vec<char> = if starts_with(url, "https://") {
        let n = chars_of("https://").len();
        slice(&u, n, u.len())
    } else if starts_with(url, "http://") {
        let n = chars_of("http://").len();
        slice(&u, n, u.len())
    } else {
        return None;
    };
    assert(strip_scheme(url@) == Some(rest@));
    if rest.len() == 0 {
        return None;
    }
    let (authority, tail) = match split_once_char(&rest, '/') {
        Some((a, t)) => (a, t),
        None => (slice(&rest, 0, rest.len()), Vec::new()),
    };
    assert(authority@ == url_authority(rest@) && tail@ == url_tail(rest@)) by {
        if split_once(rest@, '/') is None {
            assert(rest@.subrange(0, rest@.len() as int) =~= rest@);
        }
    }
    let host = strip_www_chars(&before_first_char(&after_last_char(&authority, '@'), ':'));
    if host.len() == 0 || !contains_char(&host, '.') {
        return None;
    }
    let (path0, query) = match split_once_char(&tail, '?') {
        Some((p, q)) => (p, Some(q)),
        None => (slice(&tail, 0, tail.len()), None),
    };
    assert(before_first(path0@, '#') == before_first(
        match split_once(tail@, '?') {
            Some((p, _)) => p,
            None => tail@,
        },
        '#',
    )) by {
        if split_once(tail@, '?') is None {
            assert(tail@.subrange(0, tail@.len() as int) =~= tail@);
        }
    }
    let path = trim_slashes_chars(&before_first_char(&path0, '#'));
    let mut params: Vec<(Vec<char>, Vec<char>)> = Vec::new();
    match query {
        Some(q) => {
            let pieces = split_all_char(&q, '&');
            let ghost pv = piece_views(pieces@);
            assert(pv == query_pieces(rest@));
            assert(pv.skip(0) =~= pv);
            let mut i: usize = 0;
            while i < pieces.len()
                invariant
                    i <= pieces.len(),
                    pv == piece_views(pieces@),
                    identity_params(pv) == pair_views(params@) + identity_params(
                        pv.skip(i as int),
                    ),
                decreases pieces.len() - i,
            {
                let ghost rest_pieces = pv.skip(i as int);
                assert(rest_pieces.drop_first() =~= pv.skip(i + 1));
                assert(rest_pieces[0] == pv[i as int]);
                assert(pv[i as int] == pieces@[i as int]@);
                let ghost before = pair_views(params@);
                match identity_param_chars(&pieces[i]) {
                    Some(p) => {
                        params.push(p);
                        assert(pair_views(params@) =~= before + seq![(p.0@, p.1@)]);
                    },
                    None => {
                        assert(pair_views(params@) =~= before);
                    },
                }
                assert(pair_views(params@) + identity_params(pv.skip(i + 1)) =~= before
                    + identity_params(rest_pieces));
                i = i + 1;
            }
            assert(pv.skip(pieces.len() as int) =~= Seq::<Seq<char>>::empty());
            assert(pair_views(params@) =~= identity_params(query_pieces(rest@)));
        },
        None => {
            assert(query_pieces(rest@) =~= Seq::<Seq<char>>::empty());
            assert(pair_views(params@) =~= identity_params(query_pieces(rest@)));
        },
    }
    let sorted = sort_pairs(params);
    let mut page = chars_of("https://");
    push_all(&mut page, &host);
    if path.len() > 0 {
        page.push('/');
        push_all(&mut page, &path);
    }
    if sorted.len() > 0 {
        page.push('?');
        render_params(&mut page, &sorted);
    }
    assert(page@ =~= render_page(host@, path@, page_params(rest@)));
    Some(string_of(&page))
}


// ── Opaque tokens of a page ────────────────────────────────────────────────

/// `://` starts at `k`.
pub open spec fn scheme_sep_at(s: Seq<char>, k: int) -> bool {
    0 <= k && k + 3 <= s.len() && s[k] == ':' && s[k + 1] == '/' && s[k + 2] == '/'
}

/// `k` is the first position where `://` starts.
pub open spec fn is_first_sep(s: Seq<char>, k: int) -> bool {
    scheme_sep_at(s, k) && forall|j: int| 0 <= j < k ==> !scheme_sep_at(s, j)
}

/// The text after the first `://`, if any.
pub open spec fn after_scheme_sep(s: Seq<char>) -> Option<Seq<char>> {
    if exists|k: int| is_first_sep(s, k) {
        Some(s.skip((choose|k: int| is_first_sep(s, k)) + 3))
    } else {
        None
    }
}

/// The path segments of a page: the text after `://` up to the first
/// `?`, split at `/`.
pub open spec fn segment_candidates(page: Seq<char>) -> Seq<Seq<char>> {
    match after_scheme_sep(page) {
        Some(path) => split_all(before_first(path, '?'), '/'),
        None => Seq::empty(),
    }
}

/// The values of the `name=value` pairs, in order.
pub open spec fn pair_values(pieces: Seq<Seq<char>>) -> Seq<Seq<char>>
    decreases pieces.len(),
{
    if pieces.len() == 0 {
        Seq::empty()
    } else {
        let head = match split_once(pieces[0], '=') {
            Some((_, v)) => seq![v],
            None => Seq::empty(),
        };
        head + pair_values(pieces.drop_first())
    }
}

/// The query values of a page: after its first `?`, split at `&`.
pub open spec fn value_candidates(page: Seq<char>) -> Seq<Seq<char>> {
    match split_once(page, '?') {
        Some((_, q)) => pair_values(split_all(q, '&')),
        None => Seq::empty(),
    }
}

/// Every text of a page that could be a token, in order.
pub open spec fn token_candidates(page: Seq<char>) -> Seq<Seq<char>> {
    segment_candidates(page) + value_candidates(page)
}

/// The opaque candidates, each kept once, in order of first appearance.
pub open spec fn distinct_tokens(cands: Seq<Seq<char>>) -> Seq<Seq<char>>
    decreases cands.len(),
{
    if cands.len() == 0 {
        Seq::empty()
    } else {
        let prev = distinct_tokens(cands.drop_last());
        let x = cands.last();
        if opaque_token(x) && !prev.contains(x) {
            prev.push(x)
        } else {
            prev
        }
    }
}

/// The characters of each string.
pub open spec fn string_views(v: Seq<String>) -> Seq<Seq<char>> {
    v.map_values(|s: String| s@)
}

fn find_scheme_sep(v: &Vec<char>) -> (r: Option<usize>)
    ensures
        match r {
            Some(k) => k + 3 <= v.len() && exists|j: int| is_first_sep(v@, j) && (choose|j: int|
                is_first_sep(v@, j)) == k,
            None => !exists|j: int| is_first_sep(v@, j),
        },
{
    let mut i: usize = 0;
    while i < v.len()
        invariant
            i <= v.len(),
            forall|j: int| 0 <= j < i ==> !scheme_sep_at(v@, j),
        decreases v.len() - i,
    {
        if v.len() - i >= 3 && v[i] == ':' && v[i + 1] == '/' && v[i + 2] == '/' {
            proof {
                assert(is_first_sep(v@, i as int));
                let k = choose|j: int| is_first_sep(v@, j);
                assert(is_first_sep(v@, k));
                if k < i {
                    assert(!scheme_sep_at(v@, k));
                }
                if i < k {
                    assert(!scheme_sep_at(v@, i as int));
                }
            }
            return Some(i);
        }
        i = i + 1;
    }
    proof {
        if exists|j: int| is_first_sep(v@, j) {
            let k = choose|j: int| is_first_sep(v@, j);
            assert(scheme_sep_at(v@, k));
        }
    }
    None
}

fn push_pieces(out: &mut Vec<Vec<char>>, pieces: Vec<Vec<char>>)
    ensures
        piece_views(final(out)@) == piece_views(old(out)@) + piece_views(pieces@),
{
    let mut i: usize = 0;
    while i < pieces.len()
        invariant
            i <= pieces.len(),
            piece_views(out@) == piece_views(old(out)@) + piece_views(pieces@).take(i as int),
        decreases pieces.len() - i,
    {
        let p = slice(&pieces[i], 0, pieces[i].len());
        assert(p@ =~= pieces@[i as int]@);
        let ghost before = piece_views(out@);
        out.push(p);
        assert(piece_views(out@) =~= before.push(p@));
        assert(piece_views(pieces@).take(i + 1) =~= piece_views(pieces@).take(i as int).push(
            pieces@[i as int]@,
        ));
        assert(piece_views(out@) =~= piece_views(old(out)@) + piece_views(pieces@).take(i + 1));
        i = i + 1;
    }
    assert(piece_views(pieces@).take(pieces.len() as int) =~= piece_views(pieces@));
}

fn candidates(page: &Vec<char>) -> (r: Vec<Vec<char>>)
    ensures
        piece_views(r@) == token_candidates(page@),
{
    let mut out: Vec<Vec<char>> = Vec::new();
    match find_scheme_sep(page) {
        Some(k) => {
            let path = slice(page, k + 3, page.len());
            assert(path@ =~= page@.skip(k + 3));
            let head = before_first_char(&path, '?');
            let segments = split_all_char(&head, '/');
            push_pieces(&mut out, segments);
        },
        None => {},
    }
    assert(piece_views(out@) =~= segment_candidates(page@));
    match split_once_char(page, '?') {
        Some((_, q)) => {
            let pieces = split_all_char(&q, '&');
            let ghost pv = piece_views(pieces@);
            let ghost seg = piece_views(out@);
            assert(pv.skip(0) =~= pv);
            let mut i: usize = 0;
            while i < pieces.len()
                invariant
                    i <= pieces.len(),
                    pv == piece_views(pieces@),
                    seg + pair_values(pv) == piece_views(out@) + pair_values(pv.skip(i as int)),
                decreases pieces.len() - i,
            {
                let ghost rest = pv.skip(i as int);
                assert(rest.drop_first() =~= pv.skip(i + 1));
                assert(rest[0] == pieces@[i as int]@);
                let ghost before = piece_views(out@);
                match split_once_char(&pieces[i], '=') {
                    Some((_, v)) => {
                        out.push(v);
                        assert(piece_views(out@) =~= before + seq![v@]);
                    },
                    None => {
                        assert(piece_views(out@) =~= before);
                    },
                }
                assert(piece_views(out@) + pair_values(pv.skip(i + 1)) =~= before + pair_values(
                    rest,
                ));
                i = i + 1;
            }
            assert(pv.skip(pieces.len() as int) =~= Seq::<Seq<char>>::empty());
            assert(piece_views(out@) =~= seg + pair_values(pv));
        },
        None => {},
    }
    assert(piece_views(out@) =~= token_candidates(page@));
    out
}

fn contains_text(tokens: &Vec<String>, s: &str) -> (r: bool)
    ensures
        r == string_views(tokens@).contains(s@),
{
    let ghost prev = string_views(tokens@);
    let mut j: usize = 0;
    while j < tokens.len()
        invariant
            j <= tokens.len(),
            prev == string_views(tokens@),
            forall|m: int| 0 <= m < j ==> prev[m] != s@,
        decreases tokens.len() - j,
    {
        assert(prev[j as int] == tokens@[j as int]@);
        if str_eq(tokens[j].as_str(), s) {
            return true;
        }
        j = j + 1;
    }
    false
}

/// The opaque identifier tokens a canonical page carries: its opaque path
/// segments and opaque query values, each once, in order of appearance.
/// Pages that share a token are glued into one collection by callers.
#[verifier::spinoff_prover]
#[verifier::rlimit(40)]
pub fn opaque_tokens(page: &str) -> (r: Vec<String>)
    ensures
        string_views(r@) == distinct_tokens(token_candidates(page@)),
{
    let p = chars_of(page);
    let cands = candidates(&p);
    let ghost cv = piece_views(cands@);
    let mut tokens: Vec<String> = Vec::new();
    let mut i: usize = 0;
    assert(cv.take(0) =~= Seq::<Seq<char>>::empty());
    while i < cands.len()
        invariant
            i <= cands.len(),
            cv == piece_views(cands@),
            cv == token_candidates(page@),
            string_views(tokens@) == distinct_tokens(cv.take(i as int)),
        decreases cands.len() - i,
    {
        let s = string_of(&cands[i]);
        assert(s@ == cv[i as int]);
        let ghost prev = string_views(tokens@);
        assert(cv.take(i + 1).drop_last() =~= cv.take(i as int));
        assert(cv.take(i + 1).last() == cv[i as int]);
        if is_opaque_token(s.as_str()) {
            let seen = contains_text(&tokens, s.as_str());
            if !seen {
                tokens.push(s);
                assert(string_views(tokens@) =~= prev.push(cv[i as int]));
            }
        }
        i = i + 1;
    }
    assert(cv.take(cands.len() as int) =~= cv);
    tokens
}


/// What a kept query parameter is: never a tracking parameter, and either
/// the search text or an opaque token.
pub open spec fn identity_pair(p: (Seq<char>, Seq<char>)) -> bool {
    !tracking_param(p.0) && (p.0 == seq!['q'] || opaque_token(p.1))
}

proof fn lemma_identity_params_kept(pieces: Seq<Seq<char>>)
    ensures
        forall|i: int|
            0 <= i < identity_params(pieces).len() ==> identity_pair(
                #[trigger] identity_params(pieces)[i],
            ),
    decreases pieces.len(),
{
    if pieces.len() > 0 {
        lemma_identity_params_kept(pieces.drop_first());
        let head = match identity_param(pieces[0]) {
            Some(p) => seq![p],
            None => Seq::<(Seq<char>, Seq<char>)>::empty(),
        };
        let all = identity_params(pieces);
        assert(all == head + identity_params(pieces.drop_first()));
        assert forall|i: int| 0 <= i < all.len() implies identity_pair(#[trigger] all[i]) by {
            if i >= head.len() {
                assert(all[i] == identity_params(pieces.drop_first())[i - head.len()]);
            }
        }
    }
}

/// The tracking standard is stripped everywhere and word-valued
/// parameters never survive: every parameter of a canonical page is the
/// search text or an opaque token, and none is a tracking parameter. The
/// parameters are in tuple order, so the order in which a URL lists them
/// does not change the page.
pub proof fn lemma_page_params_are_identity(rest: Seq<char>)
    ensures
        forall|i: int|
            0 <= i < page_params(rest).len() ==> identity_pair(#[trigger] page_params(rest)[i]),
        vstd::relations::sorted_by(page_params(rest), pair_order()),
{
    broadcast use vstd::seq_lib::group_to_multiset_ensures;

    let ids = identity_params(query_pieces(rest));
    lemma_identity_params_kept(query_pieces(rest));
    crate::sorting::lemma_pair_order_total();
    ids.lemma_sort_by_ensures(pair_order());
    let ps = page_params(rest);
    assert forall|i: int| 0 <= i < ps.len() implies identity_pair(#[trigger] ps[i]) by {
        assert(ps.contains(ps[i]));
        assert(ps.to_multiset().count(ps[i]) > 0);
        assert(ids.to_multiset().count(ps[i]) > 0);
        assert(ids.contains(ps[i]));
        let j = choose|j: int| 0 <= j < ids.len() && ids[j] == ps[i];
        assert(identity_pair(ids[j]));
    }
}


/// No parameter of the tracking standard ever survives into a canonical
/// page: no kept parameter is named `utm_*`, `gs_*`, `si*`, `fbclid`,
/// `gclid`, `msclkid`, `ref`, `referrer`, `oq`, `ei`, `ved`, `sa`,
/// `sourceid`, `ie`, `oe` or `mtid`.
pub proof fn lemma_tracking_never_kept(rest: Seq<char>)
    ensures
        forall|i: int|
            0 <= i < page_params(rest).len() ==> {
                let n = (#[trigger] page_params(rest)[i]).0;
                &&& !has_prefix(n, "utm_"@)
                &&& !has_prefix(n, "gs_"@)
                &&& !has_prefix(n, "si"@)
                &&& n != "fbclid"@
                &&& n != "gclid"@
                &&& n != "msclkid"@
                &&& n != "ref"@
                &&& n != "referrer"@
                &&& n != "oq"@
                &&& n != "ei"@
                &&& n != "ved"@
                &&& n != "sa"@
                &&& n != "sourceid"@
                &&& n != "ie"@
                &&& n != "oe"@
                &&& n != "mtid"@
            },
{
    lemma_page_params_are_identity(rest);
}

} // verus!

