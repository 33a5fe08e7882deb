//! The observation log: length-prefixed observation-v1 records, each a
//! sequence of `key=value` lines, read into attention events, witnessed
//! saves and same-work declarations.

use vstd::prelude::*;
use vstd::utf8::{decode_utf8, encode_utf8, is_ascii_chars, is_ascii_chars_encode_utf8, is_continuation_byte, valid_utf8};
use crate::chars::{find_sub, first_sub, sub_at, is_first_sub, first_pos, last_pos, find_last_char, piece_views, slice, split_all,
    split_all_char, lemma_first_pos, lines_of, text_lines};
use crate::ledger::event::{EventModel, ObservedEvent, ProductionSave};
use crate::ledger::pages::{hex_pair, utf8_lossy, lossy_text, hex_byte};
use crate::text::{blank, chars_of, has_prefix, is_blank, parse_u64, parse_u64_spec, prefix_at,
    str_eq, string_of, to_owned_string};

verus! {

broadcast use vstd::seq_lib::group_seq_properties;

// ── Hex-encoded text ───────────────────────────────────────────────────────

/// The bytes of a hex text: each two-byte pair that reads as a hex byte,
/// in order; pairs that do not are skipped.
pub open spec fn unhex_bytes(b: Seq<u8>) -> Seq<u8>
    decreases b.len(),
{
    if b.len() < 2 {
        Seq::empty()
    } else {
        let head = match hex_pair(b[0], b[1]) {
            Some(x) => seq![x],
            None => Seq::empty(),
        };
        head + unhex_bytes(b.skip(2))
    }
}

/// The hex texts whose pairs cannot be sliced: an odd byte length, or a
/// pair starting inside a multi-byte character.
pub open spec fn unhex_panics(b: Seq<u8>) -> bool {
    b.len() % 2 == 1 || exists|i: int|
        0 <= i < b.len() && i % 2 == 0 && #[trigger] is_continuation_byte(b[i])
}

/// An ASCII hex text of even length is always read through: every pair
/// starts on a character, so `unhex` accepts it.
pub proof fn lemma_ascii_hex_reads(hex: Seq<char>)
    requires
        is_ascii_chars(hex),
        hex.len() % 2 == 0,
    ensures
        !unhex_panics(encode_utf8(hex)),
{
    is_ascii_chars_encode_utf8(hex);
    let b = encode_utf8(hex);
    assert forall|i: int| 0 <= i < b.len() implies !is_continuation_byte(#[trigger] b[i]) by {
        assert(hex[i] as u8 == b[i]);
        assert((hex[i] as u32) < 128);
    }
}

/// The text a hex-encoded UTF-8 string decodes to.
pub open spec fn unhex_text(hex: Seq<char>) -> Seq<char> {
    utf8_lossy(unhex_bytes(encode_utf8(hex)))
}

/// Decodes a hex-encoded UTF-8 string byte-wise, so multi-byte characters
/// survive; invalid UTF-8 becomes U+FFFD.
pub fn unhex(hex: &str) -> (r: String)
    requires
        !unhex_panics(encode_utf8(hex@)),
    ensures
        r@ == unhex_text(hex@),
{
    let bytes = hex.as_bytes();
    let ghost b = bytes@;
    let mut out: Vec<u8> = Vec::new();
    let mut i: usize = 0;
    assert(b.skip(0) =~= b);
    while bytes.len() - i >= 2
        invariant
            i <= bytes.len(),
            b == bytes@,
            unhex_bytes(b) == out@ + unhex_bytes(b.skip(i as int)),
        decreases bytes.len() - i,
    {
        let ghost rest = b.skip(i as int);
        assert(rest[0] == b[i as int] && rest[1] == b[i + 1]);
        assert(rest.skip(2) =~= b.skip(i + 2));
        let ghost before = out@;
        match hex_byte(bytes[i], bytes[i + 1]) {
            Some(x) => {
                out.push(x);
            },
            None => {},
        }
        assert(out@ + unhex_bytes(b.skip(i + 2)) =~= before + unhex_bytes(rest));
        i = i + 2;
    }
    assert(unhex_bytes(b.skip(i as int)) =~= Seq::<u8>::empty());
    assert(out@ =~= unhex_bytes(b));
    lossy_text(&out)
}

// ── Locators and saved paths ───────────────────────────────────────────────

/// A subject (or the locator the window claimed) routed by shape:
/// `http(s)://` is a URL, `file://` a document, and a bare absolute path
/// a document only when the window itself claimed it.
pub open spec fn route(subject: Seq<char>, locator: Option<Seq<char>>) -> (
    Option<Seq<char>>,
    Option<Seq<char>>,
) {
    let e = match locator {
        Some(l) => l,
        None => subject,
    };
    if has_prefix(e, "http://"@) || has_prefix(e, "https://"@) {
        (Some(e), None)
    } else if has_prefix(e, "file://"@) && e.len() > "file://"@.len() {
        (None, Some(e.skip("file://"@.len() as int)))
    } else if locator is Some && e.len() > 0 && e[0] == '/' {
        (None, Some(e))
    } else {
        (None, None)
    }
}

/// All characters are ASCII digits.
pub open spec fn all_digits(s: Seq<char>) -> bool {
    forall|i: int| 0 <= i < s.len() ==> '0' <= #[trigger] s[i] <= '9'
}

/// All characters are ASCII hexadecimal digits.
pub open spec fn all_hex(s: Seq<char>) -> bool {
    forall|i: int|
        0 <= i < s.len() ==> ('0' <= #[trigger] s[i] <= '9' || 'a' <= s[i] <= 'f' || 'A' <= s[i]
            <= 'F')
}

/// A saved path without the atomic-write suffix: `dir/name.tmp.PID.HEX`
/// becomes `dir/name`; any other path is kept as it is.
pub open spec fn normalize_save(p: Seq<char>) -> Seq<char> {
    match last_pos(p, '/') {
        None => p,
        Some(k) => {
            let file = p.skip(k + 1);
            match first_sub(file, ".tmp."@) {
                None => p,
                Some(j) => {
                    let stem = file.take(j);
                    let parts = split_all(file.skip(j + ".tmp."@.len()), '.');
                    if parts.len() == 2 && parts[0].len() > 0 && parts[1].len() > 0 && all_digits(
                        parts[0],
                    ) && all_hex(parts[1]) && stem.len() > 0 {
                        p.take(k) + seq!['/'] + stem
                    } else {
                        p
                    }
                },
            }
        },
    }
}


fn all_digits_chars(v: &Vec<char>) -> (r: bool)
    ensures
        r == all_digits(v@),
{
    let mut i: usize = 0;
    while i < v.len()
        invariant
            i <= v.len(),
            forall|j: int| 0 <= j < i ==> '0' <= #[trigger] v@[j] <= '9',
        decreases v.len() - i,
    {
        if !('0' <= v[i] && v[i] <= '9') {
            return false;
        }
        i = i + 1;
    }
    true
}

fn all_hex_chars(v: &Vec<char>) -> (r: bool)
    ensures
        r == all_hex(v@),
{
    let mut i: usize = 0;
    while i < v.len()
        invariant
            i <= v.len(),
            forall|j: int|
                0 <= j < i ==> ('0' <= #[trigger] v@[j] <= '9' || 'a' <= v@[j] <= 'f' || 'A'
                    <= v@[j] <= 'F'),
        decreases v.len() - i,
    {
        let c = v[i];
        if !(('0' <= c && c <= '9') || ('a' <= c && c <= 'f') || ('A' <= c && c <= 'F')) {
            return false;
        }
        i = i + 1;
    }
    true
}

/// Strips the atomic-write temp suffix from a saved path: editors write
/// `name.tmp.<pid>.<hex>` and rename it to `name`, and the save is about
/// the document.
pub fn normalize_save_path(path: &str) -> (r: String)
    ensures
        r@ == normalize_save(path@),
{
    let p = chars_of(path);
    let k = match find_last_char(&p, '/') {
        Some(k) => k,
        None => return to_owned_string(path),
    };
    let file = slice(&p, k + 1, p.len());
    assert(file@ =~= p@.skip(k + 1));
    let marker = chars_of(".tmp.");
    let j = match find_sub(&file, &marker) {
        Some(j) => j,
        None => return to_owned_string(path),
    };
    let stem = slice(&file, 0, j);
    assert(stem@ =~= file@.take(j as int));
    let temp = slice(&file, j + marker.len(), file.len());
    assert(temp@ =~= file@.skip(j + marker@.len()));
    let parts = split_all_char(&temp, '.');
    assert(piece_views(parts@).len() == parts.len());
    if parts.len() == 2 {
        assert(parts@[0]@ == piece_views(parts@)[0]);
        assert(parts@[1]@ == piece_views(parts@)[1]);
    }
    if parts.len() == 2 && parts[0].len() > 0 && parts[1].len() > 0 && all_digits_chars(&parts[0])
        && all_hex_chars(&parts[1]) && stem.len() > 0 {
        let mut out = slice(&p, 0, k);
        out.push('/');
        let mut i: usize = 0;
        let ghost base = out@;
        while i < stem.len()
            invariant
                i <= stem.len(),
                out@ == base + stem@.take(i as int),
            decreases stem.len() - i,
        {
            out.push(stem[i]);
            i = i + 1;
            assert(out@ =~= base + stem@.take(i as int));
        }
        assert(stem@.take(stem.len() as int) =~= stem@);
        assert(out@ =~= p@.take(k as int) + seq!['/'] + stem@);
        string_of(&out)
    } else {
        to_owned_string(path)
    }
}


// ── Records ────────────────────────────────────────────────────────────────

/// What the lines of a record have told so far.
pub struct ParseState {
    pub schema: Seq<char>,
    pub nanos: u64,
    pub subject: Seq<char>,
    pub context: Seq<(Seq<char>, Seq<char>)>,
    pub ints: Seq<u64>,
    pub texts: Seq<(Seq<char>, Seq<char>)>,
    pub seen_subject: bool,
    pub pending_key: Option<Seq<char>>,
    pub pending_name: Option<Seq<char>>,
}

/// Nothing read yet.
pub open spec fn initial_state() -> ParseState {
    ParseState {
        schema: Seq::empty(),
        nanos: 0,
        subject: Seq::empty(),
        context: Seq::empty(),
        ints: Seq::empty(),
        texts: Seq::empty(),
        seen_subject: false,
        pending_key: None,
        pending_name: None,
    }
}

/// `line.strip_prefix(lit)`.
pub open spec fn after_prefix(line: Seq<char>, lit: Seq<char>) -> Option<Seq<char>> {
    if has_prefix(line, lit) {
        Some(line.skip(lit.len() as int))
    } else {
        None
    }
}

/// A hex text whose pairs can be sliced.
pub open spec fn hex_ok(v: Seq<char>) -> bool {
    !unhex_panics(encode_utf8(v))
}

/// `trim_start_matches('+')`.
pub open spec fn trim_plus(v: Seq<char>) -> Seq<char>
    decreases v.len(),
{
    if v.len() > 0 && v[0] == '+' {
        trim_plus(v.drop_first())
    } else {
        v
    }
}

/// `text.parse::<u64>().unwrap_or(0)`.
pub open spec fn number_or_zero(v: Seq<char>) -> u64 {
    match parse_u64_spec(v) {
        Some(n) => n,
        None => 0,
    }
}

/// The nanoseconds an `observed_at=SECS:NANOS` value names, unbounded.
pub open spec fn observed_nanos(v: Seq<char>) -> Option<int> {
    match crate::chars::split_once(trim_plus(v), ':') {
        Some((s, n)) => Some(number_or_zero(s) * 1_000_000_000 + number_or_zero(n)),
        None => None,
    }
}

/// One line read into the state; `None` where reading it would slice a
/// hex text inside a character or overflow the timestamp.
pub open spec fn parse_step(st: ParseState, line: Seq<char>) -> Option<ParseState> {
    if let Some(v) = after_prefix(line, "schema_name_hex="@) {
        if hex_ok(v) {
            Some(ParseState { schema: unhex_text(v), ..st })
        } else {
            None
        }
    } else if let Some(v) = after_prefix(line, "observed_at="@) {
        match observed_nanos(v) {
            Some(t) => if t <= u64::MAX {
                Some(ParseState { nanos: t as u64, ..st })
            } else {
                None
            },
            None => Some(st),
        }
    } else if let Some(v) = after_prefix(line, "fact_value_hex="@) {
        if hex_ok(v) {
            let value = unhex_text(v);
            let subject = if st.seen_subject {
                st.subject
            } else {
                value
            };
            let texts = match st.pending_name {
                Some(name) => st.texts.push((name, value)),
                None => st.texts,
            };
            Some(
                ParseState {
                    subject,
                    seen_subject: true,
                    texts,
                    pending_name: None,
                    ..st
                },
            )
        } else {
            None
        }
    } else if let Some(v) = after_prefix(line, "fact_name_hex="@) {
        if hex_ok(v) {
            Some(ParseState { pending_name: Some(unhex_text(v)), ..st })
        } else {
            None
        }
    } else if let Some(v) = after_prefix(line, "fact_value_int="@) {
        Some(ParseState { ints: st.ints.push(number_or_zero(v)), ..st })
    } else if let Some(v) = after_prefix(line, "context_key_hex="@) {
        if hex_ok(v) {
            Some(ParseState { pending_key: Some(unhex_text(v)), ..st })
        } else {
            None
        }
    } else if let Some(v) = after_prefix(line, "context_value_hex="@) {
        match st.pending_key {
            Some(key) => if hex_ok(v) {
                Some(
                    ParseState {
                        context: st.context.push((key, unhex_text(v))),
                        pending_key: None,
                        ..st
                    },
                )
            } else {
                None
            },
            None => Some(st),
        }
    } else {
        Some(st)
    }
}

/// The lines read in order; `None` once a line cannot be read.
pub open spec fn parse_lines(lines: Seq<Seq<char>>) -> Option<ParseState>
    decreases lines.len(),
{
    if lines.len() == 0 {
        Some(initial_state())
    } else {
        match parse_lines(lines.drop_last()) {
            Some(st) => parse_step(st, lines.last()),
            None => None,
        }
    }
}

/// The value of the first context entry under `key`.
pub open spec fn ctx_lookup(ctx: Seq<(Seq<char>, Seq<char>)>, key: Seq<char>) -> Option<Seq<char>>
    decreases ctx.len(),
{
    if ctx.len() == 0 {
        None
    } else if ctx[0].0 == key {
        Some(ctx[0].1)
    } else {
        ctx_lookup(ctx.drop_first(), key)
    }
}

/// The value of the first context entry under `key`, when not blank.
pub open spec fn ctx_filled(ctx: Seq<(Seq<char>, Seq<char>)>, key: Seq<char>) -> Option<Seq<char>> {
    match ctx_lookup(ctx, key) {
        Some(v) => if blank(v) {
            None
        } else {
            Some(v)
        },
        None => None,
    }
}

/// The value of the first text fact named `CoMember`.
pub open spec fn co_member(texts: Seq<(Seq<char>, Seq<char>)>) -> Option<Seq<char>> {
    ctx_lookup(texts, "CoMember"@)
}

/// The `i`-th integer fact, zero when absent.
pub open spec fn int_at(ints: Seq<u64>, i: int) -> u64 {
    if 0 <= i < ints.len() {
        ints[i]
    } else {
        0
    }
}

/// One parsed observation record.
pub enum RecordModel {
    Surface(EventModel),
    Input(EventModel),
    Production(u64, Seq<char>),
    Declaration(Seq<char>, Seq<char>),
}

/// The record the lines of a read state make.
pub open spec fn record_of(st: ParseState) -> Option<RecordModel> {
    let ts_ms = st.nanos / 1_000_000;
    let subject = st.subject;
    if ts_ms == 0 || subject.len() == 0 {
        None
    } else if st.schema == "OBS-WINDOW-FOCUS-GAINED"@ {
        let (url, document_path) = route(
            subject,
            ctx_filled(st.context, "observed_state.document_locator"@),
        );
        let window_title = match ctx_filled(st.context, "observed_state.window_title"@) {
            Some(t) => t,
            None => if url is None && document_path is None {
                subject
            } else {
                Seq::empty()
            },
        };
        let app_name = match ctx_filled(st.context, "owning_process_name"@) {
            Some(n) => n,
            None => if url is Some {
                "Browser"@
            } else {
                window_title
            },
        };
        Some(
            RecordModel::Surface(
                EventModel {
                    timestamp_ms: ts_ms,
                    app_name,
                    window_title,
                    url,
                    document_path,
                    typed: false,
                    dwell_ms: 5_000,
                    keys: 0,
                    clicks: 0,
                    scrolls: 0,
                },
            ),
        )
    } else if st.schema == "OBS-URL-NAVIGATED"@ {
        Some(
            RecordModel::Surface(
                EventModel {
                    timestamp_ms: ts_ms,
                    app_name: "Browser"@,
                    window_title: Seq::empty(),
                    url: route(subject, None).0,
                    document_path: None,
                    typed: false,
                    dwell_ms: 10_000,
                    keys: 0,
                    clicks: 0,
                    scrolls: 0,
                },
            ),
        )
    } else if st.schema == "OBS-FILE-SAVED"@ {
        Some(RecordModel::Production(ts_ms, normalize_save(subject)))
    } else if st.schema == "OBS-WORK-GROUPED"@ {
        match co_member(st.texts) {
            Some(c) => if blank(c) || blank(subject) {
                None
            } else {
                Some(RecordModel::Declaration(subject, c))
            },
            None => None,
        }
    } else if st.schema == "OBS-INPUT-ACTIVITY"@ {
        let keys = int_at(st.ints, 0);
        let clicks = int_at(st.ints, 1);
        let scrolls = int_at(st.ints, 2);
        if keys == 0 && clicks == 0 && scrolls == 0 {
            None
        } else {
            let (url, document_path) = route(subject, None);
            let window_title = if url is None && document_path is None {
                subject
            } else {
                Seq::empty()
            };
            Some(
                RecordModel::Input(
                    EventModel {
                        timestamp_ms: ts_ms,
                        app_name: window_title,
                        window_title,
                        url,
                        document_path,
                        typed: keys > 0,
                        dwell_ms: 10_000,
                        keys,
                        clicks,
                        scrolls,
                    },
                ),
            )
        }
    } else {
        None
    }
}

/// The records whose lines can all be read.
pub open spec fn record_readable(record: Seq<char>) -> bool {
    parse_lines(text_lines(record)) is Some
}

/// What a record parses to.
pub open spec fn parsed_record(record: Seq<char>) -> Option<RecordModel> {
    match parse_lines(text_lines(record)) {
        Some(st) => record_of(st),
        None => None,
    }
}

/// One parsed observation record.
#[derive(Debug, Clone, PartialEq, Eq)]
pub enum ParsedRecord {
    /// A focus or URL event: an attention surface that creates identity.
    Surface(ObservedEvent),
    /// An input-activity bucket: presence evidence.
    Input(ObservedEvent),
    /// A file save: production, attributed only when a surface names it.
    Production(ProductionSave),
    /// The person declared two subjects the same work.
    Declaration(String, String),
}

impl View for ParsedRecord {
    type V = RecordModel;

    open spec fn view(&self) -> RecordModel {
        match self {
            ParsedRecord::Surface(e) => RecordModel::Surface(e@),
            ParsedRecord::Input(e) => RecordModel::Input(e@),
            ParsedRecord::Production(s) => RecordModel::Production(s.timestamp_ms, s.path@),
            ParsedRecord::Declaration(a, b) => RecordModel::Declaration(a@, b@),
        }
    }
}

/// The characters of each pair of strings.
pub open spec fn text_pairs(v: Seq<(String, String)>) -> Seq<(Seq<char>, Seq<char>)> {
    v.map_values(|p: (String, String)| (p.0@, p.1@))
}

struct Parser {
    schema: String,
    nanos: u64,
    subject: String,
    context: Vec<(String, String)>,
    ints: Vec<u64>,
    texts: Vec<(String, String)>,
    seen_subject: bool,
    pending_key: Option<String>,
    pending_name: Option<String>,
}

impl View for Parser {
    type V = ParseState;

    closed spec fn view(&self) -> ParseState {
        ParseState {
            schema: self.schema@,
            nanos: self.nanos,
            subject: self.subject@,
            context: text_pairs(self.context@),
            ints: self.ints@,
            texts: text_pairs(self.texts@),
            seen_subject: self.seen_subject,
            pending_key: crate::ledger::event::opt_chars(self.pending_key),
            pending_name: crate::ledger::event::opt_chars(self.pending_name),
        }
    }
}

fn strip_lit(line: &Vec<char>, lit: &str) -> (r: Option<String>)
    ensures
        match r {
            Some(v) => after_prefix(line@, lit@) == Some(v@),
            None => after_prefix(line@, lit@) is None,
        },
{
    let p = chars_of(lit);
    assert(line@.subrange(0, line@.len() as int) =~= line@);
    if prefix_at(line, 0, &p) {
        let v = slice(line, p.len(), line.len());
        assert(v@ =~= line@.skip(lit@.len() as int));
        Some(string_of(&v))
    } else {
        None
    }
}

fn number_or_zero_of(v: &str) -> (r: u64)
    ensures
        r == number_or_zero(v@),
{
    match parse_u64(v) {
        Some(n) => n,
        None => 0,
    }
}

fn observed_nanos_of(v: &str) -> (r: Option<(u64, u64)>)
    ensures
        match r {
            Some((s, n)) => observed_nanos(v@) == Some(s * 1_000_000_000 + n),
            None => observed_nanos(v@) is None,
        },
{
    let cs = chars_of(v);
    let mut lo: usize = 0;
    assert(cs@.skip(0) =~= cs@);
    while lo < cs.len() && cs[lo] == '+'
        invariant
            lo <= cs.len(),
            trim_plus(cs@) == trim_plus(cs@.skip(lo as int)),
        decreases cs.len() - lo,
    {
        assert(cs@.skip(lo as int).drop_first() =~= cs@.skip(lo + 1));
        lo = lo + 1;
    }
    let t = slice(&cs, lo, cs.len());
    assert(t@ =~= cs@.skip(lo as int));
    assert(trim_plus(t@) == t@);
    match crate::chars::split_once_char(&t, ':') {
        Some((a, b)) => {
            let sa = string_of(&a);
            let sb = string_of(&b);
            Some((number_or_zero_of(sa.as_str()), number_or_zero_of(sb.as_str())))
        },
        None => None,
    }
}

fn lookup_pair(v: &Vec<(String, String)>, key: &str) -> (r: Option<String>)
    ensures
        crate::ledger::event::opt_chars(r) == ctx_lookup(text_pairs(v@), key@),
{
    let ghost t = text_pairs(v@);
    let mut i: usize = 0;
    assert(t.skip(0) =~= t);
    while i < v.len()
        invariant
            i <= v.len(),
            t == text_pairs(v@),
            ctx_lookup(t, key@) == ctx_lookup(t.skip(i as int), key@),
        decreases v.len() - i,
    {
        assert(t.skip(i as int)[0] == (v@[i as int].0@, v@[i as int].1@));
        if str_eq(v[i].0.as_str(), key) {
            return Some(v[i].1.clone());
        }
        assert(t.skip(i as int).drop_first() =~= t.skip(i + 1));
        i = i + 1;
    }
    None
}

fn lookup_filled(v: &Vec<(String, String)>, key: &str) -> (r: Option<String>)
    ensures
        crate::ledger::event::opt_chars(r) == ctx_filled(text_pairs(v@), key@),
{
    match lookup_pair(v, key) {
        Some(s) => if is_blank(s.as_str()) {
            None
        } else {
            Some(s)
        },
        None => None,
    }
}

impl Parser {
    fn new() -> (r: Parser)
        ensures
            r@ == initial_state(),
    {
        let r = Parser {
            schema: String::new(),
            nanos: 0,
            subject: String::new(),
            context: Vec::new(),
            ints: Vec::new(),
            texts: Vec::new(),
            seen_subject: false,
            pending_key: None,
            pending_name: None,
        };
        assert(r@.context =~= Seq::<(Seq<char>, Seq<char>)>::empty());
        assert(r@.texts =~= Seq::<(Seq<char>, Seq<char>)>::empty());
        r
    }

    fn try_step(&mut self, line: &Vec<char>) -> (ok: bool)
        ensures
            ok == parse_step(old(self)@, line@) is Some,
            ok ==> final(self)@ == parse_step(old(self)@, line@)->0,
    {
        if let Some(v) = strip_lit(line, "schema_name_hex=") {
            if !hex_text_ok(v.as_str()) {
                return false;
            }
            self.schema = unhex(v.as_str());
        } else if let Some(v) = strip_lit(line, "observed_at=") {
            if let Some((s, n)) = observed_nanos_of(v.as_str()) {
                match s.checked_mul(1_000_000_000) {
                    Some(m) => match m.checked_add(n) {
                        Some(t) => {
                            self.nanos = t;
                        },
                        None => {
                            return false;
                        },
                    },
                    None => {
                        return false;
                    },
                }
            }
        } else if let Some(v) = strip_lit(line, "fact_value_hex=") {
            if !hex_text_ok(v.as_str()) {
                return false;
            }
            let value = unhex(v.as_str());
            if !self.seen_subject {
                self.subject = value.clone();
                self.seen_subject = true;
            }
            if let Some(name) = self.pending_name.take() {
                let ghost before = text_pairs(self.texts@);
                self.texts.push((name, value));
                assert(text_pairs(self.texts@) =~= before.push((name@, value@)));
            }
        } else if let Some(v) = strip_lit(line, "fact_name_hex=") {
            if !hex_text_ok(v.as_str()) {
                return false;
            }
            self.pending_name = Some(unhex(v.as_str()));
        } else if let Some(v) = strip_lit(line, "fact_value_int=") {
            self.ints.push(number_or_zero_of(v.as_str()));
        } else if let Some(v) = strip_lit(line, "context_key_hex=") {
            if !hex_text_ok(v.as_str()) {
                return false;
            }
            self.pending_key = Some(unhex(v.as_str()));
        } else if let Some(v) = strip_lit(line, "context_value_hex=") {
            if self.pending_key.is_some() {
                if !hex_text_ok(v.as_str()) {
                    return false;
                }
                if let Some(key) = self.pending_key.take() {
                    let value = unhex(v.as_str());
                    let ghost before = text_pairs(self.context@);
                    self.context.push((key, value));
                    assert(text_pairs(self.context@) =~= before.push((key@, value@)));
                }
            }
        }
        true
    }
}

/// Whether a hex text's pairs can be sliced.
fn hex_text_ok(v: &str) -> (r: bool)
    ensures
        r == hex_ok(v@),
{
    let b = v.as_bytes();
    if b.len() % 2 == 1 {
        return false;
    }
    let mut i: usize = 0;
    while i < b.len()
        invariant
            i <= b.len(),
            b@ == encode_utf8(v@),
            forall|j: int| 0 <= j < i && j % 2 == 0 ==> !is_continuation_byte(#[trigger] b@[j]),
        decreases b.len() - i,
    {
        if i % 2 == 0 && 0x80 <= b[i] && b[i] <= 0xbf {
            assert(is_continuation_byte(b@[i as int]));
            return false;
        }
        i = i + 1;
    }
    true
}

fn route_of(subject: &str, locator: Option<&str>) -> (r: (Option<String>, Option<String>))
    ensures
        (crate::ledger::event::opt_chars(r.0), crate::ledger::event::opt_chars(r.1)) == route(
            subject@,
            match locator {
                Some(l) => Some(l@),
                None => None,
            },
        ),
{
    let effective = match locator {
        Some(l) => l,
        None => subject,
    };
    if crate::text::starts_with(effective, "http://") || crate::text::starts_with(
        effective,
        "https://",
    ) {
        return (Some(to_owned_string(effective)), None);
    }
    let e = chars_of(effective);
    let f = chars_of("file://");
    if crate::text::starts_with(effective, "file://") && e.len() > f.len() {
        let path = slice(&e, f.len(), e.len());
        assert(path@ =~= effective@.skip("file://"@.len() as int));
        return (None, Some(string_of(&path)));
    }
    if locator.is_some() && e.len() > 0 && e[0] == '/' {
        return (None, Some(to_owned_string(effective)));
    }
    (None, None)
}

fn event(
    timestamp_ms: u64,
    app_name: String,
    window_title: String,
    route: (Option<String>, Option<String>),
    typed: bool,
    dwell_ms: u64,
    counts: (u64, u64, u64),
) -> (r: ObservedEvent)
    ensures
        r@ == (EventModel {
            timestamp_ms,
            app_name: app_name@,
            window_title: window_title@,
            url: crate::ledger::event::opt_chars(route.0),
            document_path: crate::ledger::event::opt_chars(route.1),
            typed,
            dwell_ms,
            keys: counts.0,
            clicks: counts.1,
            scrolls: counts.2,
        }),
{
    ObservedEvent {
        timestamp_ms,
        app_name,
        window_title,
        url: route.0,
        document_path: route.1,
        typed,
        dwell_ms,
        keys: counts.0,
        clicks: counts.1,
        scrolls: counts.2,
    }
}

fn finish(p: &Parser) -> (r: Option<ParsedRecord>)
    ensures
        match r {
            Some(rec) => record_of(p@) == Some(rec@),
            None => record_of(p@) is None,
        },
{
    let ts_ms = p.nanos / 1_000_000;
    if ts_ms == 0 || p.subject.as_str().is_empty() {
        return None;
    }
    let subject = p.subject.as_str();
    if str_eq(p.schema.as_str(), "OBS-WINDOW-FOCUS-GAINED") {
        let locator = lookup_filled(&p.context, "observed_state.document_locator");
        let loc: Option<&str> = match &locator {
            Some(l) => Some(l.as_str()),
            None => None,
        };
        let (url, document_path) = route_of(subject, loc);
        let window_title = match lookup_filled(&p.context, "observed_state.window_title") {
            Some(t) => t,
            None => if url.is_none() && document_path.is_none() {
                p.subject.clone()
            } else {
                String::new()
            },
        };
        let app_name = match lookup_filled(&p.context, "owning_process_name") {
            Some(n) => n,
            None => if url.is_some() {
                to_owned_string("Browser")
            } else {
                window_title.clone()
            },
        };
        Some(
            ParsedRecord::Surface(
                event(ts_ms, app_name, window_title, (url, document_path), false, 5_000, (0, 0, 0)),
            ),
        )
    } else if str_eq(p.schema.as_str(), "OBS-URL-NAVIGATED") {
        let (url, _) = route_of(subject, None);
        Some(
            ParsedRecord::Surface(
                event(
                    ts_ms,
                    to_owned_string("Browser"),
                    String::new(),
                    (url, None),
                    false,
                    10_000,
                    (0, 0, 0),
                ),
            ),
        )
    } else if str_eq(p.schema.as_str(), "OBS-FILE-SAVED") {
        Some(
            ParsedRecord::Production(
                ProductionSave { timestamp_ms: ts_ms, path: normalize_save_path(subject) },
            ),
        )
    } else if str_eq(p.schema.as_str(), "OBS-WORK-GROUPED") {
        match lookup_pair(&p.texts, "CoMember") {
            Some(c) => if is_blank(c.as_str()) || is_blank(subject) {
                None
            } else {
                Some(ParsedRecord::Declaration(p.subject.clone(), c))
            },
            None => None,
        }
    } else if str_eq(p.schema.as_str(), "OBS-INPUT-ACTIVITY") {
        let keys = if p.ints.len() > 0 {
            p.ints[0]
        } else {
            0
        };
        let clicks = if p.ints.len() > 1 {
            p.ints[1]
        } else {
            0
        };
        let scrolls = if p.ints.len() > 2 {
            p.ints[2]
        } else {
            0
        };
        if keys == 0 && clicks == 0 && scrolls == 0 {
            return None;
        }
        let (url, document_path) = route_of(subject, None);
        let window_title = if url.is_none() && document_path.is_none() {
            p.subject.clone()
        } else {
            String::new()
        };
        Some(
            ParsedRecord::Input(
                event(
                    ts_ms,
                    window_title.clone(),
                    window_title,
                    (url, document_path),
                    keys > 0,
                    10_000,
                    (keys, clicks, scrolls),
                ),
            ),
        )
    } else {
        None
    }
}

/// Parses one observation-v1 record when every line can be read; `None`
/// exactly when some line would slice a hex text inside a character or
/// overflow the timestamp. Otherwise the parsed record, if any.
pub fn try_parse_record(record: &str) -> (r: Option<Option<ParsedRecord>>)
    ensures
        r is Some <==> record_readable(record@),
        r matches Some(x) ==> match x {
            Some(rec) => parsed_record(record@) == Some(rec@),
            None => parsed_record(record@) is None,
        },
{
    let cs = chars_of(record);
    let lines = lines_of(&cs);
    let ghost lv = piece_views(lines@);
    let mut p = Parser::new();
    let mut i: usize = 0;
    assert(lv.take(0) =~= Seq::<Seq<char>>::empty());
    while i < lines.len()
        invariant
            i <= lines.len(),
            lv == piece_views(lines@),
            lv == text_lines(record@),
            parse_lines(lv.take(i as int)) == Some(p@),
        decreases lines.len() - i,
    {
        proof {
            assert(lv.take(i + 1).drop_last() =~= lv.take(i as int));
            assert(lv.take(i + 1).last() == lines@[i as int]@);
        }
        if !p.try_step(&lines[i]) {
            proof {
                if parse_lines(lv) is Some {
                    lemma_parse_prefix(lv, i + 1);
                }
            }
            return None;
        }
        i = i + 1;
    }
    assert(lv.take(lines.len() as int) =~= lv);
    Some(finish(&p))
}

/// Parses one observation-v1 record: its lines fill the schema, the
/// timestamp, the subject (the first fact value), the facts and the
/// context, and the schema decides what the record is.
pub fn parse_observation_record(record: &str) -> (r: Option<ParsedRecord>)
    requires
        record_readable(record@),
    ensures
        match r {
            Some(rec) => parsed_record(record@) == Some(rec@),
            None => parsed_record(record@) is None,
        },
{
    match try_parse_record(record) {
        Some(x) => x,
        None => None,
    }
}

proof fn lemma_parse_prefix(lines: Seq<Seq<char>>, k: int)
    requires
        0 <= k <= lines.len(),
        parse_lines(lines) is Some,
    ensures
        parse_lines(lines.take(k)) is Some,
    decreases lines.len() - k,
{
    if k < lines.len() {
        lemma_parse_prefix(lines, k + 1);
        assert(lines.take(k + 1).drop_last() =~= lines.take(k));
    } else {
        assert(lines.take(k) =~= lines);
    }
}


// ── The log ────────────────────────────────────────────────────────────────

/// `std::str::from_utf8(bytes).ok()`, owned: the text when the bytes are
/// valid UTF-8, and nothing otherwise.
#[verifier::external_body]
fn utf8_text(bytes: &Vec<u8>) -> (r: Option<String>)
    ensures
        r is Some <==> valid_utf8(bytes@),
        r matches Some(s) ==> s@ == decode_utf8(bytes@),
{
    std::str::from_utf8(bytes.as_slice()).ok().map(|s| s.to_string())
}

/// `k` is the first newline at or after `from`.
pub open spec fn is_first_nl(d: Seq<u8>, from: int, k: int) -> bool {
    from <= k < d.len() && d[k] == 10 && forall|j: int| from <= j < k ==> d[j] != 10
}

/// `text.parse::<usize>()`.
pub open spec fn parse_usize_spec(s: Seq<char>) -> Option<usize> {
    match parse_u64_spec(s) {
        Some(n) => if n <= usize::MAX {
            Some(n as usize)
        } else {
            None
        },
        None => None,
    }
}

/// The record length a header line announces: valid UTF-8 whose trimmed
/// text is a `usize`.
pub open spec fn header_length(h: Seq<u8>) -> Option<usize> {
    if valid_utf8(h) {
        parse_usize_spec(crate::text::trim(decode_utf8(h)))
    } else {
        None
    }
}

/// What the frame at `offset` is: the end of reading, a record end that
/// overflows `usize`, or a record body and the offset after it.
pub enum Frame {
    Stop,
    Overflow,
    Body(Seq<u8>, int),
}

/// The frame at `offset`: a length line, then that many bytes, then a
/// separator. An incomplete or malformed frame ends the reading.
pub open spec fn frame_at(d: Seq<u8>, offset: int) -> Frame {
    if offset < 0 || offset >= d.len() || !(exists|k: int| is_first_nl(d, offset, k)) {
        Frame::Stop
    } else {
        let k = choose|k: int| is_first_nl(d, offset, k);
        match header_length(d.subrange(offset, k)) {
            None => Frame::Stop,
            Some(len) => {
                let end = k + 1 + len;
                if end > usize::MAX {
                    Frame::Overflow
                } else if end > d.len() {
                    Frame::Stop
                } else {
                    Frame::Body(d.subrange(k + 1, end), end + 1)
                }
            },
        }
    }
}

/// The record bodies framed from `offset` on; `None` where a record end
/// overflows `usize`.
pub open spec fn frames_from(d: Seq<u8>, offset: int) -> Option<Seq<Seq<u8>>>
    decreases d.len() - offset,
{
    match frame_at(d, offset) {
        Frame::Stop => Some(Seq::empty()),
        Frame::Overflow => None,
        Frame::Body(b, next) => if next >= d.len() || next <= offset {
            Some(seq![b])
        } else {
            match frames_from(d, next) {
                Some(rest) => Some(seq![b] + rest),
                None => None,
            }
        },
    }
}

/// The parts a log holds: attention surfaces, input buckets, saves and
/// declarations, each in log order.
pub struct LogModel {
    pub surfaces: Seq<EventModel>,
    pub inputs: Seq<EventModel>,
    pub saves: Seq<(u64, Seq<char>)>,
    pub declared: Seq<(Seq<char>, Seq<char>)>,
}

/// The log parts after one more record.
pub open spec fn add_record(m: LogModel, r: Option<RecordModel>) -> LogModel {
    match r {
        Some(RecordModel::Surface(e)) => LogModel { surfaces: m.surfaces.push(e), ..m },
        Some(RecordModel::Input(e)) => LogModel { inputs: m.inputs.push(e), ..m },
        Some(RecordModel::Production(t, p)) => LogModel { saves: m.saves.push((t, p)), ..m },
        Some(RecordModel::Declaration(a, b)) => LogModel { declared: m.declared.push((a, b)), ..m },
        None => m,
    }
}

/// The parts of the records whose bodies are `frames`.
pub open spec fn log_model(frames: Seq<Seq<u8>>) -> LogModel
    decreases frames.len(),
{
    if frames.len() == 0 {
        LogModel {
            surfaces: Seq::empty(),
            inputs: Seq::empty(),
            saves: Seq::empty(),
            declared: Seq::empty(),
        }
    } else {
        add_record(log_model(frames.drop_last()), parsed_record(utf8_lossy(frames.last())))
    }
}

/// The logs that can be read through: every frame's end fits `usize` and
/// every record can be read.
pub open spec fn log_readable(d: Seq<u8>) -> bool {
    frames_from(d, 0) matches Some(fs) && forall|i: int|
        0 <= i < fs.len() ==> record_readable(utf8_lossy(#[trigger] fs[i]))
}

/// The characters of each saved path, with its time.
pub open spec fn save_views(v: Seq<ProductionSave>) -> Seq<(u64, Seq<char>)> {
    v.map_values(|s: ProductionSave| (s.timestamp_ms, s.path@))
}

/// The content of each event.
pub open spec fn event_views(v: Seq<ObservedEvent>) -> Seq<EventModel> {
    v.map_values(|e: ObservedEvent| e@)
}

/// The parts read from a log: surfaces, inputs, saves, declarations.
pub struct LogParts {
    pub surfaces: Vec<ObservedEvent>,
    pub inputs: Vec<ObservedEvent>,
    pub saves: Vec<ProductionSave>,
    pub declared: Vec<(String, String)>,
}

impl View for LogParts {
    type V = LogModel;

    open spec fn view(&self) -> LogModel {
        LogModel {
            surfaces: event_views(self.surfaces@),
            inputs: event_views(self.inputs@),
            saves: save_views(self.saves@),
            declared: text_pairs(self.declared@),
        }
    }
}

fn byte_range(d: &[u8], lo: usize, hi: usize) -> (r: Vec<u8>)
    requires
        lo <= hi <= d@.len(),
    ensures
        r@ == d@.subrange(lo as int, hi as int),
{
    let mut r: Vec<u8> = Vec::new();
    let mut i = lo;
    while i < hi
        invariant
            lo <= i <= hi <= d@.len(),
            r@ == d@.subrange(lo as int, i as int),
        decreases hi - i,
    {
        r.push(d[i]);
        i = i + 1;
        assert(r@ =~= d@.subrange(lo as int, i as int));
    }
    r
}

fn header_len(h: &Vec<u8>) -> (r: Option<usize>)
    ensures
        r == header_length(h@),
{
    match utf8_text(h) {
        Some(t) => {
            let tt = crate::text::trimmed(t.as_str());
            match parse_u64(tt.as_str()) {
                Some(n) => if n <= usize::MAX as u64 {
                    Some(n as usize)
                } else {
                    None
                },
                None => None,
            }
        },
        None => None,
    }
}

fn first_newline(d: &[u8], from: usize) -> (r: Option<usize>)
    requires
        from <= d@.len(),
    ensures
        match r {
            Some(k) => is_first_nl(d@, from as int, k as int),
            None => !exists|k: int| is_first_nl(d@, from as int, k),
        },
{
    let mut i = from;
    while i < d.len()
        invariant
            from <= i <= d@.len(),
            forall|j: int| from <= j < i ==> d@[j] != 10,
        decreases d.len() - i,
    {
        if d[i] == 10u8 {
            return Some(i);
        }
        i = i + 1;
    }
    proof {
        if exists|k: int| is_first_nl(d@, from as int, k) {
            let k = choose|k: int| is_first_nl(d@, from as int, k);
            assert(d@[k] == 10);
        }
    }
    None
}

proof fn lemma_first_nl_unique(d: Seq<u8>, from: int, k: int)
    requires
        is_first_nl(d, from, k),
    ensures
        (choose|j: int| is_first_nl(d, from, j)) == k,
{
    let j = choose|j: int| is_first_nl(d, from, j);
    assert(is_first_nl(d, from, j));
    if j < k {
        assert(d[j] != 10);
    }
    if k < j {
        assert(d[k] != 10);
    }
}

fn push_record(parts: &mut LogParts, rec: Option<ParsedRecord>)
    ensures
        final(parts)@ == add_record(
            old(parts)@,
            match rec {
                Some(r) => Some(r@),
                None => None,
            },
        ),
{
    match rec {
        Some(ParsedRecord::Surface(e)) => {
            let ghost before = parts@;
            parts.surfaces.push(e);
            assert(parts@.surfaces =~= before.surfaces.push(e@));
        },
        Some(ParsedRecord::Input(e)) => {
            let ghost before = parts@;
            parts.inputs.push(e);
            assert(parts@.inputs =~= before.inputs.push(e@));
        },
        Some(ParsedRecord::Production(s)) => {
            let ghost before = parts@;
            parts.saves.push(s);
            assert(parts@.saves =~= before.saves.push((s.timestamp_ms, s.path@)));
        },
        Some(ParsedRecord::Declaration(a, b)) => {
            let ghost before = parts@;
            parts.declared.push((a, b));
            assert(parts@.declared =~= before.declared.push((a@, b@)));
        },
        None => {},
    }
}

enum ExecFrame {
    Stop,
    Overflow,
    Body(Vec<u8>, usize),
}

fn next_frame(data: &[u8], offset: usize) -> (r: ExecFrame)
    requires
        offset <= data@.len(),
    ensures
        match r {
            ExecFrame::Stop => frame_at(data@, offset as int) is Stop,
            ExecFrame::Overflow => frame_at(data@, offset as int) is Overflow,
            ExecFrame::Body(b, end) => end <= data@.len() && end >= offset && frame_at(
                data@,
                offset as int,
            ) == Frame::Body(b@, end + 1),
        },
{
    if offset >= data.len() {
        return ExecFrame::Stop;
    }
    let k = match first_newline(data, offset) {
        Some(k) => k,
        None => {
            return ExecFrame::Stop;
        },
    };
    proof {
        lemma_first_nl_unique(data@, offset as int, k as int);
    }
    let header = byte_range(data, offset, k);
    let len = match header_len(&header) {
        Some(l) => l,
        None => {
            return ExecFrame::Stop;
        },
    };
    let start = k + 1;
    if len > usize::MAX - start {
        return ExecFrame::Overflow;
    }
    let end = start + len;
    if end > data.len() {
        return ExecFrame::Stop;
    }
    ExecFrame::Body(byte_range(data, start, end), end)
}

/// The log parts before reading anything.
pub open spec fn empty_log() -> LogModel {
    LogModel {
        surfaces: Seq::empty(),
        inputs: Seq::empty(),
        saves: Seq::empty(),
        declared: Seq::empty(),
    }
}

/// Reads the records of an observation log, or `None` exactly when the log
/// cannot be read through: a record end overflowing `usize`, or a record
/// with a line that cannot be read.
pub fn try_read_log(data: &[u8]) -> (r: Option<LogParts>)
    ensures
        r is Some <==> log_readable(data@),
        r matches Some(p) ==> p@ == log_model(frames_from(data@, 0)->0),
{
    let ghost d = data@;
    let mut parts = LogParts {
        surfaces: Vec::new(),
        inputs: Vec::new(),
        saves: Vec::new(),
        declared: Vec::new(),
    };
    assert(parts@.surfaces =~= empty_log().surfaces);
    assert(parts@.inputs =~= empty_log().inputs);
    assert(parts@.saves =~= empty_log().saves);
    assert(parts@.declared =~= empty_log().declared);
    assert(log_model(Seq::<Seq<u8>>::empty()) == empty_log());
    let ghost mut done: Seq<Seq<u8>> = Seq::empty();
    assert(done + frames_from(d, 0)->0 =~= frames_from(d, 0)->0);
    let mut offset: usize = 0;
    loop
        invariant
            d == data@,
            offset <= d.len(),
            frames_from(d, 0) == match frames_from(d, offset as int) {
                Some(rest) => Some(done + rest),
                None => None,
            },
            forall|i: int| 0 <= i < done.len() ==> record_readable(utf8_lossy(#[trigger] done[i])),
            parts@ == log_model(done),
        ensures
            frames_from(d, 0) == Some(done),
            forall|i: int| 0 <= i < done.len() ==> record_readable(utf8_lossy(#[trigger] done[i])),
            parts@ == log_model(done),
        decreases d.len() - offset,
    {
        match next_frame(data, offset) {
            ExecFrame::Stop => {
                assert(frames_from(d, offset as int) == Some(Seq::<Seq<u8>>::empty()));
                assert(done + Seq::<Seq<u8>>::empty() =~= done);
                break;
            },
            ExecFrame::Overflow => {
                return None;
            },
            ExecFrame::Body(body, end) => {
                let text = lossy_text(&body);
                let ghost rec = body@;
                let ghost rest = if end + 1 >= d.len() {
                    Seq::<Seq<u8>>::empty()
                } else {
                    frames_from(d, end + 1)->0
                };
                match try_parse_record(text.as_str()) {
                    Some(x) => {
                        push_record(&mut parts, x);
                    },
                    None => {
                        proof {
                            if frames_from(d, 0) is Some {
                                let fs = frames_from(d, 0)->0;
                                assert(fs == done + (seq![rec] + rest));
                                assert(fs[done.len() as int] == rec);
                            }
                        }
                        return None;
                    },
                }
                proof {
                    assert(done.push(rec).drop_last() =~= done);
                    assert(forall|i: int| 0 <= i < done.len() ==> done.push(rec)[i] == done[i]);
                    if end + 1 < d.len() {
                        if frames_from(d, end + 1) is Some {
                            assert(done + (seq![rec] + rest) =~= done.push(rec) + rest);
                        }
                    } else {
                        assert(done + seq![rec] =~= done.push(rec));
                        assert(done.push(rec) + Seq::<Seq<u8>>::empty() =~= done.push(rec));
                    }
                    done = done.push(rec);
                }
                if end >= data.len() - 1 {
                    offset = data.len();
                } else {
                    offset = end + 1;
                }
            },
        }
    }
    Some(parts)
}

/// Reads the records of an observation log: surfaces, inputs, saves and
/// declarations, each in log order.
pub fn read_log(data: &[u8]) -> (r: LogParts)
    requires
        log_readable(data@),
    ensures
        r@ == log_model(frames_from(data@, 0)->0),
{
    match try_read_log(data) {
        Some(p) => p,
        None => LogParts {
            surfaces: Vec::new(),
            inputs: Vec::new(),
            saves: Vec::new(),
            declared: Vec::new(),
        },
    }
}


/// The integer facts of a record's lines: the values of its
/// `fact_value_int=` lines, in order, unreadable values as zero.
pub open spec fn int_facts(lines: Seq<Seq<char>>) -> Seq<u64>
    decreases lines.len(),
{
    if lines.len() == 0 {
        Seq::empty()
    } else if has_prefix(lines.last(), "fact_value_int="@) {
        int_facts(lines.drop_last()).push(number_or_zero(lines.last().skip(15)))
    } else {
        int_facts(lines.drop_last())
    }
}

proof fn lemma_int_line_prefixes(line: Seq<char>)
    requires
        has_prefix(line, "fact_value_int="@),
    ensures
        "fact_value_int="@.len() == 15,
        !has_prefix(line, "schema_name_hex="@),
        !has_prefix(line, "observed_at="@),
        !has_prefix(line, "fact_value_hex="@),
        !has_prefix(line, "fact_name_hex="@),
{
    reveal_strlit("fact_value_int=");
    reveal_strlit("schema_name_hex=");
    reveal_strlit("observed_at=");
    reveal_strlit("fact_value_hex=");
    reveal_strlit("fact_name_hex=");
    let p = line.subrange(0, 15);
    assert(p == "fact_value_int="@);
    assert(p[0] == 'f' && p[5] == 'v' && p[11] == 'i');
    assert(line[0] == p[0] && line[5] == p[5] && line[11] == p[11]);
    if has_prefix(line, "schema_name_hex="@) {
        assert(line.subrange(0, 16)[0] == 's');
    }
    if has_prefix(line, "observed_at="@) {
        assert(line.subrange(0, 12)[0] == 'o');
    }
    if has_prefix(line, "fact_value_hex="@) {
        assert(line.subrange(0, 15)[11] == 'h');
    }
    if has_prefix(line, "fact_name_hex="@) {
        assert(line.subrange(0, 14)[5] == 'n');
    }
}

proof fn lemma_parsed_ints(lines: Seq<Seq<char>>)
    ensures
        parse_lines(lines) matches Some(st) ==> st.ints == int_facts(lines),
    decreases lines.len(),
{
    if lines.len() > 0 {
        lemma_parsed_ints(lines.drop_last());
        let l = lines.last();
        if has_prefix(l, "fact_value_int="@) {
            lemma_int_line_prefixes(l);
        }
    }
}

/// An input-activity record's counters are its integer facts in order:
/// keys the first, clicks the second, scrolls the third (zero when the
/// record holds fewer).
pub proof fn lemma_input_counters(record: Seq<char>, e: EventModel)
    requires
        parsed_record(record) == Some(RecordModel::Input(e)),
    ensures
        ({
            let ints = int_facts(text_lines(record));
            &&& e.keys == (if ints.len() > 0 { ints[0] } else { 0 })
            &&& e.clicks == (if ints.len() > 1 { ints[1] } else { 0 })
            &&& e.scrolls == (if ints.len() > 2 { ints[2] } else { 0 })
        }),
{
    lemma_parsed_ints(text_lines(record));
}

} // verus!

