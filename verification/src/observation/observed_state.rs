//! Optional interface state directly witnessed with an Observation.
//!
//! Every field maps to a generic accessibility attribute. A missing field
//! means the state was not observable; nothing is ever inferred.

use std::collections::HashMap;
use vstd::prelude::*;
use vstd::utf8::encode_utf8;
use crate::observation::provenance::{context_entries, context_get, context_insert, context_new};
use crate::text::{chars_of, decimal, fmt_u64, lemma_parse_decimal, lemma_trim_idempotent, parse_u64,
    parse_u64_spec, to_owned_string, trim, trimmed};

verus! {

pub const DOCUMENT_LOCATOR_KEY: &'static str = "observed_state.document_locator";
pub const WINDOW_TITLE_KEY: &'static str = "observed_state.window_title";
pub const FOCUSED_ROLE_KEY: &'static str = "observed_state.focused_role";
pub const FOCUSED_IDENTIFIER_KEY: &'static str = "observed_state.focused_identifier";
pub const SELECTION_START_KEY: &'static str = "observed_state.selection_start";
pub const SELECTION_LENGTH_KEY: &'static str = "observed_state.selection_length";
pub const INSERTION_LINE_KEY: &'static str = "observed_state.insertion_line";

/// The longest text field kept, in UTF-8 bytes.
pub const MAX_TEXT_FIELD: usize = 4096;

/// A text as a field keeps it: trimmed, and only when non-empty and no
/// longer than [`MAX_TEXT_FIELD`] bytes.
pub open spec fn bounded_text(s: Seq<char>) -> Option<Seq<char>> {
    let t = trim(s);
    if t.len() > 0 && encode_utf8(t).len() <= MAX_TEXT_FIELD {
        Some(t)
    } else {
        None
    }
}

/// A text field value that [`bounded_text`] keeps unchanged.
pub open spec fn text_field_ok(f: Option<Seq<char>>) -> bool {
    f matches Some(t) ==> bounded_text(t) == Some(t)
}

/// The mathematical content of an [`ObservedState`].
pub struct StateModel {
    pub document_locator: Option<Seq<char>>,
    pub window_title: Option<Seq<char>>,
    pub focused_role: Option<Seq<char>>,
    pub focused_identifier: Option<Seq<char>>,
    pub selection: Option<(u64, u64)>,
    pub insertion_line: Option<u64>,
}

/// Every text field of the state is kept as [`bounded_text`] would keep it.
pub open spec fn state_ok(s: StateModel) -> bool {
    &&& text_field_ok(s.document_locator)
    &&& text_field_ok(s.window_title)
    &&& text_field_ok(s.focused_role)
    &&& text_field_ok(s.focused_identifier)
}

/// No field was observed.
pub open spec fn state_empty(s: StateModel) -> bool {
    &&& s.document_locator is None
    &&& s.window_title is None
    &&& s.focused_role is None
    &&& s.focused_identifier is None
    &&& s.selection is None
    &&& s.insertion_line is None
}

/// The characters of an optional string.
pub open spec fn opt_view(o: Option<String>) -> Option<Seq<char>> {
    match o {
        Some(s) => Some(s@),
        None => None,
    }
}

/// The characters of an optional borrowed string.
pub open spec fn opt_str_view(o: Option<&str>) -> Option<Seq<char>> {
    match o {
        Some(s) => Some(s@),
        None => None,
    }
}

/// `m` with `key` set to `v` when `v` is present.
pub open spec fn put(m: Map<Seq<char>, Seq<char>>, key: Seq<char>, v: Option<Seq<char>>) -> Map<
    Seq<char>,
    Seq<char>,
> {
    match v {
        Some(x) => m.insert(key, x),
        None => m,
    }
}

/// The decimal rendering of an optional number.
pub open spec fn opt_decimal(n: Option<u64>) -> Option<Seq<char>> {
    match n {
        Some(x) => Some(decimal(x as nat)),
        None => None,
    }
}

/// A context map after the state has been written into it.
pub open spec fn written(s: StateModel, m: Map<Seq<char>, Seq<char>>) -> Map<Seq<char>, Seq<char>> {
    let m1 = put(m, DOCUMENT_LOCATOR_KEY@, s.document_locator);
    let m2 = put(m1, WINDOW_TITLE_KEY@, s.window_title);
    let m3 = put(m2, FOCUSED_ROLE_KEY@, s.focused_role);
    let m4 = put(m3, FOCUSED_IDENTIFIER_KEY@, s.focused_identifier);
    let m5 = match s.selection {
        Some((start, length)) => m4.insert(SELECTION_START_KEY@, decimal(start as nat)).insert(
            SELECTION_LENGTH_KEY@,
            decimal(length as nat),
        ),
        None => m4,
    };
    put(m5, INSERTION_LINE_KEY@, opt_decimal(s.insertion_line))
}

/// A text entry of a context map, as a field keeps it.
pub open spec fn text_entry(m: Map<Seq<char>, Seq<char>>, key: Seq<char>) -> Option<Seq<char>> {
    if m.dom().contains(key) {
        bounded_text(m[key])
    } else {
        None
    }
}

/// A numeric entry of a context map, when it parses as a `u64`.
pub open spec fn number_entry(m: Map<Seq<char>, Seq<char>>, key: Seq<char>) -> Option<u64> {
    if m.dom().contains(key) {
        parse_u64_spec(m[key])
    } else {
        None
    }
}

/// The state a context map holds under the recognized keys; `None` when
/// it holds none. A selection needs both its start and its length.
pub open spec fn read_state(m: Map<Seq<char>, Seq<char>>) -> Option<StateModel> {
    let selection = match (
        number_entry(m, SELECTION_START_KEY@),
        number_entry(m, SELECTION_LENGTH_KEY@),
    ) {
        (Some(start), Some(length)) => Some((start, length)),
        _ => None,
    };
    let s = StateModel {
        document_locator: text_entry(m, DOCUMENT_LOCATOR_KEY@),
        window_title: text_entry(m, WINDOW_TITLE_KEY@),
        focused_role: text_entry(m, FOCUSED_ROLE_KEY@),
        focused_identifier: text_entry(m, FOCUSED_IDENTIFIER_KEY@),
        selection,
        insertion_line: number_entry(m, INSERTION_LINE_KEY@),
    };
    if state_empty(s) {
        None
    } else {
        Some(s)
    }
}

/// Whether `m` holds any of the recognized state keys.
pub open spec fn holds_state_key(m: Map<Seq<char>, Seq<char>>) -> bool {
    ||| m.dom().contains(DOCUMENT_LOCATOR_KEY@)
    ||| m.dom().contains(WINDOW_TITLE_KEY@)
    ||| m.dom().contains(FOCUSED_ROLE_KEY@)
    ||| m.dom().contains(FOCUSED_IDENTIFIER_KEY@)
    ||| m.dom().contains(SELECTION_START_KEY@)
    ||| m.dom().contains(SELECTION_LENGTH_KEY@)
    ||| m.dom().contains(INSERTION_LINE_KEY@)
}

proof fn reveal_keys()
    ensures
        DOCUMENT_LOCATOR_KEY@ == "observed_state.document_locator"@,
        WINDOW_TITLE_KEY@ == "observed_state.window_title"@,
        FOCUSED_ROLE_KEY@ == "observed_state.focused_role"@,
        FOCUSED_IDENTIFIER_KEY@ == "observed_state.focused_identifier"@,
        SELECTION_START_KEY@ == "observed_state.selection_start"@,
        SELECTION_LENGTH_KEY@ == "observed_state.selection_length"@,
        INSERTION_LINE_KEY@ == "observed_state.insertion_line"@,
        DOCUMENT_LOCATOR_KEY@.len() == 31,
        WINDOW_TITLE_KEY@.len() == 27,
        FOCUSED_ROLE_KEY@.len() == 27,
        FOCUSED_IDENTIFIER_KEY@.len() == 33,
        SELECTION_START_KEY@.len() == 30,
        SELECTION_LENGTH_KEY@.len() == 31,
        INSERTION_LINE_KEY@.len() == 29,
        WINDOW_TITLE_KEY@[15] == 'w',
        FOCUSED_ROLE_KEY@[15] == 'f',
        DOCUMENT_LOCATOR_KEY@[15] == 'd',
        SELECTION_LENGTH_KEY@[15] == 's',
{
    reveal_strlit("observed_state.document_locator");
    reveal_strlit("observed_state.window_title");
    reveal_strlit("observed_state.focused_role");
    reveal_strlit("observed_state.focused_identifier");
    reveal_strlit("observed_state.selection_start");
    reveal_strlit("observed_state.selection_length");
    reveal_strlit("observed_state.insertion_line");
}

/// What the state writes into a context map it reads back unchanged: a
/// non-empty state written into a context holding none of the state keys
/// is read back as the same state.
pub proof fn lemma_state_round_trip(s: StateModel, m: Map<Seq<char>, Seq<char>>)
    requires
        state_ok(s),
        !state_empty(s),
        !holds_state_key(m),
    ensures
        read_state(written(s, m)) == Some(s),
{
    reveal_keys();
    let w = written(s, m);
    if let Some((start, length)) = s.selection {
        lemma_parse_decimal(start);
        lemma_parse_decimal(length);
    }
    if let Some(line) = s.insertion_line {
        lemma_parse_decimal(line);
    }
    let r = read_state(w)->0;
    assert(text_entry(w, DOCUMENT_LOCATOR_KEY@) == s.document_locator);
    assert(text_entry(w, WINDOW_TITLE_KEY@) == s.window_title);
    assert(text_entry(w, FOCUSED_ROLE_KEY@) == s.focused_role);
    assert(text_entry(w, FOCUSED_IDENTIFIER_KEY@) == s.focused_identifier);
    assert(number_entry(w, INSERTION_LINE_KEY@) == s.insertion_line);
    if s.selection is None {
        assert(number_entry(w, SELECTION_START_KEY@) is None);
    }
}

/// One of the seven keys the state writes.
pub open spec fn is_state_key(key: Seq<char>) -> bool {
    ||| key == DOCUMENT_LOCATOR_KEY@
    ||| key == WINDOW_TITLE_KEY@
    ||| key == FOCUSED_ROLE_KEY@
    ||| key == FOCUSED_IDENTIFIER_KEY@
    ||| key == SELECTION_START_KEY@
    ||| key == SELECTION_LENGTH_KEY@
    ||| key == INSERTION_LINE_KEY@
}

/// Key `key` of `w` is `v` when `v` is present, and as in `m` otherwise.
pub open spec fn entry_after(
    w: Map<Seq<char>, Seq<char>>,
    m: Map<Seq<char>, Seq<char>>,
    key: Seq<char>,
    v: Option<Seq<char>>,
) -> bool {
    match v {
        Some(x) => w.dom().contains(key) && w[key] == x,
        None => (w.dom().contains(key) <==> m.dom().contains(key)) && (m.dom().contains(key) ==> w[key] == m[key]),
    }
}

/// Writing the state into a context touches only its own keys: every other
/// key maps as before; a field that is absent leaves its key as before;
/// each present field's key maps to its value, the selection as its
/// decimal start and length and the insertion line as its decimal.
pub proof fn lemma_written_entries(s: StateModel, m: Map<Seq<char>, Seq<char>>, key: Seq<char>)
    ensures
        !is_state_key(key) ==> entry_after(written(s, m), m, key, None),
        entry_after(written(s, m), m, DOCUMENT_LOCATOR_KEY@, s.document_locator),
        entry_after(written(s, m), m, WINDOW_TITLE_KEY@, s.window_title),
        entry_after(written(s, m), m, FOCUSED_ROLE_KEY@, s.focused_role),
        entry_after(written(s, m), m, FOCUSED_IDENTIFIER_KEY@, s.focused_identifier),
        entry_after(
            written(s, m),
            m,
            SELECTION_START_KEY@,
            match s.selection {
                Some((start, _)) => Some(decimal(start as nat)),
                None => None,
            },
        ),
        entry_after(
            written(s, m),
            m,
            SELECTION_LENGTH_KEY@,
            match s.selection {
                Some((_, length)) => Some(decimal(length as nat)),
                None => None,
            },
        ),
        entry_after(written(s, m), m, INSERTION_LINE_KEY@, opt_decimal(s.insertion_line)),
{
    reveal_keys();
}

/// The minimum generic state useful for returning inside an artifact.
#[derive(Debug, PartialEq, Eq)]
pub struct ObservedState {
    document_locator: Option<String>,
    window_title: Option<String>,
    focused_role: Option<String>,
    focused_identifier: Option<String>,
    selection: Option<(u64, u64)>,
    insertion_line: Option<u64>,
}

impl View for ObservedState {
    type V = StateModel;

    closed spec fn view(&self) -> StateModel {
        StateModel {
            document_locator: opt_view(self.document_locator),
            window_title: opt_view(self.window_title),
            focused_role: opt_view(self.focused_role),
            focused_identifier: opt_view(self.focused_identifier),
            selection: self.selection,
            insertion_line: self.insertion_line,
        }
    }
}

pub proof fn lemma_utf8_len_bounds(s: Seq<char>)
    ensures
        s.len() <= encode_utf8(s).len() <= 4 * s.len(),
    decreases s.len(),
{
    if s.len() > 0 {
        lemma_utf8_len_bounds(s.drop_first());
        let e = vstd::utf8::encode_scalar(s[0] as u32);
        assert(1 <= e.len() <= 4);
    }
}

/// `value.trim()` when it is non-empty and fits the field bound.
fn bounded(value: &str) -> (r: Option<String>)
    ensures
        opt_view(r) == bounded_text(value@),
        text_field_ok(opt_view(r)),
{
    let t = trimmed(value);
    proof {
        lemma_trim_idempotent(value@);
        lemma_utf8_len_bounds(t@);
    }
    let n = chars_of(t.as_str()).len();
    if n == 0 || n > MAX_TEXT_FIELD {
        return None;
    }
    if t.as_str().len() <= MAX_TEXT_FIELD {
        Some(t)
    } else {
        None
    }
}

fn text_field(o: &Option<String>) -> (r: Option<&str>)
    ensures
        opt_str_view(r) == opt_view(*o),
{
    match o {
        Some(s) => Some(s.as_str()),
        None => None,
    }
}

impl ObservedState {
    #[verifier::type_invariant]
    spec fn inv(&self) -> bool {
        state_ok(self@)
    }

    /// The empty state: nothing observed.
    pub fn new() -> (r: Self)
        ensures
            state_empty(r@),
    {
        ObservedState {
            document_locator: None,
            window_title: None,
            focused_role: None,
            focused_identifier: None,
            selection: None,
            insertion_line: None,
        }
    }

    /// The state with the document locator set to `value`, bounded.
    pub fn with_document_locator(self, value: &str) -> (r: Self)
        ensures
            r@ == (StateModel { document_locator: bounded_text(value@), ..self@ }),
    {
        proof {
            use_type_invariant(&self);
        }
        let v = bounded(value);
        ObservedState { document_locator: v, ..self }
    }

    /// The state with the window title set to `value`, bounded.
    pub fn with_window_title(self, value: &str) -> (r: Self)
        ensures
            r@ == (StateModel { window_title: bounded_text(value@), ..self@ }),
    {
        proof {
            use_type_invariant(&self);
        }
        let v = bounded(value);
        ObservedState { window_title: v, ..self }
    }

    /// The state with the focused role set to `value`, bounded.
    pub fn with_focused_role(self, value: &str) -> (r: Self)
        ensures
            r@ == (StateModel { focused_role: bounded_text(value@), ..self@ }),
    {
        proof {
            use_type_invariant(&self);
        }
        let v = bounded(value);
        ObservedState { focused_role: v, ..self }
    }

    /// The state with the focused identifier set to `value`, bounded.
    pub fn with_focused_identifier(self, value: &str) -> (r: Self)
        ensures
            r@ == (StateModel { focused_identifier: bounded_text(value@), ..self@ }),
    {
        proof {
            use_type_invariant(&self);
        }
        let v = bounded(value);
        ObservedState { focused_identifier: v, ..self }
    }

    /// The state with the selection `(start, length)`.
    pub fn with_selection(self, start: u64, length: u64) -> (r: Self)
        ensures
            r@ == (StateModel { selection: Some((start, length)), ..self@ }),
    {
        proof {
            use_type_invariant(&self);
        }
        ObservedState { selection: Some((start, length)), ..self }
    }

    /// The state with the insertion line.
    pub fn with_insertion_line(self, line: u64) -> (r: Self)
        ensures
            r@ == (StateModel { insertion_line: Some(line), ..self@ }),
    {
        proof {
            use_type_invariant(&self);
        }
        ObservedState { insertion_line: Some(line), ..self }
    }

    pub fn document_locator(&self) -> (r: Option<&str>)
        ensures
            opt_str_view(r) == self@.document_locator,
    {
        text_field(&self.document_locator)
    }

    pub fn window_title(&self) -> (r: Option<&str>)
        ensures
            opt_str_view(r) == self@.window_title,
    {
        text_field(&self.window_title)
    }

    pub fn focused_role(&self) -> (r: Option<&str>)
        ensures
            opt_str_view(r) == self@.focused_role,
    {
        text_field(&self.focused_role)
    }

    pub fn focused_identifier(&self) -> (r: Option<&str>)
        ensures
            opt_str_view(r) == self@.focused_identifier,
    {
        text_field(&self.focused_identifier)
    }

    pub fn selection(&self) -> (r: Option<(u64, u64)>)
        ensures
            r == self@.selection,
    {
        self.selection
    }

    pub fn insertion_line(&self) -> (r: Option<u64>)
        ensures
            r == self@.insertion_line,
    {
        self.insertion_line
    }

    /// Whether nothing was observed.
    pub fn is_empty(&self) -> (r: bool)
        ensures
            r == state_empty(self@),
    {
        self.document_locator.is_none() && self.window_title.is_none()
            && self.focused_role.is_none() && self.focused_identifier.is_none()
            && self.selection.is_none() && self.insertion_line.is_none()
    }

    /// Adds the state to an Observation provenance context.
    pub fn write_context(&self, context: &mut HashMap<String, String>)
        ensures
            context_entries(*final(context)) == written(self@, context_entries(*old(context))),
    {
        if let Some(value) = &self.document_locator {
            context_insert(context, to_owned_string(DOCUMENT_LOCATOR_KEY), value.clone());
        }
        if let Some(value) = &self.window_title {
            context_insert(context, to_owned_string(WINDOW_TITLE_KEY), value.clone());
        }
        if let Some(value) = &self.focused_role {
            context_insert(context, to_owned_string(FOCUSED_ROLE_KEY), value.clone());
        }
        if let Some(value) = &self.focused_identifier {
            context_insert(context, to_owned_string(FOCUSED_IDENTIFIER_KEY), value.clone());
        }
        if let Some((start, length)) = self.selection {
            context_insert(context, to_owned_string(SELECTION_START_KEY), fmt_u64(start));
            context_insert(context, to_owned_string(SELECTION_LENGTH_KEY), fmt_u64(length));
        }
        if let Some(line) = self.insertion_line {
            context_insert(context, to_owned_string(INSERTION_LINE_KEY), fmt_u64(line));
        }
    }

    /// Reads only recognized state keys; invalid or partial values are
    /// ignored, and a context holding no state gives `None`.
    /// The state written into a fresh context map. Reading it back gives
    /// the state again, and nothing for the empty state.
    pub fn to_context(&self) -> (r: HashMap<String, String>)
        ensures
            context_entries(r) == written(self@, Map::empty()),
            read_state(context_entries(r)) == if state_empty(self@) {
                None
            } else {
                Some(self@)
            },
    {
        proof {
            use_type_invariant(self);
        }
        let mut context = context_new();
        assert(context_entries(context) =~= Map::<Seq<char>, Seq<char>>::empty());
        self.write_context(&mut context);
        proof {
            reveal_keys();
            if state_empty(self@) {
                assert(written(self@, Map::empty()) =~= Map::<Seq<char>, Seq<char>>::empty());
            }
            if !state_empty(self@) {
                assert(!holds_state_key(Map::<Seq<char>, Seq<char>>::empty()));
                lemma_state_round_trip(self@, Map::empty());
            }
        }
        context
    }

    pub fn from_context(context: &HashMap<String, String>) -> (r: Option<Self>)
        ensures
            match r {
                Some(s) => read_state(context_entries(*context)) == Some(s@),
                None => read_state(context_entries(*context)) is None,
            },
    {
        let start = number(context, SELECTION_START_KEY);
        let length = number(context, SELECTION_LENGTH_KEY);
        let selection = match (start, length) {
            (Some(a), Some(b)) => Some((a, b)),
            _ => None,
        };
        let state = ObservedState {
            document_locator: text(context, DOCUMENT_LOCATOR_KEY),
            window_title: text(context, WINDOW_TITLE_KEY),
            focused_role: text(context, FOCUSED_ROLE_KEY),
            focused_identifier: text(context, FOCUSED_IDENTIFIER_KEY),
            selection,
            insertion_line: number(context, INSERTION_LINE_KEY),
        };
        if state.is_empty() {
            None
        } else {
            Some(state)
        }
    }
}

fn copy_text(o: &Option<String>) -> (r: Option<String>)
    ensures
        opt_view(r) == opt_view(*o),
{
    match o {
        Some(s) => Some(s.clone()),
        None => None,
    }
}

impl Default for ObservedState {
    fn default() -> (r: Self)
        ensures
            state_empty(r@),
    {
        ObservedState::new()
    }
}

impl Clone for ObservedState {
    fn clone(&self) -> (r: Self)
        ensures
            r@ == self@,
    {
        proof {
            use_type_invariant(self);
        }
        ObservedState {
            document_locator: copy_text(&self.document_locator),
            window_title: copy_text(&self.window_title),
            focused_role: copy_text(&self.focused_role),
            focused_identifier: copy_text(&self.focused_identifier),
            selection: self.selection,
            insertion_line: self.insertion_line,
        }
    }
}

fn text(context: &HashMap<String, String>, key: &str) -> (r: Option<String>)
    ensures
        opt_view(r) == text_entry(context_entries(*context), key@),
        text_field_ok(opt_view(r)),
{
    match context_get(context, key) {
        Some(v) => bounded(v.as_str()),
        None => None,
    }
}

fn number(context: &HashMap<String, String>, key: &str) -> (r: Option<u64>)
    ensures
        r == number_entry(context_entries(*context), key@),
{
    match context_get(context, key) {
        Some(v) => parse_u64(v.as_str()),
        None => None,
    }
}

} // verus!
