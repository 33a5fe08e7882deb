//! Observation Provenance: how Evidence entered Evo — its origin, the
//! wall-clock moment it was acquired, and open-ended context metadata.

use std::collections::HashMap;
use std::time::SystemTime;
use vstd::prelude::*;
use crate::text::{blank, concat3, decimal, fmt_u64, is_blank, to_owned_string};

verus! {

/// The wall-clock instant type of the standard library, carried opaquely.
#[verifier::external_type_specification]
#[verifier::external_body]
pub struct ExSystemTime(SystemTime);

/// The entries a provenance context map holds, keyed and valued by the
/// characters of its strings.
pub uninterp spec fn context_entries(m: HashMap<String, String>) -> Map<Seq<char>, Seq<char>>;

/// Looks up `key` in a context map (`HashMap::get`, cloned): the value
/// stored under a key with the same characters, if any.
#[verifier::external_body]
pub(crate) fn context_get(m: &HashMap<String, String>, key: &str) -> (r: Option<String>)
    ensures
        r is Some <==> context_entries(*m).dom().contains(key@),
        r matches Some(v) ==> v@ == context_entries(*m)[key@],
{
    m.get(key).cloned()
}

/// Stores `value` under `key` (`HashMap::insert`): the entry for `key` is
/// replaced, every other entry is kept.
#[verifier::external_body]
pub(crate) fn context_insert(m: &mut HashMap<String, String>, key: String, value: String)
    ensures
        context_entries(*final(m)) == context_entries(*old(m)).insert(key@, value@),
{
    m.insert(key, value);
}

/// A new context map (`HashMap::new`): it holds no entries.
#[verifier::external_body]
pub(crate) fn context_new() -> (r: HashMap<String, String>)
    ensures
        context_entries(r).dom().is_empty(),
{
    HashMap::new()
}

/// A copy of a context map (`HashMap::clone`): the same entries.
#[verifier::external_body]
pub(crate) fn context_clone(m: &HashMap<String, String>) -> (r: HashMap<String, String>)
    ensures
        context_entries(r) == context_entries(*m),
{
    m.clone()
}

/// The number of entries of a context map (`HashMap::len`).
#[verifier::external_body]
pub(crate) fn context_len(m: &HashMap<String, String>) -> (r: usize)
    ensures
        r == context_entries(*m).dom().len(),
{
    m.len()
}

/// Errors that can occur when constructing an [`ObservationSource`].
#[derive(Debug, Clone, PartialEq, Eq)]
pub enum SourceError {
    /// The source name was blank.
    Empty,
}

impl SourceError {
    /// The human-readable message.
    pub fn to_string(&self) -> (s: String)
        ensures
            s@ == "observation source name must not be empty"@,
    {
        to_owned_string("observation source name must not be empty")
    }
}

/// Identifies the origin of an Observation by a non-blank name.
#[derive(Debug, PartialEq, Eq, Hash)]
pub struct ObservationSource(String);

impl ObservationSource {
    /// The source name, as characters.
    pub closed spec fn spec_name(&self) -> Seq<char> {
        self.0@
    }

    #[verifier::type_invariant]
    spec fn inv(&self) -> bool {
        !blank(self.0@)
    }

    /// Constructs a source; a blank name is refused.
    pub fn new(name: &str) -> (r: Result<Self, SourceError>)
        ensures
            blank(name@) <==> r is Err,
            r matches Ok(s) ==> s.spec_name() == name@,
            r matches Err(e) ==> e == SourceError::Empty,
    {
        if is_blank(name) {
            return Err(SourceError::Empty);
        }
        Ok(ObservationSource(to_owned_string(name)))
    }

    /// The source name.
    pub fn as_str(&self) -> (r: &str)
        ensures
            r@ == self.spec_name(),
            !blank(r@),
    {
        proof {
            use_type_invariant(self);
        }
        self.0.as_str()
    }

    /// An identical copy.
    pub fn copy(&self) -> (r: Self)
        ensures
            r.spec_name() == self.spec_name(),
    {
        proof {
            use_type_invariant(self);
        }
        ObservationSource(self.0.clone())
    }

    /// The source name, owned.
    pub fn to_string(&self) -> (s: String)
        ensures
            s@ == self.spec_name(),
    {
        self.0.clone()
    }
}

impl Clone for ObservationSource {
    fn clone(&self) -> (r: Self)
        ensures
            r.spec_name() == self.spec_name(),
    {
        self.copy()
    }
}

/// Permanently records how Evidence entered Evo.
#[derive(Debug, PartialEq, Eq)]
pub struct Provenance {
    source: ObservationSource,
    observed_at: SystemTime,
    context: HashMap<String, String>,
}

impl Provenance {
    /// The origin.
    pub closed spec fn spec_source(&self) -> ObservationSource {
        self.source
    }

    /// The acquisition instant.
    pub closed spec fn spec_observed_at(&self) -> SystemTime {
        self.observed_at
    }

    /// The context metadata.
    pub closed spec fn spec_context(&self) -> HashMap<String, String> {
        self.context
    }

    /// Constructs a provenance record; construction cannot fail.
    pub fn new(source: ObservationSource, observed_at: SystemTime, context: HashMap<String, String>) -> (r: Self)
        ensures
            r.spec_source() == source,
            r.spec_observed_at() == observed_at,
            r.spec_context() == context,
    {
        Provenance { source, observed_at, context }
    }

    /// The origin of this Observation.
    pub fn source(&self) -> (r: &ObservationSource)
        ensures
            *r == self.spec_source(),
    {
        &self.source
    }

    /// The wall-clock time at which the Evidence was acquired.
    pub fn observed_at(&self) -> (r: SystemTime)
        ensures
            r == self.spec_observed_at(),
    {
        self.observed_at
    }

    /// The observation context metadata.
    pub fn context(&self) -> (r: &HashMap<String, String>)
        ensures
            *r == self.spec_context(),
    {
        &self.context
    }

    /// `Provenance { source: S, context_keys: N }`.
    pub fn to_string(&self) -> (s: String)
        ensures
            s@ == "Provenance { source: "@ + self.spec_source().spec_name() + ", context_keys: "@
                + decimal(context_entries(self.spec_context()).dom().len()) + " }"@,
    {
        let n = context_len(&self.context);
        let head = concat3("Provenance { source: ", self.source.as_str(), ", context_keys: ");
        let count = fmt_u64(n as u64);
        concat3(head.as_str(), count.as_str(), " }")
    }
}

impl Provenance {
    /// A copy with the same source, instant and context entries.
    pub fn copy(&self) -> (r: Self)
        ensures
            r.spec_source().spec_name() == self.spec_source().spec_name(),
            r.spec_observed_at() == self.spec_observed_at(),
            context_entries(r.spec_context()) == context_entries(self.spec_context()),
    {
        Provenance {
            source: self.source.copy(),
            observed_at: self.observed_at,
            context: context_clone(&self.context),
        }
    }
}

impl Clone for Provenance {
    fn clone(&self) -> (r: Self)
        ensures
            r.spec_source().spec_name() == self.spec_source().spec_name(),
            r.spec_observed_at() == self.spec_observed_at(),
            context_entries(r.spec_context()) == context_entries(self.spec_context()),
    {
        self.copy()
    }
}

} // verus!
