//! Observation Evidence: the complete, immutable collection of directly
//! observed facts produced by one Observation.

use vstd::prelude::*;
use crate::text::{blank, concat2, concat3, decimal, fmt_i64, fmt_u64, is_blank, signed_decimal,
    str_eq, to_owned_string};

verus! {

/// A primitive value carried by an [`ObservedFact`].
#[derive(Debug, PartialEq, Eq)]
pub enum FactValue {
    /// A UTF-8 text value.
    Text(String),
    /// A 64-bit signed integer.
    Integer(i64),
    /// A boolean flag.
    Boolean(bool),
    /// An opaque byte sequence.
    Bytes(Vec<u8>),
}

/// The mathematical content of a [`FactValue`].
pub enum FactValueModel {
    Text(Seq<char>),
    Integer(i64),
    Boolean(bool),
    Bytes(Seq<u8>),
}

impl View for FactValue {
    type V = FactValueModel;

    open spec fn view(&self) -> FactValueModel {
        match self {
            FactValue::Text(s) => FactValueModel::Text(s@),
            FactValue::Integer(n) => FactValueModel::Integer(*n),
            FactValue::Boolean(b) => FactValueModel::Boolean(*b),
            FactValue::Bytes(b) => FactValueModel::Bytes(b@),
        }
    }
}

/// The display text of a fact value.
pub open spec fn fact_value_text(v: FactValueModel) -> Seq<char> {
    match v {
        FactValueModel::Text(s) => "\""@ + s + "\""@,
        FactValueModel::Integer(n) => signed_decimal(n as int),
        FactValueModel::Boolean(b) => if b { "true"@ } else { "false"@ },
        FactValueModel::Bytes(b) => "<"@ + decimal(b.len()) + " bytes>"@,
    }
}

fn copy_bytes(b: &Vec<u8>) -> (r: Vec<u8>)
    ensures
        r@ == b@,
{
    let mut r: Vec<u8> = Vec::new();
    let mut i: usize = 0;
    while i < b.len()
        invariant
            i <= b.len(),
            r@ == b@.subrange(0, i as int),
        decreases b.len() - i,
    {
        r.push(b[i]);
        i = i + 1;
        assert(r@ =~= b@.subrange(0, i as int));
    }
    assert(b@.subrange(0, b@.len() as int) =~= b@);
    r
}

impl FactValue {
    /// An identical copy.
    pub fn copy(&self) -> (r: Self)
        ensures
            r@ == self@,
    {
        match self {
            FactValue::Text(s) => FactValue::Text(s.clone()),
            FactValue::Integer(n) => FactValue::Integer(*n),
            FactValue::Boolean(b) => FactValue::Boolean(*b),
            FactValue::Bytes(b) => FactValue::Bytes(copy_bytes(b)),
        }
    }

    /// The display text: quoted text, the number, the flag, or a byte count.
    pub fn to_string(&self) -> (s: String)
        ensures
            s@ == fact_value_text(self@),
    {
        match self {
            FactValue::Text(t) => concat3("\"", t.as_str(), "\""),
            FactValue::Integer(n) => fmt_i64(*n),
            FactValue::Boolean(b) => {
                if *b {
                    to_owned_string("true")
                } else {
                    to_owned_string("false")
                }
            },
            FactValue::Bytes(b) => {
                let n = fmt_u64(b.len() as u64);
                concat3("<", n.as_str(), " bytes>")
            },
        }
    }
}

impl Clone for FactValue {
    fn clone(&self) -> (r: Self)
        ensures
            r@ == self@,
    {
        self.copy()
    }
}

/// Errors that can occur when constructing an [`ObservedFact`].
#[derive(Debug, Clone, PartialEq, Eq)]
pub enum FactError {
    /// The fact name was blank.
    EmptyName,
}

impl FactError {
    /// The human-readable message.
    pub fn to_string(&self) -> (s: String)
        ensures
            s@ == "observed fact name must not be empty"@,
    {
        to_owned_string("observed fact name must not be empty")
    }
}

/// An indivisible piece of information obtained directly through
/// observation: a non-blank schema-defined name and a primitive value.
#[derive(Debug, PartialEq, Eq)]
pub struct ObservedFact {
    name: String,
    value: FactValue,
}

impl ObservedFact {
    /// The fact name, as characters.
    pub closed spec fn spec_name(&self) -> Seq<char> {
        self.name@
    }

    /// The fact value.
    pub closed spec fn spec_value(&self) -> FactValueModel {
        self.value@
    }

    #[verifier::type_invariant]
    spec fn inv(&self) -> bool {
        !blank(self.name@)
    }

    /// Constructs a fact; a blank name is refused.
    pub fn new(name: &str, value: FactValue) -> (r: Result<Self, FactError>)
        ensures
            blank(name@) <==> r is Err,
            r matches Ok(f) ==> f.spec_name() == name@ && f.spec_value() == value@,
            r matches Err(e) ==> e == FactError::EmptyName,
    {
        if is_blank(name) {
            return Err(FactError::EmptyName);
        }
        Ok(ObservedFact { name: to_owned_string(name), value })
    }

    /// Constructs a fact under a name known to begin with a visible character.
    pub(crate) fn canonical(name: &str, value: FactValue) -> (r: Self)
        requires
            name@.len() > 0,
            !crate::text::is_ws(name@[0]),
        ensures
            r.spec_name() == name@,
            r.spec_value() == value@,
    {
        ObservedFact { name: to_owned_string(name), value }
    }

    /// Constructs a fact from an owned name; a blank name is refused.
    pub fn from_parts(name: String, value: FactValue) -> (r: Result<Self, FactError>)
        ensures
            blank(name@) <==> r is Err,
            r matches Ok(f) ==> f.spec_name() == name@ && f.spec_value() == value@,
            r matches Err(e) ==> e == FactError::EmptyName,
    {
        if is_blank(name.as_str()) {
            return Err(FactError::EmptyName);
        }
        Ok(ObservedFact { name, value })
    }

    /// The fact name.
    pub fn name(&self) -> (r: &str)
        ensures
            r@ == self.spec_name(),
            !blank(r@),
    {
        proof {
            use_type_invariant(self);
        }
        self.name.as_str()
    }

    /// The fact value.
    pub fn value(&self) -> (r: &FactValue)
        ensures
            r@ == self.spec_value(),
    {
        &self.value
    }

    /// An identical copy.
    pub fn copy(&self) -> (r: Self)
        ensures
            r.spec_name() == self.spec_name(),
            r.spec_value() == self.spec_value(),
    {
        proof {
            use_type_invariant(self);
        }
        ObservedFact { name: self.name.clone(), value: self.value.copy() }
    }

    /// `name=value`.
    pub fn to_string(&self) -> (s: String)
        ensures
            s@ == self.spec_name() + "="@ + fact_value_text(self.spec_value()),
    {
        let v = self.value.to_string();
        concat3(self.name.as_str(), "=", v.as_str())
    }
}

impl Clone for ObservedFact {
    fn clone(&self) -> (r: Self)
        ensures
            r.spec_name() == self.spec_name(),
            r.spec_value() == self.spec_value(),
    {
        self.copy()
    }
}

/// The name and value of each fact, in order.
pub open spec fn fact_models(facts: Seq<ObservedFact>) -> Seq<(Seq<char>, FactValueModel)> {
    facts.map_values(|f: ObservedFact| (f.spec_name(), f.spec_value()))
}

/// The complete collection of directly observed facts of one Observation.
#[derive(Debug, PartialEq, Eq)]
pub struct Evidence {
    facts: Vec<ObservedFact>,
}

impl Evidence {
    /// The facts, in order.
    pub closed spec fn spec_facts(&self) -> Seq<ObservedFact> {
        self.facts@
    }

    /// Constructs an Evidence body from the given facts.
    pub fn new(facts: Vec<ObservedFact>) -> (r: Self)
        ensures
            r.spec_facts() == facts@,
    {
        Evidence { facts }
    }

    /// All facts, in order.
    pub fn facts(&self) -> (r: &[ObservedFact])
        ensures
            r@ == self.spec_facts(),
    {
        self.facts.as_slice()
    }

    /// The number of facts.
    pub fn len(&self) -> (r: usize)
        ensures
            r == self.spec_facts().len(),
    {
        self.facts.len()
    }

    /// Whether there are no facts.
    pub fn is_empty(&self) -> (r: bool)
        ensures
            r == (self.spec_facts().len() == 0),
    {
        self.facts.len() == 0
    }

    /// The first fact named `name`, or `None`.
    pub fn fact(&self, name: &str) -> (r: Option<&ObservedFact>)
        ensures
            r is None <==> (forall|i: int| 0 <= i < self.spec_facts().len()
                ==> #[trigger] self.spec_facts()[i].spec_name() != name@),
            r matches Some(f) ==> exists|i: int| 0 <= i < self.spec_facts().len()
                && *f == self.spec_facts()[i] && f.spec_name() == name@
                && forall|j: int| 0 <= j < i ==> #[trigger] self.spec_facts()[j].spec_name()
                    != name@,
    {
        let mut i: usize = 0;
        while i < self.facts.len()
            invariant
                i <= self.facts.len(),
                forall|j: int| 0 <= j < i ==> #[trigger] self.facts@[j].spec_name() != name@,
            decreases self.facts.len() - i,
        {
            if str_eq(self.facts[i].name(), name) {
                assert(self.spec_facts()[i as int].spec_name() == name@);
                assert(self.spec_facts()[i as int] == self.facts@[i as int]);
                return Some(&self.facts[i]);
            }
            i = i + 1;
        }
        None
    }

    /// An identical copy.
    pub fn copy(&self) -> (r: Self)
        ensures
            fact_models(r.spec_facts()) == fact_models(self.spec_facts()),
    {
        let mut out: Vec<ObservedFact> = Vec::new();
        let mut i: usize = 0;
        while i < self.facts.len()
            invariant
                i <= self.facts.len(),
                out.len() == i,
                forall|j: int| 0 <= j < i ==> (#[trigger] out@[j]).spec_name()
                    == self.facts@[j].spec_name() && out@[j].spec_value()
                    == self.facts@[j].spec_value(),
            decreases self.facts.len() - i,
        {
            out.push(self.facts[i].copy());
            i = i + 1;
        }
        let r = Evidence { facts: out };
        assert(fact_models(r.spec_facts()) =~= fact_models(self.spec_facts()));
        r
    }

    /// `Evidence { facts: N }`.
    pub fn to_string(&self) -> (s: String)
        ensures
            s@ == "Evidence { facts: "@ + decimal(self.spec_facts().len()) + " }"@,
    {
        let n = fmt_u64(self.facts.len() as u64);
        concat3("Evidence { facts: ", n.as_str(), " }")
    }
}

impl Clone for Evidence {
    fn clone(&self) -> (r: Self)
        ensures
            fact_models(r.spec_facts()) == fact_models(self.spec_facts()),
    {
        self.copy()
    }
}

} // verus!
