//! Validation of Candidate Observations: whether a candidate satisfies the
//! requirements to enter the acceptance pipeline. Pure and deterministic:
//! the result is exactly `Ok(())` or the first failure found.

use vstd::prelude::*;
use crate::text::{blank, concat3, is_blank, str_eq, to_owned_string, lex_lt, str_less, lemma_lex_asymmetric, lemma_lex_total, lex_le};
use super::schema::{ObservationSchema, canonical_pair, fact_name_of};
use super::evidence::{ObservedFact, FactValue, FactValueModel};
use super::candidate::CandidateObservation;
use super::language::{concept_facts, concept_schema, surface_facts, ObservationConcept};
use super::evidence::fact_models;
use crate::sorting::{lemma_lex_order_total, lex_order, sorted_texts, views};
use vstd::relations::sorted_by;
use super::errors::ValidationError;

verus! {

/// A fact value that names a subject: non-blank text.
pub open spec fn subject_value(v: FactValueModel) -> bool {
    v matches FactValueModel::Text(s) && !blank(s)
}

/// The text a fact value carries (empty for non-text values).
pub open spec fn text_of(v: FactValueModel) -> Seq<char> {
    match v {
        FactValueModel::Text(s) => s,
        _ => Seq::empty(),
    }
}

/// The second, subject-valued concept a co-membership schema requires.
pub open spec fn second_concept(name: Seq<char>) -> Option<Seq<char>> {
    if name == "OBS-REPOSITORY-MEMBERSHIP"@ {
        Some("Repository"@)
    } else if name == "OBS-WORK-GROUPED"@ {
        Some("CoMember"@)
    } else {
        None
    }
}

/// Structural rule of single-fact and co-membership schemas: the failure
/// message, or `None` when the evidence conforms.
pub open spec fn simple_structure(
    fact_name: Seq<char>,
    second: Option<Seq<char>>,
    facts: Seq<ObservedFact>,
) -> Option<Seq<char>> {
    if facts.len() != (if second is Some { 2int } else { 1int }) {
        if second is Some {
            Some("evidence must contain exactly 2 canonical fact(s)"@)
        } else {
            Some("evidence must contain exactly 1 canonical fact(s)"@)
        }
    } else if facts[0].spec_name() != fact_name {
        Some("evidence does not express the required canonical concept"@)
    } else if second is Some && facts[1].spec_name() != second->0 {
        Some("evidence does not express the required "@ + second->0 + " value concept"@)
    } else if second is Some && !subject_value(facts[1].spec_value()) {
        Some("required "@ + second->0 + " value information is missing"@)
    } else if !subject_value(facts[0].spec_value()) {
        Some("required subject information is missing"@)
    } else {
        None
    }
}

/// The scan of a continuation surface's value facts from index `k` on:
/// the first failure, or `None`.
pub open spec fn surface_scan(facts: Seq<ObservedFact>, k: int) -> Option<Seq<char>>
    decreases facts.len() - k,
{
    if k < 1 || k >= facts.len() {
        None
    } else if facts[k].spec_name() != "ContinuationSubject"@ {
        Some("evidence does not express the required ContinuationSubject value concept"@)
    } else if !subject_value(facts[k].spec_value()) {
        Some("required ContinuationSubject value information is missing"@)
    } else if exists|j: int|
        0 <= j < k && text_of(#[trigger] facts[j].spec_value()) == text_of(facts[k].spec_value()) {
        Some("a continuation surface must not name a subject twice"@)
    } else {
        surface_scan(facts, k + 1)
    }
}

/// Some value subject sorts before the Required Subject.
pub open spec fn required_not_smallest(facts: Seq<ObservedFact>) -> bool {
    exists|k: int|
        1 <= k < facts.len() && lex_lt(
            text_of(#[trigger] facts[k].spec_value()),
            text_of(facts[0].spec_value()),
        )
}

/// The value subjects at `k` and `k + 1` are out of ascending order.
pub open spec fn out_of_order(facts: Seq<ObservedFact>, k: int) -> bool {
    lex_lt(text_of(facts[k + 1].spec_value()), text_of(facts[k].spec_value()))
}

/// Two neighbouring value subjects are out of ascending order.
pub open spec fn subjects_unordered(facts: Seq<ObservedFact>) -> bool {
    exists|k: int| 1 <= k < facts.len() - 1 && #[trigger] out_of_order(facts, k)
}

/// Structural rule of `OBS-CONTINUATION-SURFACE/v1`.
pub open spec fn surface_structure(fact_name: Seq<char>, facts: Seq<ObservedFact>) -> Option<
    Seq<char>,
> {
    if facts.len() < 2 {
        Some("a continuation surface must name at least two distinct subjects"@)
    } else if facts[0].spec_name() != fact_name {
        Some("evidence does not express the required canonical concept"@)
    } else if !subject_value(facts[0].spec_value()) {
        Some("required subject information is missing"@)
    } else if surface_scan(facts, 1) is Some {
        surface_scan(facts, 1)
    } else if required_not_smallest(facts) {
        Some(
            "the Required Subject of a continuation surface must be the lexicographically smallest subject"@,
        )
    } else if subjects_unordered(facts) {
        Some("continuation surface subjects must be canonically ordered"@)
    } else {
        None
    }
}

/// The counter an input-activity record holds at position `k` (1 to 3):
/// `Keys`, `Clicks`, then `Scrolls`.
pub open spec fn counter_name(k: int) -> Seq<char> {
    if k == 1 {
        "Keys"@
    } else if k == 2 {
        "Clicks"@
    } else {
        "Scrolls"@
    }
}

/// A count fact of an input-activity record at position `k`: the counter
/// of that position carrying a non-negative integer.
pub open spec fn count_ok(f: ObservedFact, k: int) -> bool {
    &&& f.spec_name() == counter_name(k)
    &&& (f.spec_value() matches FactValueModel::Integer(n) && n >= 0)
}

/// A count fact with a positive count.
pub open spec fn count_positive(f: ObservedFact) -> bool {
    f.spec_value() matches FactValueModel::Integer(n) && n > 0
}

/// The message refusing a count fact.
pub open spec fn count_message(f: ObservedFact) -> Seq<char> {
    "the "@ + f.spec_name() + " count must be a non-negative integer"@
}

/// Structural rule of `OBS-INPUT-ACTIVITY/v1`.
pub open spec fn input_structure(fact_name: Seq<char>, facts: Seq<ObservedFact>) -> Option<
    Seq<char>,
> {
    if facts.len() != 4 {
        Some("input activity evidence must contain exactly four canonical facts"@)
    } else if facts[0].spec_name() != fact_name {
        Some("evidence does not express the required canonical concept"@)
    } else if !subject_value(facts[0].spec_value()) {
        Some("required subject information is missing"@)
    } else if !count_ok(facts[1], 1) {
        Some(count_message(facts[1]))
    } else if !count_ok(facts[2], 2) {
        Some(count_message(facts[2]))
    } else if !count_ok(facts[3], 3) {
        Some(count_message(facts[3]))
    } else if !(count_positive(facts[1]) || count_positive(facts[2]) || count_positive(facts[3])) {
        Some("an all-zero input bucket is not an observation; absence is the zero"@)
    } else {
        None
    }
}

/// The structural failure of evidence under a canonical schema, or `None`.
pub open spec fn structure_error(name: Seq<char>, version: u32, facts: Seq<ObservedFact>) -> Option<
    Seq<char>,
> {
    let fact_name = fact_name_of(name, version)->0;
    if name == "OBS-CONTINUATION-SURFACE"@ {
        surface_structure(fact_name, facts)
    } else if name == "OBS-INPUT-ACTIVITY"@ {
        input_structure(fact_name, facts)
    } else {
        simple_structure(fact_name, second_concept(name), facts)
    }
}

/// Whether a candidate claims exactly the supplied schema and that schema
/// is canonical.
pub open spec fn schema_accepted(candidate: CandidateObservation, schema: ObservationSchema) -> bool {
    candidate.spec_schema().same_as(&schema) && canonical_pair(
        schema.spec_name(),
        schema.spec_version(),
    )
}

/// The structural failure of a candidate's evidence under its own schema.
pub open spec fn candidate_structure(candidate: CandidateObservation) -> Option<Seq<char>> {
    structure_error(
        candidate.spec_schema().spec_name(),
        candidate.spec_schema().spec_version(),
        candidate.spec_evidence().spec_facts(),
    )
}

/// Whether a candidate passes validation against `schema`.
pub open spec fn valid_candidate(candidate: CandidateObservation, schema: ObservationSchema) -> bool {
    schema_accepted(candidate, schema) && candidate_structure(candidate) is None
}

fn invalid(msg: &str) -> (e: ValidationError)
    ensures
        e matches ValidationError::InvalidStructure(m) && m@ == msg@,
{
    ValidationError::InvalidStructure(to_owned_string(msg))
}

fn is_subject(v: &FactValue) -> (r: bool)
    ensures
        r == subject_value(v@),
{
    match v {
        FactValue::Text(s) => !is_blank(s.as_str()),
        _ => false,
    }
}

fn validate_simple(facts: &[ObservedFact], expected: &str, second: Option<&str>) -> (r: Result<(), ValidationError>)
    ensures
        simple_structure(expected@, match second { Some(s) => Some(s@), None => None }, facts@) is None
            <==> r is Ok,
        r matches Err(e) ==> e matches ValidationError::InvalidStructure(m) && m@ == simple_structure(
            expected@,
            match second { Some(s) => Some(s@), None => None },
            facts@,
        )->0,
{
    let expected_len: usize = if second.is_some() { 2 } else { 1 };
    if facts.len() != expected_len {
        if second.is_some() {
            return Err(invalid("evidence must contain exactly 2 canonical fact(s)"));
        } else {
            return Err(invalid("evidence must contain exactly 1 canonical fact(s)"));
        }
    }
    let fact = &facts[0];
    if !str_eq(fact.name(), expected) {
        return Err(invalid("evidence does not express the required canonical concept"));
    }
    if let Some(second_name) = second {
        let other = &facts[1];
        if !str_eq(other.name(), second_name) {
            return Err(
                ValidationError::InvalidStructure(
                    concat3("evidence does not express the required ", second_name, " value concept"),
                ),
            );
        }
        if !is_subject(other.value()) {
            return Err(
                ValidationError::InvalidStructure(
                    concat3("required ", second_name, " value information is missing"),
                ),
            );
        }
    }
    if !is_subject(fact.value()) {
        return Err(invalid("required subject information is missing"));
    }
    Ok(())
}

fn fact_text(f: &ObservedFact) -> (r: &str)
    requires
        f.spec_value() is Text,
    ensures
        r@ == text_of(f.spec_value()),
{
    match f.value() {
        FactValue::Text(s) => s.as_str(),
        _ => {
            assert(false);
            ""
        },
    }
}

fn scan_subjects(facts: &[ObservedFact]) -> (r: Result<(), ValidationError>)
    requires
        facts@.len() >= 2,
        subject_value(facts@[0].spec_value()),
    ensures
        surface_scan(facts@, 1) is None <==> r is Ok,
        r matches Err(e) ==> e matches ValidationError::InvalidStructure(m) && m@
            == surface_scan(facts@, 1)->0,
        r is Ok ==> forall|j: int| 0 <= j < facts@.len() ==> subject_value(#[trigger] facts@[j].spec_value()),
{
    let n = facts.len();
    let mut k: usize = 1;
    while k < n
        invariant
            n == facts@.len(),
            1 <= k <= n,
            surface_scan(facts@, 1) == surface_scan(facts@, k as int),
            forall|j: int| 0 <= j < k ==> subject_value(#[trigger] facts@[j].spec_value()),
        decreases n - k,
    {
        if !str_eq(facts[k].name(), "ContinuationSubject") {
            return Err(
                invalid("evidence does not express the required ContinuationSubject value concept"),
            );
        }
        if !is_subject(facts[k].value()) {
            return Err(invalid("required ContinuationSubject value information is missing"));
        }
        let subject = fact_text(&facts[k]);
        if seen_before(facts, k, subject) {
            return Err(invalid("a continuation surface must not name a subject twice"));
        }
        k = k + 1;
    }
    Ok(())
}

fn seen_before(facts: &[ObservedFact], k: usize, subject: &str) -> (r: bool)
    requires
        k <= facts@.len(),
        forall|i: int| 0 <= i < k ==> subject_value(#[trigger] facts@[i].spec_value()),
    ensures
        r == exists|j: int| 0 <= j < k && text_of(#[trigger] facts@[j].spec_value()) == subject@,
{
    let mut j: usize = 0;
    while j < k
        invariant
            k <= facts@.len(),
            j <= k,
            forall|i: int| 0 <= i < k ==> subject_value(#[trigger] facts@[i].spec_value()),
            forall|i: int| 0 <= i < j ==> text_of(#[trigger] facts@[i].spec_value()) != subject@,
        decreases k - j,
    {
        if str_eq(fact_text(&facts[j]), subject) {
            return true;
        }
        j = j + 1;
    }
    false
}

fn check_required_smallest(facts: &[ObservedFact]) -> (r: bool)
    requires
        forall|j: int| 0 <= j < facts@.len() ==> subject_value(#[trigger] facts@[j].spec_value()),
        facts@.len() >= 1,
    ensures
        r == !required_not_smallest(facts@),
{
    let required = fact_text(&facts[0]);
    let n = facts.len();
    let mut k: usize = 1;
    while k < n
        invariant
            n == facts@.len(),
            1 <= k <= n,
            required@ == text_of(facts@[0].spec_value()),
            forall|j: int| 0 <= j < n ==> subject_value(#[trigger] facts@[j].spec_value()),
            forall|j: int|
                1 <= j < k ==> !lex_lt(
                    text_of(#[trigger] facts@[j].spec_value()),
                    text_of(facts@[0].spec_value()),
                ),
        decreases n - k,
    {
        if str_less(fact_text(&facts[k]), required) {
            return false;
        }
        k = k + 1;
    }
    true
}

fn check_ordered(facts: &[ObservedFact]) -> (r: bool)
    requires
        forall|j: int| 0 <= j < facts@.len() ==> subject_value(#[trigger] facts@[j].spec_value()),
    ensures
        r == !subjects_unordered(facts@),
{
    let n = facts.len();
    if n < 2 {
        return true;
    }
    let mut k: usize = 1;
    while k < n - 1
        invariant
            n == facts@.len(),
            n >= 2,
            1 <= k <= n - 1,
            forall|j: int| 0 <= j < n ==> subject_value(#[trigger] facts@[j].spec_value()),
            forall|j: int| 1 <= j < k ==> !#[trigger] out_of_order(facts@, j),
        decreases n - k,
    {
        if str_less(fact_text(&facts[k + 1]), fact_text(&facts[k])) {
            assert(out_of_order(facts@, k as int));
            return false;
        }
        k = k + 1;
    }
    true
}

/// The continuation-surface rule: at least two facts, the declaration
/// first, value subjects after it, every subject non-blank text, none
/// twice, the Required Subject the smallest and the value subjects in
/// ascending order; every refusal is an invalid structure.
pub fn validate_continuation_surface(facts: &[ObservedFact], expected: &str) -> (r: Result<(), ValidationError>)
    ensures
        surface_structure(expected@, facts@) is None <==> r is Ok,
        r is Ok <==> surface_well_formed(expected@, facts@),
        r matches Err(e) ==> e matches ValidationError::InvalidStructure(m) && m@
            == surface_structure(expected@, facts@)->0,
{
    proof {
        lemma_surface_structure_exact(expected@, facts@);
    }
    if facts.len() < 2 {
        return Err(invalid("a continuation surface must name at least two distinct subjects"));
    }
    if !str_eq(facts[0].name(), expected) {
        return Err(invalid("evidence does not express the required canonical concept"));
    }
    if !is_subject(facts[0].value()) {
        return Err(invalid("required subject information is missing"));
    }
    scan_subjects(facts)?;
    if !check_required_smallest(facts) {
        return Err(
            invalid(
                "the Required Subject of a continuation surface must be the lexicographically smallest subject",
            ),
        );
    }
    if !check_ordered(facts) {
        return Err(invalid("continuation surface subjects must be canonically ordered"));
    }
    Ok(())
}

fn count_check(f: &ObservedFact, counter: &str, k: Ghost<int>) -> (r: (bool, bool))
    requires
        counter@ == counter_name(k@),
    ensures
        r.0 == count_ok(*f, k@),
        r.0 ==> r.1 == count_positive(*f),
{
    let name = f.name();
    if str_eq(name, counter) {
        match f.value() {
            FactValue::Integer(n) => (*n >= 0, *n > 0),
            _ => (false, false),
        }
    } else {
        (false, false)
    }
}

fn count_error(f: &ObservedFact) -> (e: ValidationError)
    ensures
        e matches ValidationError::InvalidStructure(m) && m@ == count_message(*f),
{
    ValidationError::InvalidStructure(
        concat3("the ", f.name(), " count must be a non-negative integer"),
    )
}

fn validate_input(facts: &[ObservedFact], expected: &str) -> (r: Result<(), ValidationError>)
    ensures
        input_structure(expected@, facts@) is None <==> r is Ok,
        r matches Err(e) ==> e matches ValidationError::InvalidStructure(m) && m@
            == input_structure(expected@, facts@)->0,
{
    if facts.len() != 4 {
        return Err(invalid("input activity evidence must contain exactly four canonical facts"));
    }
    if !str_eq(facts[0].name(), expected) {
        return Err(invalid("evidence does not express the required canonical concept"));
    }
    if !is_subject(facts[0].value()) {
        return Err(invalid("required subject information is missing"));
    }
    let (ok1, pos1) = count_check(&facts[1], "Keys", Ghost(1int));
    if !ok1 {
        return Err(count_error(&facts[1]));
    }
    let (ok2, pos2) = count_check(&facts[2], "Clicks", Ghost(2int));
    if !ok2 {
        return Err(count_error(&facts[2]));
    }
    let (ok3, pos3) = count_check(&facts[3], "Scrolls", Ghost(3int));
    if !ok3 {
        return Err(count_error(&facts[3]));
    }
    if !(pos1 || pos2 || pos3) {
        return Err(invalid("an all-zero input bucket is not an observation; absence is the zero"));
    }
    Ok(())
}

fn validate_structure(candidate: &CandidateObservation) -> (r: Result<(), ValidationError>)
    requires
        canonical_pair(
            candidate.spec_schema().spec_name(),
            candidate.spec_schema().spec_version(),
        ),
    ensures
        candidate_structure(*candidate) is None <==> r is Ok,
        r matches Err(e) ==> e matches ValidationError::InvalidStructure(m) && m@
            == candidate_structure(*candidate)->0,
{
    let schema = candidate.schema();
    let expected = match schema.canonical_fact_name() {
        Some(name) => name,
        None => {
            return Err(ValidationError::UnknownSchema(schema.copy()));
        },
    };
    let facts = candidate.evidence().facts();
    let name = schema.name();
    if str_eq(name, "OBS-CONTINUATION-SURFACE") {
        return validate_continuation_surface(facts, expected);
    }
    if str_eq(name, "OBS-INPUT-ACTIVITY") {
        return validate_input(facts, expected);
    }
    let second: Option<&str> = if str_eq(name, "OBS-REPOSITORY-MEMBERSHIP") {
        Some("Repository")
    } else if str_eq(name, "OBS-WORK-GROUPED") {
        Some("CoMember")
    } else {
        None
    };
    validate_simple(facts, expected, second)
}

/// Validates a candidate against the schema it is supplied with.
///
/// In order: the candidate must claim exactly `schema` and `schema` must be
/// canonical (else `UnknownSchema` naming the candidate's schema); the
/// provenance must name a source; the evidence must conform to the
/// schema's structural rule (else `InvalidStructure` with its message).
pub fn validate(candidate: &CandidateObservation, schema: &ObservationSchema) -> (r: Result<(), ValidationError>)
    ensures
        !schema_accepted(*candidate, *schema) ==> r == Err::<(), ValidationError>(
            ValidationError::UnknownSchema(candidate.spec_schema()),
        ),
        schema_accepted(*candidate, *schema) ==> (r is Ok <==> candidate_structure(*candidate) is None),
        schema_accepted(*candidate, *schema) ==> (r matches Err(e) ==> e matches ValidationError::InvalidStructure(m) && m@
            == candidate_structure(*candidate)->0),
        r is Ok <==> valid_candidate(*candidate, *schema),
{
    if !candidate.schema().same(schema) {
        return Err(ValidationError::UnknownSchema(candidate.schema().copy()));
    }
    if !schema.is_canonical() {
        return Err(ValidationError::UnknownSchema(candidate.schema().copy()));
    }
    if candidate.provenance().source().as_str().is_empty() {
        return Err(
            ValidationError::MissingProvenance(
                to_owned_string("observation source must not be empty"),
            ),
        );
    }
    validate_structure(candidate)
}

/// A well-formed continuation surface: at least two facts, the declaration
/// first and value subjects after it, every subject non-blank text, no
/// subject named twice, the Required Subject the smallest, and the value
/// subjects in ascending order.
pub open spec fn surface_well_formed(fact_name: Seq<char>, facts: Seq<ObservedFact>) -> bool {
    &&& facts.len() >= 2
    &&& facts[0].spec_name() == fact_name
    &&& forall|k: int| 1 <= k < facts.len() ==> (#[trigger] facts[k]).spec_name() == "ContinuationSubject"@
    &&& forall|k: int| 0 <= k < facts.len() ==> subject_value((#[trigger] facts[k]).spec_value())
    &&& forall|i: int, j: int|
        0 <= i < j < facts.len() ==> text_of((#[trigger] facts[i]).spec_value()) != text_of(
            (#[trigger] facts[j]).spec_value(),
        )
    &&& forall|k: int|
        1 <= k < facts.len() ==> lex_lt(text_of(facts[0].spec_value()), text_of((#[trigger] facts[k]).spec_value()))
    &&& forall|k: int|
        1 <= k < facts.len() - 1 ==> lex_lt(
            text_of((#[trigger] facts[k]).spec_value()),
            text_of(facts[k + 1].spec_value()),
        )
}

proof fn lemma_scan_clean(facts: Seq<ObservedFact>, k0: int)
    requires
        1 <= k0,
    ensures
        surface_scan(facts, k0) is None <==> forall|k: int|
            k0 <= k < facts.len() ==> (#[trigger] facts[k]).spec_name() == "ContinuationSubject"@
                && subject_value(facts[k].spec_value()) && forall|j: int|
                0 <= j < k ==> text_of(facts[j].spec_value()) != text_of(facts[k].spec_value()),
    decreases facts.len() - k0,
{
    if k0 < facts.len() {
        lemma_scan_clean(facts, k0 + 1);
        if exists|j: int| 0 <= j < k0 && text_of(#[trigger] facts[j].spec_value()) == text_of(facts[k0].spec_value()) {
            let j = choose|j: int| 0 <= j < k0 && text_of(#[trigger] facts[j].spec_value()) == text_of(facts[k0].spec_value());
            assert(text_of(facts[j].spec_value()) == text_of(facts[k0].spec_value()));
        }
    }
}

/// A continuation surface validates exactly when it is well formed.
pub proof fn lemma_surface_structure_exact(fact_name: Seq<char>, facts: Seq<ObservedFact>)
    ensures
        surface_structure(fact_name, facts) is None <==> surface_well_formed(fact_name, facts),
{
    lemma_scan_clean(facts, 1);
    if surface_structure(fact_name, facts) is None {
        assert forall|i: int, j: int| 0 <= i < j < facts.len() implies text_of((#[trigger] facts[i]).spec_value())
            != text_of((#[trigger] facts[j]).spec_value()) by {
            assert(facts[j].spec_name() == "ContinuationSubject"@);
        }
        assert forall|k: int| 1 <= k < facts.len() implies lex_lt(
            text_of(facts[0].spec_value()),
            text_of((#[trigger] facts[k]).spec_value()),
        ) by {
            assert(!lex_lt(text_of(facts[k].spec_value()), text_of(facts[0].spec_value())));
            assert(text_of(facts[0].spec_value()) != text_of(facts[k].spec_value())) by {
                assert(facts[k].spec_name() == "ContinuationSubject"@);
            }
            lemma_lex_total(text_of(facts[0].spec_value()), text_of(facts[k].spec_value()));
        }
        assert forall|k: int| 1 <= k < facts.len() - 1 implies lex_lt(
            text_of((#[trigger] facts[k]).spec_value()),
            text_of(facts[k + 1].spec_value()),
        ) by {
            assert(!out_of_order(facts, k));
            assert(text_of(facts[k].spec_value()) != text_of(facts[k + 1].spec_value())) by {
                assert(facts[k + 1].spec_name() == "ContinuationSubject"@);
            }
            lemma_lex_total(text_of(facts[k].spec_value()), text_of(facts[k + 1].spec_value()));
        }
        assert forall|k: int| 0 <= k < facts.len() implies subject_value((#[trigger] facts[k]).spec_value()) by {
            if k > 0 {
                assert(facts[k].spec_name() == "ContinuationSubject"@);
            }
        }
    }
    if surface_well_formed(fact_name, facts) {
        assert(surface_scan(facts, 1) is None) by {
            assert forall|k: int| 1 <= k < facts.len() implies (#[trigger] facts[k]).spec_name() == "ContinuationSubject"@
                && subject_value(facts[k].spec_value()) && forall|j: int|
                0 <= j < k ==> text_of(facts[j].spec_value()) != text_of(facts[k].spec_value()) by {
                assert forall|j: int| 0 <= j < k implies text_of(facts[j].spec_value()) != text_of(facts[k].spec_value()) by {
                    assert(text_of(facts[j].spec_value()) != text_of(facts[k].spec_value()));
                }
            }
        }
        assert(!required_not_smallest(facts)) by {
            assert forall|k: int| 1 <= k < facts.len() implies !lex_lt(
                text_of((#[trigger] facts[k]).spec_value()),
                text_of(facts[0].spec_value()),
            ) by {
                lemma_lex_asymmetric(text_of(facts[0].spec_value()), text_of(facts[k].spec_value()));
            }
        }
        assert(!subjects_unordered(facts)) by {
            assert forall|k: int| 1 <= k < facts.len() - 1 implies !#[trigger] out_of_order(facts, k) by {
                assert(lex_lt(text_of(facts[k].spec_value()), text_of(facts[k + 1].spec_value())));
                lemma_lex_asymmetric(text_of(facts[k].spec_value()), text_of(facts[k + 1].spec_value()));
            }
        }
    }
}

/// A concept whose evidence validation accepts: every text non-blank;
/// counts that fit an `i64`, at least one of them positive; a surface of
/// at least two distinct subjects.
pub open spec fn concept_valid(c: ObservationConcept) -> bool {
    match c {
        ObservationConcept::WindowFocusGained { subject } => !blank(subject@),
        ObservationConcept::FileSaved { subject } => !blank(subject@),
        ObservationConcept::URLNavigated { subject } => !blank(subject@),
        ObservationConcept::CommitMade { subject } => !blank(subject@),
        ObservationConcept::WorkDesignated { subject } => !blank(subject@),
        ObservationConcept::RepositoryMembership { member, repository } => !blank(member@) && !blank(repository@),
        ObservationConcept::WorkGrouped { first, second } => !blank(first@) && !blank(second@),
        ObservationConcept::InputActivity { subject, keys, clicks, scrolls } => {
            &&& !blank(subject@)
            &&& keys <= i64::MAX && clicks <= i64::MAX && scrolls <= i64::MAX
            &&& (keys > 0 || clicks > 0 || scrolls > 0)
        },
        ObservationConcept::ContinuationSurface { subjects } => {
            &&& subjects@.len() >= 2
            &&& views(subjects@).no_duplicates()
            &&& forall|i: int| 0 <= i < subjects@.len() ==> !blank(#[trigger] subjects@[i]@)
        },
    }
}

/// The evidence of a valid concept passes validation under the concept's
/// own schema: the schema is canonical and the evidence has its structure.
#[verifier::spinoff_prover]
#[verifier::rlimit(90)]
pub proof fn lemma_concept_evidence_validates(c: ObservationConcept, facts: Seq<ObservedFact>)
    requires
        concept_valid(c),
        fact_models(facts) == concept_facts(c),
    ensures
        canonical_pair(concept_schema(c).0, concept_schema(c).1),
        structure_error(concept_schema(c).0, concept_schema(c).1, facts) is None,
{
    reveal_strlit("OBS-WINDOW-FOCUS-GAINED");
    reveal_strlit("OBS-FILE-SAVED");
    reveal_strlit("OBS-URL-NAVIGATED");
    reveal_strlit("OBS-COMMIT-MADE");
    reveal_strlit("OBS-WORK-DESIGNATED");
    reveal_strlit("OBS-REPOSITORY-MEMBERSHIP");
    reveal_strlit("OBS-WORK-GROUPED");
    reveal_strlit("OBS-CONTINUATION-SURFACE");
    reveal_strlit("OBS-INPUT-ACTIVITY");
    reveal_strlit("WindowFocusGained");
    reveal_strlit("FileSaved");
    reveal_strlit("URLNavigated");
    reveal_strlit("CommitMade");
    reveal_strlit("WorkDesignated");
    reveal_strlit("RepositoryMembership");
    reveal_strlit("Repository");
    reveal_strlit("WorkGrouped");
    reveal_strlit("CoMember");
    reveal_strlit("ContinuationSurface");
    reveal_strlit("ContinuationSubject");
    reveal_strlit("InputActivity");
    assert("OBS-WINDOW-FOCUS-GAINED"@.len() == 23);
    assert("OBS-FILE-SAVED"@.len() == 14);
    assert("OBS-URL-NAVIGATED"@.len() == 17);
    assert("OBS-COMMIT-MADE"@.len() == 15);
    assert("OBS-WORK-DESIGNATED"@.len() == 19);
    assert("OBS-REPOSITORY-MEMBERSHIP"@.len() == 25);
    assert("OBS-WORK-GROUPED"@.len() == 16);
    assert("OBS-CONTINUATION-SURFACE"@.len() == 24);
    assert("OBS-INPUT-ACTIVITY"@.len() == 18);
    reveal_strlit("Keys");
    reveal_strlit("Clicks");
    reveal_strlit("Scrolls");
    let cf = concept_facts(c);
    assert(facts.len() == cf.len());
    assert forall|i: int| 0 <= i < facts.len() implies (#[trigger] facts[i]).spec_name() == cf[i].0
        && facts[i].spec_value() == cf[i].1 by {
        assert(fact_models(facts)[i] == cf[i]);
    }
    if let ObservationConcept::ContinuationSurface { subjects } = c {
        assert(concept_schema(c) == ("OBS-CONTINUATION-SURFACE"@, 1u32));
        lemma_surface_fact_name();
        lemma_surface_evidence(subjects@, facts);
        assert(structure_error(concept_schema(c).0, concept_schema(c).1, facts) == surface_structure(
            "ContinuationSurface"@,
            facts,
        ));
    }
}

proof fn lemma_surface_fact_name()
    ensures
        fact_name_of("OBS-CONTINUATION-SURFACE"@, 1) == Some("ContinuationSurface"@),
        "OBS-CONTINUATION-SURFACE"@ != "OBS-INPUT-ACTIVITY"@,
{
    reveal_strlit("OBS-WINDOW-FOCUS-GAINED");
    reveal_strlit("OBS-FILE-SAVED");
    reveal_strlit("OBS-URL-NAVIGATED");
    reveal_strlit("OBS-COMMIT-MADE");
    reveal_strlit("OBS-WORK-DESIGNATED");
    reveal_strlit("OBS-REPOSITORY-MEMBERSHIP");
    reveal_strlit("OBS-WORK-GROUPED");
    reveal_strlit("OBS-CONTINUATION-SURFACE");
    reveal_strlit("OBS-INPUT-ACTIVITY");
    assert("OBS-CONTINUATION-SURFACE"@ != "OBS-WINDOW-FOCUS-GAINED"@) by {
        assert("OBS-CONTINUATION-SURFACE"@[4] != "OBS-WINDOW-FOCUS-GAINED"@[4]);
    }
    assert("OBS-CONTINUATION-SURFACE"@ != "OBS-FILE-SAVED"@) by {
        assert("OBS-CONTINUATION-SURFACE"@[4] != "OBS-FILE-SAVED"@[4]);
    }
    assert("OBS-CONTINUATION-SURFACE"@ != "OBS-URL-NAVIGATED"@) by {
        assert("OBS-CONTINUATION-SURFACE"@[4] != "OBS-URL-NAVIGATED"@[4]);
    }
    assert("OBS-CONTINUATION-SURFACE"@ != "OBS-COMMIT-MADE"@) by {
        assert("OBS-CONTINUATION-SURFACE"@[6] != "OBS-COMMIT-MADE"@[6]);
    }
    assert("OBS-CONTINUATION-SURFACE"@ != "OBS-WORK-DESIGNATED"@) by {
        assert("OBS-CONTINUATION-SURFACE"@[4] != "OBS-WORK-DESIGNATED"@[4]);
    }
    assert("OBS-CONTINUATION-SURFACE"@ != "OBS-REPOSITORY-MEMBERSHIP"@) by {
        assert("OBS-CONTINUATION-SURFACE"@[4] != "OBS-REPOSITORY-MEMBERSHIP"@[4]);
    }
    assert("OBS-CONTINUATION-SURFACE"@ != "OBS-WORK-GROUPED"@) by {
        assert("OBS-CONTINUATION-SURFACE"@[4] != "OBS-WORK-GROUPED"@[4]);
    }
    assert("OBS-CONTINUATION-SURFACE"@ != "OBS-INPUT-ACTIVITY"@) by {
        assert("OBS-CONTINUATION-SURFACE"@[4] != "OBS-INPUT-ACTIVITY"@[4]);
    }
}

proof fn lemma_surface_evidence(subjects: Seq<String>, facts: Seq<ObservedFact>)
    requires
        subjects.len() >= 2,
        views(subjects).no_duplicates(),
        forall|i: int| 0 <= i < subjects.len() ==> !blank(#[trigger] subjects[i]@),
        fact_models(facts) == surface_facts(sorted_texts(views(subjects))),
    ensures
        surface_structure("ContinuationSurface"@, facts) is None,
{
    let cf = surface_facts(sorted_texts(views(subjects)));
    assert(facts.len() == cf.len());
    assert forall|i: int| 0 <= i < facts.len() implies (#[trigger] facts[i]).spec_name() == cf[i].0
        && facts[i].spec_value() == cf[i].1 by {
        assert(fact_models(facts)[i] == cf[i]);
    }
        let t = views(subjects);
        let s = sorted_texts(t);
        lemma_lex_order_total();
        t.lemma_sort_by_ensures(lex_order());
        t.lemma_multiset_has_no_duplicates();
        assert(s.len() == t.len()) by {
            s.to_multiset_ensures();
            t.to_multiset_ensures();
        }
        assert forall|x: Seq<char>| s.to_multiset().contains(x) implies s.to_multiset().count(x) == 1 by {}
        s.lemma_multiset_has_no_duplicates_conv();
        assert forall|k: int| 0 <= k < s.len() implies !blank(#[trigger] s[k]) by {
            s.to_multiset_ensures();
            t.to_multiset_ensures();
            assert(s.to_multiset().count(s[k]) > 0);
            assert(t.contains(s[k]));
            let j = choose|j: int| 0 <= j < t.len() && t[j] == s[k];
            assert(t[j] == subjects[j]@);
        }
        assert(facts.len() == s.len());
        let fname = "ContinuationSurface"@;
        assert forall|i: int, j: int| 0 <= i < j < facts.len() implies text_of((#[trigger] facts[i]).spec_value()) != text_of(
            (#[trigger] facts[j]).spec_value(),
        ) by {
            assert(text_of(facts[i].spec_value()) == s[i]);
            assert(text_of(facts[j].spec_value()) == s[j]);
        }
        assert forall|k: int| 1 <= k < facts.len() implies lex_lt(
            text_of(facts[0].spec_value()),
            text_of((#[trigger] facts[k]).spec_value()),
        ) by {
            assert(text_of(facts[0].spec_value()) == s[0]);
            assert(text_of(facts[k].spec_value()) == s[k]);
            assert(sorted_by(s, lex_order()));
            assert((lex_order())(s[0], s[k]));
            assert(lex_le(s[0], s[k]));
            lemma_lex_total(s[0], s[k]);
        }
        assert forall|k: int| 1 <= k < facts.len() - 1 implies lex_lt(
            text_of((#[trigger] facts[k]).spec_value()),
            text_of(facts[k + 1].spec_value()),
        ) by {
            assert(text_of(facts[k].spec_value()) == s[k]);
            assert(text_of(facts[k + 1].spec_value()) == s[k + 1]);
            assert(sorted_by(s, lex_order()));
            assert((lex_order())(s[k], s[k + 1]));
            assert(lex_le(s[k], s[k + 1]));
            lemma_lex_total(s[k], s[k + 1]);
        }
        assert forall|k: int| 0 <= k < facts.len() implies subject_value((#[trigger] facts[k]).spec_value()) by {
            assert(facts[k].spec_value() == FactValueModel::Text(s[k]));
        }
        assert(surface_well_formed(fname, facts));
        lemma_surface_structure_exact(fname, facts);
}

} // verus!
