//! The acceptance pipeline: validation, canonicalization, identity
//! assignment, assembly and integrity verification, in that order.

use vstd::prelude::*;
use super::schema::ObservationSchema;
use super::candidate::CandidateObservation;
use super::observation::{Observation, ObservationId};
use super::errors::{CanonicalizationError, IntegrityError, ObservationError, ValidationError};
use super::validation::{validate, valid_candidate, schema_accepted, candidate_structure};

verus! {

/// Transforms a validated candidate into its canonical form. Without schema
/// definitions no transformation is sound, so the candidate passes through
/// unchanged.
pub fn canonicalize(candidate: CandidateObservation) -> (r: Result<CandidateObservation, CanonicalizationError>)
    ensures
        r == Ok::<CandidateObservation, CanonicalizationError>(candidate),
{
    Ok(candidate)
}

/// Read-only structural integrity verification of an assembled
/// Observation. Every assembled Observation already satisfies the
/// structural invariants its types carry, so verification succeeds.
pub fn verify_integrity(observation: &Observation) -> (r: Result<(), IntegrityError>)
    ensures
        r is Ok,
{
    Ok(())
}

/// Accepts a candidate observation through the pipeline.
///
/// Succeeds exactly when the candidate validates against
/// `registered_schema`; the Observation then carries the candidate's own
/// schema, provenance and evidence and a fresh identifier. A refusal is the
/// validation error, wrapped as the validation stage's.
pub fn accept(candidate: CandidateObservation, registered_schema: &ObservationSchema) -> (r: Result<Observation, ObservationError>)
    ensures
        r is Ok <==> valid_candidate(candidate, *registered_schema),
        r matches Ok(o) ==> o.spec_schema() == candidate.spec_schema() && o.spec_provenance()
            == candidate.spec_provenance() && o.spec_evidence() == candidate.spec_evidence(),
        !schema_accepted(candidate, *registered_schema) ==> r == Err::<Observation, ObservationError>(
            ObservationError::Validation(ValidationError::UnknownSchema(candidate.spec_schema())),
        ),
        schema_accepted(candidate, *registered_schema) ==> (r matches Err(e) ==> e matches ObservationError::Validation(
            ValidationError::InvalidStructure(m),
        ) && m@ == candidate_structure(candidate)->0),
{
    match validate(&candidate, registered_schema) {
        Ok(()) => {},
        Err(e) => {
            return Err(ObservationError::Validation(e));
        },
    }
    let canonical = match canonicalize(candidate) {
        Ok(c) => c,
        Err(e) => {
            return Err(ObservationError::Canonicalization(e));
        },
    };
    let (schema, provenance, evidence) = canonical.into_parts();
    let id = ObservationId::new();
    let observation = Observation::new(id, schema, provenance, evidence);
    match verify_integrity(&observation) {
        Ok(()) => {},
        Err(e) => {
            return Err(ObservationError::Integrity(e));
        },
    }
    Ok(observation)
}

} // verus!
