//! The Candidate Observation: the transient, unvalidated precursor of an
//! Observation, carrying exactly one schema, provenance and evidence body.

use vstd::prelude::*;
use super::schema::ObservationSchema;
use super::provenance::{Provenance, context_entries};
use super::evidence::{Evidence, fact_models};

verus! {

/// An observation attempt on its way into the acceptance pipeline.
#[derive(Debug, PartialEq, Eq)]
pub struct CandidateObservation {
    observation_schema: ObservationSchema,
    provenance: Provenance,
    evidence: Evidence,
}

impl CandidateObservation {
    /// The schema the candidate claims.
    pub closed spec fn spec_schema(&self) -> ObservationSchema {
        self.observation_schema
    }

    /// The candidate's provenance.
    pub closed spec fn spec_provenance(&self) -> Provenance {
        self.provenance
    }

    /// The candidate's evidence.
    pub closed spec fn spec_evidence(&self) -> Evidence {
        self.evidence
    }

    /// Assembles a candidate; no cross-component validation happens here.
    pub fn new(observation_schema: ObservationSchema, provenance: Provenance, evidence: Evidence) -> (r: Self)
        ensures
            r.spec_schema() == observation_schema,
            r.spec_provenance() == provenance,
            r.spec_evidence() == evidence,
    {
        CandidateObservation { observation_schema, provenance, evidence }
    }

    /// The Observation Schema.
    pub fn schema(&self) -> (r: &ObservationSchema)
        ensures
            *r == self.spec_schema(),
    {
        &self.observation_schema
    }

    /// The Provenance record.
    pub fn provenance(&self) -> (r: &Provenance)
        ensures
            *r == self.spec_provenance(),
    {
        &self.provenance
    }

    /// The observed Evidence.
    pub fn evidence(&self) -> (r: &Evidence)
        ensures
            *r == self.spec_evidence(),
    {
        &self.evidence
    }

    /// Hands the components over to the pipeline.
    pub fn into_parts(self) -> (r: (ObservationSchema, Provenance, Evidence))
        ensures
            r.0 == self.spec_schema(),
            r.1 == self.spec_provenance(),
            r.2 == self.spec_evidence(),
    {
        (self.observation_schema, self.provenance, self.evidence)
    }
}

impl Clone for CandidateObservation {
    fn clone(&self) -> (r: Self)
        ensures
            r.spec_schema() == self.spec_schema(),
            r.spec_provenance().spec_source().spec_name()
                == self.spec_provenance().spec_source().spec_name(),
            r.spec_provenance().spec_observed_at() == self.spec_provenance().spec_observed_at(),
            context_entries(r.spec_provenance().spec_context()) == context_entries(
                self.spec_provenance().spec_context(),
            ),
            fact_models(r.spec_evidence().spec_facts()) == fact_models(
                self.spec_evidence().spec_facts(),
            ),
    {
        CandidateObservation {
            observation_schema: self.observation_schema.copy(),
            provenance: self.provenance.copy(),
            evidence: self.evidence.copy(),
        }
    }
}

} // verus!
