//! The replay corpus: the ordered canonical observation history together
//! with the canonical artifact history derived from it. Immutable after
//! construction; observations keep the order they were supplied in.

use vstd::prelude::*;
use crate::observation::observation::Observation;
use crate::text::to_owned_string;

verus! {

/// Why a corpus could not be constructed.
#[derive(Debug, Clone, PartialEq, Eq)]
pub enum CorpusError {
    /// The observation history was empty.
    EmptyObservations,
    /// The artifact history was empty.
    EmptyArtifacts,
}

impl CorpusError {
    /// The human-readable message.
    pub fn to_string(&self) -> (s: String)
        ensures
            s@ == match self {
                CorpusError::EmptyObservations => "replay corpus must contain at least one canonical Observation"@,
                CorpusError::EmptyArtifacts => "replay corpus must contain at least one canonical Artifact"@,
            },
    {
        match self {
            CorpusError::EmptyObservations => to_owned_string(
                "replay corpus must contain at least one canonical Observation",
            ),
            CorpusError::EmptyArtifacts => to_owned_string(
                "replay corpus must contain at least one canonical Artifact",
            ),
        }
    }
}

/// The ordered canonical observation history and the artifact history.
#[derive(Debug, PartialEq)]
pub struct ReplayCorpus<A> {
    observations: Vec<Observation>,
    artifacts: Vec<A>,
}

impl<A> ReplayCorpus<A> {
    /// The observations, in canonical order.
    pub closed spec fn spec_observations(&self) -> Seq<Observation> {
        self.observations@
    }

    /// The artifacts.
    pub closed spec fn spec_artifacts(&self) -> Seq<A> {
        self.artifacts@
    }

    #[verifier::type_invariant]
    spec fn inv(&self) -> bool {
        self.observations@.len() > 0 && self.artifacts@.len() > 0
    }

    /// Constructs a corpus; an empty observation history, then an empty
    /// artifact history, is refused.
    pub fn new(observations: Vec<Observation>, artifacts: Vec<A>) -> (r: Result<Self, CorpusError>)
        ensures
            observations@.len() == 0 ==> r == Err::<Self, CorpusError>(
                CorpusError::EmptyObservations,
            ),
            observations@.len() > 0 && artifacts@.len() == 0 ==> r == Err::<Self, CorpusError>(
                CorpusError::EmptyArtifacts,
            ),
            observations@.len() > 0 && artifacts@.len() > 0 ==> (r matches Ok(c) && c.spec_observations()
                == observations@ && c.spec_artifacts() == artifacts@),
    {
        if observations.len() == 0 {
            return Err(CorpusError::EmptyObservations);
        }
        if artifacts.len() == 0 {
            return Err(CorpusError::EmptyArtifacts);
        }
        Ok(ReplayCorpus { observations, artifacts })
    }

    /// The observations, in the order supplied.
    pub fn observations(&self) -> (r: &[Observation])
        ensures
            r@ == self.spec_observations(),
            r@.len() > 0,
    {
        proof {
            use_type_invariant(self);
        }
        self.observations.as_slice()
    }

    /// The artifacts.
    pub fn artifacts(&self) -> (r: &[A])
        ensures
            r@ == self.spec_artifacts(),
            r@.len() > 0,
    {
        proof {
            use_type_invariant(self);
        }
        self.artifacts.as_slice()
    }
}

impl<A: Clone> Clone for ReplayCorpus<A> {
    fn clone(&self) -> (r: Self) {
        proof {
            use_type_invariant(self);
        }
        ReplayCorpus { observations: self.observations.clone(), artifacts: self.artifacts.clone() }
    }
}

} // verus!
