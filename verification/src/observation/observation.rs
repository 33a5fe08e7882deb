//! The canonical, immutable Observation and its identifier.

use vstd::prelude::*;
use uuid::Uuid;
use super::schema::ObservationSchema;
use super::provenance::Provenance;
use super::evidence::Evidence;

verus! {

/// The UUID type of the `uuid` crate, carried opaquely.
#[verifier::external_type_specification]
#[verifier::external_body]
pub struct ExUuid(Uuid);

/// The version field of a UUID's 128 bits (bits 76..80) is 7 and its
/// variant field (bits 62..64) is `0b10`, the RFC 4122 variant.
pub open spec fn is_v7_bits(b: u128) -> bool {
    &&& (b >> 76u32) & 0xfu128 == 7u128
    &&& (b >> 62u32) & 0x3u128 == 2u128
}

/// A fresh time-ordered UUID (`Uuid::now_v7`), as its 128 bits
/// (`Uuid::as_u128`, most significant byte first). Every outcome is a
/// version 7 UUID of the RFC 4122 variant. The rest of the value depends on
/// the clock and on random bits and is not stated; nor is the creation
/// order the crate keeps between calls of one process, which relates two
/// calls rather than one result. The call panics when the system clock
/// reads before 1970 or the random source fails: conditions of the
/// machine, not of any input.
#[verifier::external_body]
fn fresh_uuid_bits() -> (r: u128)
    ensures
        is_v7_bits(r),
{
    Uuid::now_v7().as_u128()
}

/// The UUID whose 128 bits are `b` (`Uuid::from_u128`). The `uuid` type is
/// opaque here, so what it holds is not stated; the crate's source keeps
/// the bits as they are.
#[verifier::external_body]
fn uuid_from_bits(b: u128) -> (r: Uuid) {
    Uuid::from_u128(b)
}

/// Immutable identifier of an Observation; it carries no meaning. It is
/// held as the 128 bits of its UUID, whose order is the UUID's order.
#[derive(Debug, Clone, Copy, PartialEq, Eq, PartialOrd, Ord, Hash)]
pub struct ObservationId(u128);

impl ObservationId {
    /// The 128 bits of the identifier's UUID.
    pub closed spec fn spec_bits(&self) -> u128 {
        self.0
    }

    /// Generates a new, time-ordered identifier: always a version 7 UUID of
    /// the RFC 4122 variant.
    pub fn new() -> (r: Self)
        ensures
            is_v7_bits(r.spec_bits()),
    {
        ObservationId(fresh_uuid_bits())
    }

    /// The identifier whose UUID has the 128 bits `value`.
    pub fn from_bits(value: u128) -> (r: Self)
        ensures
            r.spec_bits() == value,
    {
        ObservationId(value)
    }

    /// The 128 bits of the identifier's UUID.
    pub fn bits(&self) -> (r: u128)
        ensures
            r == self.spec_bits(),
    {
        self.0
    }

    /// The underlying UUID, built from the identifier's bits.
    pub fn as_uuid(&self) -> (r: Uuid) {
        uuid_from_bits(self.0)
    }
}

impl Default for ObservationId {
    /// A new identifier, as `new` gives.
    fn default() -> (r: Self)
        ensures
            is_v7_bits(r.spec_bits()),
    {
        Self::new()
    }
}

/// The canonical immutable representation of an accepted Observation.
#[derive(Debug, Clone, PartialEq)]
pub struct Observation {
    id: ObservationId,
    schema: ObservationSchema,
    provenance: Provenance,
    evidence: Evidence,
}

impl Observation {
    /// The identifier.
    pub closed spec fn spec_id(&self) -> ObservationId {
        self.id
    }

    /// The schema.
    pub closed spec fn spec_schema(&self) -> ObservationSchema {
        self.schema
    }

    /// The provenance.
    pub closed spec fn spec_provenance(&self) -> Provenance {
        self.provenance
    }

    /// The evidence.
    pub closed spec fn spec_evidence(&self) -> Evidence {
        self.evidence
    }

    /// Assembles an Observation; no processing happens here.
    pub fn new(id: ObservationId, schema: ObservationSchema, provenance: Provenance, evidence: Evidence) -> (r: Self)
        ensures
            r.spec_id() == id,
            r.spec_schema() == schema,
            r.spec_provenance() == provenance,
            r.spec_evidence() == evidence,
    {
        Observation { id, schema, provenance, evidence }
    }

    /// The immutable identifier.
    pub fn id(&self) -> (r: &ObservationId)
        ensures
            *r == self.spec_id(),
    {
        &self.id
    }

    /// The schema.
    pub fn schema(&self) -> (r: &ObservationSchema)
        ensures
            *r == self.spec_schema(),
    {
        &self.schema
    }

    /// The provenance.
    pub fn provenance(&self) -> (r: &Provenance)
        ensures
            *r == self.spec_provenance(),
    {
        &self.provenance
    }

    /// The evidence.
    pub fn evidence(&self) -> (r: &Evidence)
        ensures
            *r == self.spec_evidence(),
    {
        &self.evidence
    }
}

} // verus!
