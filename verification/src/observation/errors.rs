//! The error hierarchy of the Observation acceptance pipeline: one error
//! type per stage and an aggregate that names the stage that refused.

use vstd::prelude::*;
use vstd::std_specs::convert::FromSpecImpl;
use crate::text::{concat2, concat3, decimal, fmt_u64};
use super::schema::{ObservationSchema, SchemaError};
use super::evidence::FactError;
use super::provenance::SourceError;

verus! {

/// Errors of stage-1 validation.
#[derive(Debug, PartialEq, Eq)]
pub enum ValidationError {
    /// The referenced schema is unknown to Evo.
    UnknownSchema(ObservationSchema),
    /// Structural validation failed against the schema.
    InvalidStructure(String),
    /// Required provenance information is missing.
    MissingProvenance(String),
    /// Schema identity error wrapped from model construction.
    Schema(SchemaError),
    /// Observed fact error wrapped from model construction.
    Fact(FactError),
    /// Provenance source error wrapped from model construction.
    Source(SourceError),
}

/// The message of a schema error.
pub open spec fn schema_error_text() -> Seq<char> {
    "observation schema name must not be empty"@
}

/// The message of a fact error.
pub open spec fn fact_error_text() -> Seq<char> {
    "observed fact name must not be empty"@
}

/// The message of a source error.
pub open spec fn source_error_text() -> Seq<char> {
    "observation source name must not be empty"@
}

/// The message of a validation error.
pub open spec fn validation_text(e: ValidationError) -> Seq<char> {
    match e {
        ValidationError::UnknownSchema(s) => "unknown observation schema: "@ + s.spec_name() + "/"@
            + decimal(s.spec_version() as nat),
        ValidationError::InvalidStructure(m) => "structural validation failed: "@ + m@,
        ValidationError::MissingProvenance(m) => "missing required provenance: "@ + m@,
        ValidationError::Schema(_) => "schema error: "@ + schema_error_text(),
        ValidationError::Fact(_) => "fact error: "@ + fact_error_text(),
        ValidationError::Source(_) => "source error: "@ + source_error_text(),
    }
}

impl ValidationError {
    /// The human-readable message.
    pub fn to_string(&self) -> (s: String)
        ensures
            s@ == validation_text(*self),
    {
        match self {
            ValidationError::UnknownSchema(schema) => {
                let v = fmt_u64(schema.version() as u64);
                let head = concat3("unknown observation schema: ", schema.name(), "/");
                concat2(head.as_str(), v.as_str())
            },
            ValidationError::InvalidStructure(m) => concat2(
                "structural validation failed: ",
                m.as_str(),
            ),
            ValidationError::MissingProvenance(m) => concat2(
                "missing required provenance: ",
                m.as_str(),
            ),
            ValidationError::Schema(e) => {
                let inner = e.to_string();
                concat2("schema error: ", inner.as_str())
            },
            ValidationError::Fact(e) => {
                let inner = e.to_string();
                concat2("fact error: ", inner.as_str())
            },
            ValidationError::Source(e) => {
                let inner = e.to_string();
                concat2("source error: ", inner.as_str())
            },
        }
    }

    /// The wrapped lower-level error, when there is one.
    pub fn source(&self) -> (r: Option<ErrorCause>)
        ensures
            r == match *self {
                ValidationError::Schema(e) => Some(ErrorCause::Schema(e)),
                ValidationError::Fact(e) => Some(ErrorCause::Fact(e)),
                ValidationError::Source(e) => Some(ErrorCause::Source(e)),
                _ => None,
            },
    {
        match self {
            ValidationError::Schema(SchemaError::EmptyName) => Some(
                ErrorCause::Schema(SchemaError::EmptyName),
            ),
            ValidationError::Fact(FactError::EmptyName) => Some(
                ErrorCause::Fact(FactError::EmptyName),
            ),
            ValidationError::Source(SourceError::Empty) => Some(
                ErrorCause::Source(SourceError::Empty),
            ),
            _ => None,
        }
    }
}

impl From<SchemaError> for ValidationError {
    fn from(err: SchemaError) -> (r: Self) {
        ValidationError::Schema(err)
    }
}

impl FromSpecImpl<SchemaError> for ValidationError {
    open spec fn obeys_from_spec() -> bool {
        true
    }

    open spec fn from_spec(err: SchemaError) -> Self {
        ValidationError::Schema(err)
    }
}

impl From<FactError> for ValidationError {
    fn from(err: FactError) -> (r: Self) {
        ValidationError::Fact(err)
    }
}

impl FromSpecImpl<FactError> for ValidationError {
    open spec fn obeys_from_spec() -> bool {
        true
    }

    open spec fn from_spec(err: FactError) -> Self {
        ValidationError::Fact(err)
    }
}

impl From<SourceError> for ValidationError {
    fn from(err: SourceError) -> (r: Self) {
        ValidationError::Source(err)
    }
}

impl FromSpecImpl<SourceError> for ValidationError {
    open spec fn obeys_from_spec() -> bool {
        true
    }

    open spec fn from_spec(err: SourceError) -> Self {
        ValidationError::Source(err)
    }
}

/// Errors of stage-2 canonicalization.
#[derive(Debug, PartialEq, Eq)]
pub enum CanonicalizationError {
    /// Evidence could not be transformed into canonical representation.
    NormalizationFailed(String),
    /// Unrecognized structural format.
    NonCanonical(String),
    /// The canonical encoding could not be produced.
    EncodingFailed(String),
    /// The supplied format is invalid.
    InvalidFormat(String),
}

/// The message of a canonicalization error.
pub open spec fn canonicalization_text(e: CanonicalizationError) -> Seq<char> {
    match e {
        CanonicalizationError::NormalizationFailed(m) => "canonicalization normalization failed: "@
            + m@,
        CanonicalizationError::NonCanonical(m) => "canonicalization format invalid: "@ + m@,
        CanonicalizationError::EncodingFailed(m) => "canonicalization encoding failed: "@ + m@,
        CanonicalizationError::InvalidFormat(m) => "canonicalization format invalid: "@ + m@,
    }
}

impl CanonicalizationError {
    /// The human-readable message.
    pub fn to_string(&self) -> (s: String)
        ensures
            s@ == canonicalization_text(*self),
    {
        match self {
            CanonicalizationError::NormalizationFailed(m) => concat2(
                "canonicalization normalization failed: ",
                m.as_str(),
            ),
            CanonicalizationError::NonCanonical(m) => concat2(
                "canonicalization format invalid: ",
                m.as_str(),
            ),
            CanonicalizationError::EncodingFailed(m) => concat2(
                "canonicalization encoding failed: ",
                m.as_str(),
            ),
            CanonicalizationError::InvalidFormat(m) => concat2(
                "canonicalization format invalid: ",
                m.as_str(),
            ),
        }
    }
}

/// Errors of stage-4 integrity verification.
#[derive(Debug, PartialEq, Eq)]
pub enum IntegrityError {
    /// A checksum or hash did not match.
    ChecksumMismatch { expected: String, actual: String },
    /// General integrity verification failure.
    VerificationFailed(String),
}

/// The message of an integrity error.
pub open spec fn integrity_text(e: IntegrityError) -> Seq<char> {
    match e {
        IntegrityError::ChecksumMismatch { expected, actual } => "integrity checksum mismatch: expected "@
            + expected@ + ", got "@ + actual@,
        IntegrityError::VerificationFailed(m) => "integrity verification failed: "@ + m@,
    }
}

impl IntegrityError {
    /// The human-readable message.
    pub fn to_string(&self) -> (s: String)
        ensures
            s@ == integrity_text(*self),
    {
        match self {
            IntegrityError::ChecksumMismatch { expected, actual } => {
                let head = concat3(
                    "integrity checksum mismatch: expected ",
                    expected.as_str(),
                    ", got ",
                );
                concat2(head.as_str(), actual.as_str())
            },
            IntegrityError::VerificationFailed(m) => concat2(
                "integrity verification failed: ",
                m.as_str(),
            ),
        }
    }
}

/// Errors of stage-5 persistence.
#[derive(Debug, PartialEq, Eq)]
pub enum PersistenceError {
    /// The observation could not be written durably.
    WriteFailed(String),
    /// The write could not be committed.
    CommitFailed(String),
    /// The persistence target is unavailable.
    StorageUnavailable(String),
}

/// The message of a persistence error.
pub open spec fn persistence_text(e: PersistenceError) -> Seq<char> {
    match e {
        PersistenceError::WriteFailed(m) => "persistence write failed: "@ + m@,
        PersistenceError::CommitFailed(m) => "persistence commit failed: "@ + m@,
        PersistenceError::StorageUnavailable(m) => "persistence storage unavailable: "@ + m@,
    }
}

impl PersistenceError {
    /// The human-readable message.
    pub fn to_string(&self) -> (s: String)
        ensures
            s@ == persistence_text(*self),
    {
        match self {
            PersistenceError::WriteFailed(m) => concat2("persistence write failed: ", m.as_str()),
            PersistenceError::CommitFailed(m) => concat2("persistence commit failed: ", m.as_str()),
            PersistenceError::StorageUnavailable(m) => concat2(
                "persistence storage unavailable: ",
                m.as_str(),
            ),
        }
    }
}

/// Any failure of the acceptance pipeline, by the stage that refused.
#[derive(Debug, Clone, PartialEq, Eq)]
pub enum ObservationError {
    /// Stage 1: validation.
    Validation(ValidationError),
    /// Stage 2: canonicalization.
    Canonicalization(CanonicalizationError),
    /// Stage 4: integrity verification.
    Integrity(IntegrityError),
    /// Stage 5: durable persistence.
    Persistence(PersistenceError),
}

/// The message of an observation error.
pub open spec fn observation_text(e: ObservationError) -> Seq<char> {
    match e {
        ObservationError::Validation(v) => "observation rejected at validation stage: "@
            + validation_text(v),
        ObservationError::Canonicalization(c) => "observation rejected at canonicalization stage: "@
            + canonicalization_text(c),
        ObservationError::Integrity(i) => "observation rejected at integrity stage: "@
            + integrity_text(i),
        ObservationError::Persistence(p) => "observation rejected at persistence stage: "@
            + persistence_text(p),
    }
}

impl ObservationError {
    /// The human-readable message, naming the refusing stage.
    pub fn to_string(&self) -> (s: String)
        ensures
            s@ == observation_text(*self),
    {
        match self {
            ObservationError::Validation(e) => {
                let inner = e.to_string();
                concat2("observation rejected at validation stage: ", inner.as_str())
            },
            ObservationError::Canonicalization(e) => {
                let inner = e.to_string();
                concat2("observation rejected at canonicalization stage: ", inner.as_str())
            },
            ObservationError::Integrity(e) => {
                let inner = e.to_string();
                concat2("observation rejected at integrity stage: ", inner.as_str())
            },
            ObservationError::Persistence(e) => {
                let inner = e.to_string();
                concat2("observation rejected at persistence stage: ", inner.as_str())
            },
        }
    }

    /// The stage error this aggregate wraps.
    pub fn source(&self) -> (r: Option<ErrorCause>)
        ensures
            r == Some(match *self {
                ObservationError::Validation(e) => ErrorCause::Validation(e),
                ObservationError::Canonicalization(e) => ErrorCause::Canonicalization(e),
                ObservationError::Integrity(e) => ErrorCause::Integrity(e),
                ObservationError::Persistence(e) => ErrorCause::Persistence(e),
            }),
    {
        match self {
            ObservationError::Validation(e) => Some(ErrorCause::Validation(e.clone())),
            ObservationError::Canonicalization(e) => Some(ErrorCause::Canonicalization(e.clone())),
            ObservationError::Integrity(e) => Some(ErrorCause::Integrity(e.clone())),
            ObservationError::Persistence(e) => Some(ErrorCause::Persistence(e.clone())),
        }
    }
}

impl From<ValidationError> for ObservationError {
    fn from(err: ValidationError) -> (r: Self) {
        ObservationError::Validation(err)
    }
}

impl FromSpecImpl<ValidationError> for ObservationError {
    open spec fn obeys_from_spec() -> bool {
        true
    }

    open spec fn from_spec(err: ValidationError) -> Self {
        ObservationError::Validation(err)
    }
}

impl From<CanonicalizationError> for ObservationError {
    fn from(err: CanonicalizationError) -> (r: Self) {
        ObservationError::Canonicalization(err)
    }
}

impl FromSpecImpl<CanonicalizationError> for ObservationError {
    open spec fn obeys_from_spec() -> bool {
        true
    }

    open spec fn from_spec(err: CanonicalizationError) -> Self {
        ObservationError::Canonicalization(err)
    }
}

impl From<IntegrityError> for ObservationError {
    fn from(err: IntegrityError) -> (r: Self) {
        ObservationError::Integrity(err)
    }
}

impl FromSpecImpl<IntegrityError> for ObservationError {
    open spec fn obeys_from_spec() -> bool {
        true
    }

    open spec fn from_spec(err: IntegrityError) -> Self {
        ObservationError::Integrity(err)
    }
}

impl From<PersistenceError> for ObservationError {
    fn from(err: PersistenceError) -> (r: Self) {
        ObservationError::Persistence(err)
    }
}

impl FromSpecImpl<PersistenceError> for ObservationError {
    open spec fn obeys_from_spec() -> bool {
        true
    }

    open spec fn from_spec(err: PersistenceError) -> Self {
        ObservationError::Persistence(err)
    }
}

/// The cause behind an error, one level down the chain.
#[derive(Debug, Clone, PartialEq, Eq)]
pub enum ErrorCause {
    Validation(ValidationError),
    Canonicalization(CanonicalizationError),
    Integrity(IntegrityError),
    Persistence(PersistenceError),
    Schema(SchemaError),
    Fact(FactError),
    Source(SourceError),
}

/// The message of a cause.
pub open spec fn cause_text(c: ErrorCause) -> Seq<char> {
    match c {
        ErrorCause::Validation(e) => validation_text(e),
        ErrorCause::Canonicalization(e) => canonicalization_text(e),
        ErrorCause::Integrity(e) => integrity_text(e),
        ErrorCause::Persistence(e) => persistence_text(e),
        ErrorCause::Schema(_) => schema_error_text(),
        ErrorCause::Fact(_) => fact_error_text(),
        ErrorCause::Source(_) => source_error_text(),
    }
}

impl ErrorCause {
    /// The cause's own message.
    pub fn to_string(&self) -> (s: String)
        ensures
            s@ == cause_text(*self),
    {
        match self {
            ErrorCause::Validation(e) => e.to_string(),
            ErrorCause::Canonicalization(e) => e.to_string(),
            ErrorCause::Integrity(e) => e.to_string(),
            ErrorCause::Persistence(e) => e.to_string(),
            ErrorCause::Schema(e) => e.to_string(),
            ErrorCause::Fact(e) => e.to_string(),
            ErrorCause::Source(e) => e.to_string(),
        }
    }

    /// The next cause down the chain, when there is one.
    pub fn source(&self) -> (r: Option<ErrorCause>)
        ensures
            r == match *self {
                ErrorCause::Validation(ValidationError::Schema(e)) => Some(ErrorCause::Schema(e)),
                ErrorCause::Validation(ValidationError::Fact(e)) => Some(ErrorCause::Fact(e)),
                ErrorCause::Validation(ValidationError::Source(e)) => Some(ErrorCause::Source(e)),
                _ => None,
            },
    {
        match self {
            ErrorCause::Validation(e) => e.source(),
            _ => None,
        }
    }
}

impl Clone for ValidationError {
    fn clone(&self) -> (r: Self)
        ensures
            r == *self,
    {
        match self {
            ValidationError::UnknownSchema(s) => ValidationError::UnknownSchema(s.copy()),
            ValidationError::InvalidStructure(m) => ValidationError::InvalidStructure(m.clone()),
            ValidationError::MissingProvenance(m) => ValidationError::MissingProvenance(m.clone()),
            ValidationError::Schema(SchemaError::EmptyName) => ValidationError::Schema(
                SchemaError::EmptyName,
            ),
            ValidationError::Fact(FactError::EmptyName) => ValidationError::Fact(
                FactError::EmptyName,
            ),
            ValidationError::Source(SourceError::Empty) => ValidationError::Source(
                SourceError::Empty,
            ),
        }
    }
}

impl Clone for CanonicalizationError {
    fn clone(&self) -> (r: Self)
        ensures
            r == *self,
    {
        match self {
            CanonicalizationError::NormalizationFailed(m) => CanonicalizationError::NormalizationFailed(
                m.clone(),
            ),
            CanonicalizationError::NonCanonical(m) => CanonicalizationError::NonCanonical(m.clone()),
            CanonicalizationError::EncodingFailed(m) => CanonicalizationError::EncodingFailed(
                m.clone(),
            ),
            CanonicalizationError::InvalidFormat(m) => CanonicalizationError::InvalidFormat(m.clone()),
        }
    }
}

impl Clone for IntegrityError {
    fn clone(&self) -> (r: Self)
        ensures
            r == *self,
    {
        match self {
            IntegrityError::ChecksumMismatch { expected, actual } => IntegrityError::ChecksumMismatch {
                expected: expected.clone(),
                actual: actual.clone(),
            },
            IntegrityError::VerificationFailed(m) => IntegrityError::VerificationFailed(m.clone()),
        }
    }
}

impl Clone for PersistenceError {
    fn clone(&self) -> (r: Self)
        ensures
            r == *self,
    {
        match self {
            PersistenceError::WriteFailed(m) => PersistenceError::WriteFailed(m.clone()),
            PersistenceError::CommitFailed(m) => PersistenceError::CommitFailed(m.clone()),
            PersistenceError::StorageUnavailable(m) => PersistenceError::StorageUnavailable(m.clone()),
        }
    }
}

} // verus!
