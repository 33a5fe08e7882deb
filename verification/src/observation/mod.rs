//! The Observation model: schema identity, evidence, provenance, the
//! candidate, and the acceptance pipeline that turns a candidate into an
//! immutable observation.

pub mod schema;
pub mod evidence;
pub mod provenance;
pub mod errors;
pub mod candidate;
pub mod observation;
pub mod language;
pub mod observed_state;
pub mod validation;
pub mod pipeline;
