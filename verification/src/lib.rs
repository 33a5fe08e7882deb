//! Evo: the verified observation model, the activity-ledger logic and the
//! pod decisions, each stated over mathematical models of its data.

pub mod text;
pub mod sorting;
pub mod sums;
pub mod chars;
pub mod observation;
pub mod ledger;
pub mod pods;
pub mod replay;
