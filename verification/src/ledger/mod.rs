//! The activity ledger's logic: page identity, resource identity, the
//! observation log format, attention intervals and work formation.

pub mod pages;
pub mod event;
pub mod identity;
pub mod observation_log;
pub mod intervals;
pub mod works;
pub mod hypotheses;
pub mod search;
pub mod gate;
pub mod production;
pub mod input_fusion;
pub mod engine;
pub mod titles;
pub mod grouping;
pub mod probe;
