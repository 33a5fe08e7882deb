//! Pods: a body of work as a desktop object — its launch policies, its
//! wrapper bundle texts, its identity and the decisions around it.

pub mod policy;
pub mod wrapper;
pub mod pod;
pub mod addon_store;
pub mod gesture;
pub mod config;
pub mod dim;
pub mod stage;
pub mod runtime;
pub mod lease;
