//! Workspace replay: formation re-executed over the canonical observation
//! history, in canonical order.

pub mod corpus;
pub mod replay;
