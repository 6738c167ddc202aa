//! Usage-history analytics for a command-driven interface.
//!
//! The crate records which commands a user invokes, which search queries they
//! run and which resources they view, keeps that history under a retention
//! policy, aggregates it into statistics, mines recurring command sequences
//! and predicts the next command from them. All persistent storage and host
//! integration live outside this crate; the logic here works on an in-memory
//! model and is verified.

pub mod laws;
pub mod mining;
pub mod order;
pub mod schema;
pub mod screenshot;
pub mod store;
pub mod time;
pub mod types;
pub mod window;

use vstd::prelude::*;

verus! {

/// Cap on the retained rows of the query and resource tables.
pub const RETENTION_CAP: usize = 100;

} // verus!
