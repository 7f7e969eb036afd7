//! A schema-migration engine for an embedded relational store.
//!
//! Migrations form a dependency graph over 128-bit identifiers. The library
//! resolves which migrations a store still needs and in which order, plans
//! reverts in reverse dependency order, keeps the applied-set bookkeeping, and
//! drives execution one transaction per migration as a state machine whose
//! side effects the embedding application performs.
use vstd::prelude::*;

pub mod ident;
pub mod registry;
pub mod applied;
pub mod resolve;
pub mod engine;
pub mod zip48_multisig;

verus! {

} // verus!
