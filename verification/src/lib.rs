//! A multi-collection registry of non-fungible tokens.
//!
//! The registry tracks, per collection, token ownership, per-token transfer
//! approvals, collection custodians and per-owner operator sets, together
//! with a process-wide transaction counter.  The whole state can be encoded
//! to a byte blob and decoded back, so it survives a process replacement.

pub mod codec;
pub mod ident;
pub mod laws;
pub mod model;
pub mod registry;
