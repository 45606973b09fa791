//! Core of a live Q&A session service: a host opens an event, guests submit
//! questions, anyone can upvote, and the host can mark questions answered or
//! hide them.
//!
//! This crate holds the verified core: the record store with its atomic vote
//! counters and idempotent toggles, the access-control check, the ranking
//! engine that decides which questions a viewer sees and in what order, and
//! the session operations composed from those parts. Transport concerns
//! (HTTP routing, serialization, the remote storage backend) live outside.

use vstd::prelude::*;

pub mod ids;
pub mod rank;
pub mod session;
pub mod store;
pub mod text;

pub use ids::Id;

verus! {

/// Direction of a vote on a question.
#[derive(Debug, Copy, Clone, PartialEq, Eq, Structural)]
pub enum UpDown {
    Up,
    Down,
}

} // verus!
