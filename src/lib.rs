//! Bounded-concurrency lookup fan-out: a permit pool that limits how many
//! lookups are in flight, a supervisor that decides when each lookup starts and
//! turns each reply into one outcome, and an aggregate of those outcomes.
//!
//! The library holds the decisions only. The caller performs the network
//! calls and feeds the replies back, one event at a time.

pub mod payload;
pub mod pool;
pub mod outcome;
pub mod aggregate;
pub mod supervisor;
pub mod render;
