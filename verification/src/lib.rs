//! A door-to-door journey planner over an urban public-transit network.
//!
//! The library builds an in-memory transit graph from stop and schedule
//! records, and answers single-journey queries with a time-aware best-first
//! search that mixes short walks with scheduled bus and trolley rides.
//! Geometry (great-circle distances between coordinates) is not computed
//! here: callers hand in walking links, each a stop index with a walking
//! time in seconds, and get back an itinerary of walk and ride segments.

pub mod graph;
pub mod model;
pub mod route;
pub mod search;
pub mod time;

use vstd::prelude::*;

verus! {

/// Upper bound on every raw time value (seconds) accepted from input data.
/// Generous (more than eight years), it exists only so that the arithmetic
/// of the search provably stays within `u64`.
pub const RAW_LIMIT: u64 = 0x1000_0000;

} // verus!
