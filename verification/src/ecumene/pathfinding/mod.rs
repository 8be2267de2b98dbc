//! The search for a way over the map.
//!
//! [`Surveyor::trace_a_star`] looks for a way from one place to another, the most
//! promising place first. [`TraceOptions`] tune the search, [`Point`]s tell what it
//! found. Each block of the map is fetched once per search, by a
//! [`CachingProvider`].

pub mod cache;
pub mod frontier;
pub mod plan;
pub mod surveyor;
pub mod way_laws;

pub use cache::{CacheStats, CachingProvider};
pub use plan::{AStarAction, AStarEvent, DistanceFunc, Point, TraceOptions};
pub use surveyor::Surveyor;
