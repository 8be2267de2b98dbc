//! Steps of the player: where they lead and which of them are still in doubt.

pub mod pending_queue;
pub mod position_tracker;
pub mod z_resolver;

pub use pending_queue::{AckOutcome, PendingQueue, PendingStep};
pub use position_tracker::PositionTracker;
pub use z_resolver::ZResolver;
