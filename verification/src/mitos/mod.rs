//! What scripts need of the library: events that wait for them, their parameters, and
//! the rules by which they are started and stopped.

pub mod event_buffer;
pub mod manager;
pub mod runtime;
pub mod types;

pub use event_buffer::{BroadcastEventBuffer, EventPosition, SimpleEventBuffer, SpatialFilter};
pub use manager::{ManagerAction, ScriptCommand, ScriptManager};
pub use types::{AnimateOpts, EffectParams, SayOpts};
