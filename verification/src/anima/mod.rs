//! Controllers of entities and their timers.

pub mod context;
pub mod deed_laws;
pub mod error;
pub mod host;
pub mod scheduler;
pub mod traits;
pub mod turn_laws;
pub mod zone_access;

pub use context::ControlContext;
pub use error::ControllerError;
pub use host::ControllerHost;
pub use scheduler::{Scheduler, TaskAction, TaskId};
pub use traits::{AccessLevel, ControllerDef, ControllerProfile, EntityController};
pub use zone_access::{EntityInfo, Outlet, ZoneAccess};
