//! What one session sees of the world.

pub mod bootstrap;
pub mod composite_tiles;
pub mod container_packets;
pub mod following_laws;
pub mod memory_laws;
pub mod observer_event;
pub mod pipeline;
pub mod seeing_laws;
pub mod session_view;
pub mod staleness;
pub mod visible_world;

pub use bootstrap::{generate_bootstrap, BootstrapPacket};
pub use composite_tiles::CompositeTileProvider;
pub use container_packets::{container_item_from_add, container_items_from_content};
pub use observer_event::{ObserverEvent, PopupMenuEntry};
pub use pipeline::{DrainReason, ObserverPipeline};
pub use session_view::{SessionRequest, SessionView};
pub use staleness::StalenessTracker;
pub use visible_world::{
    EntityData, VisibleItem, VisibleKind, VisibleSet, VisibleWorld, WorldEntity,
};
