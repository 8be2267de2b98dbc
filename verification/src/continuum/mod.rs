//! Zones of the world: what they hold and who watches them.

pub mod cargo;
pub mod container;
pub mod container_laws;
pub mod hearing_laws;
pub mod item_props;
pub mod observer;
pub mod snapshot;
pub mod traits;
pub mod voyage_laws;
pub mod worker;
pub mod world_event;
pub mod zone;
pub mod zone_laws;

pub use container::{
    ContainerInfo, ContainerItem, ContainerStore, HashContainerStore, NoContainers, ZoneContainers,
};
pub use item_props::{HashItemProps, NoItemProps, ZoneItemProps};
pub use world_event::{ContainerContentChange, WorldEvent};
pub use observer::{ObserverId, ObserverRegistry};
pub use traits::{CommandHandler, EntityStore};
pub use snapshot::{WorldSnapshot, ZoneSnapshot};
pub use worker::{CrossZoneOp, TransferError, TransferResult, Worker, WorkerCommand};
pub use zone::Zone;
