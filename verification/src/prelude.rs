//! The items that are needed most often.

pub use crate::anima::context::ControlContext;
pub use crate::anima::error::ControllerError;
pub use crate::anima::host::ControllerHost;
pub use crate::anima::scheduler::{Scheduler, TaskAction, TaskId};
pub use crate::anima::traits::{AccessLevel, ControllerDef, EntityController};
pub use crate::anima::zone_access::{EntityInfo, ZoneAccess};
pub use crate::continuum::container::{
    ContainerInfo, ContainerItem, ContainerStore, HashContainerStore, NoContainers, ZoneContainers,
};
pub use crate::continuum::item_props::{HashItemProps, NoItemProps, ZoneItemProps};
pub use crate::continuum::observer::{ObserverId, ObserverRegistry};
pub use crate::continuum::snapshot::{WorldSnapshot, ZoneSnapshot};
pub use crate::continuum::traits::{CommandHandler, EntityStore};
pub use crate::continuum::worker::{Worker, WorkerCommand};
pub use crate::continuum::world_event::WorldEvent;
pub use crate::continuum::zone::Zone;
pub use crate::diorama::bootstrap::generate_bootstrap;
pub use crate::diorama::composite_tiles::CompositeTileProvider;
pub use crate::diorama::observer_event::{ObserverEvent, PopupMenuEntry};
pub use crate::diorama::pipeline::ObserverPipeline;
pub use crate::diorama::session_view::SessionView;
pub use crate::diorama::staleness::StalenessTracker;
pub use crate::diorama::visible_world::{
    EntityData, VisibleItem, VisibleKind, VisibleSet, VisibleWorld, WorldEntity,
};
pub use crate::ecumene::{
    CollisionSnapshot, DiffAwareDataProvider, DiffOverlay, EntityRegistry, LosRay, LosTrace,
    LosValidator, MovementValidator, ShapeProvider, SpatialIndex, StaticTileProvider,
    StaticWorldData, TileBlock, TileProvider, TileRect,
};
pub use crate::moira::{
    AccessPolicy, Account, AccountStatus, AccountStore, AccountStoreError, AuthError,
    Authenticator, SessionError, SessionManager, SessionToken,
};
pub use crate::rythmos::pending_queue::{PendingQueue, PendingStep};
pub use crate::rythmos::position_tracker::PositionTracker;
pub use crate::rythmos::z_resolver::ZResolver;
pub use crate::vessel::entity::{Entity, EntitySnapshot};
pub use crate::vessel::static_data::StaticDataProvider;
pub use crate::vessel::tile_shape::TileShape;
