//! World geometry: areas, tile stacks, movement and sight.

pub mod diff_overlay;
pub mod diff_provider;
pub mod entity_registry;
pub mod keeping_laws;
pub mod land_z;
pub mod line_of_sight;
pub mod map_laws;
pub mod movement;
pub mod multi_def;
pub mod multi_spatial;
pub mod pathfinding;
pub mod remembered_shapes;
pub mod shape_provider;
pub mod sight_laws;
pub mod snapshot;
pub mod static_provider;
pub mod static_world_data;
pub mod step_laws;
pub mod tile_block;
pub mod tile_provider;
pub mod tile_rect;

pub use diff_overlay::DiffOverlay;
pub use diff_provider::DiffAwareDataProvider;
pub use entity_registry::{CacheMode, EntityRegistry, StalenessConfig};
pub use line_of_sight::{LosRay, LosTrace, LosValidator};
pub use movement::MovementValidator;
pub use multi_def::{MultiDef, MultiExtent, PartEntry};
pub use multi_spatial::{BBoxSpatialIndex, BlockSpatialIndex, SpatialIndex};
pub use pathfinding::{
    CacheStats, CachingProvider, DistanceFunc, Point, Surveyor, TraceOptions,
};
pub use shape_provider::ShapeProvider;
pub use snapshot::{CollisionSnapshot, PathBlock};
pub use static_provider::StaticTileProvider;
pub use static_world_data::{StaticWorldData, WorldFiles};
pub use tile_block::TileBlock;
pub use tile_provider::TileProvider;
pub use tile_rect::TileRect;
