//! What stands on a tile.

pub mod entity;
pub mod static_data;
pub mod tile_shape;

pub use entity::{Entity, EntitySnapshot, EntityState};
pub use static_data::{
    MapBlock, MapTile, MultiPart, StaticDataProvider, StaticTile, TileShaper,
};
pub use tile_shape::{TileFlags, TileShape};
