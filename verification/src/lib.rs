//! World simulation and observation for a tile-based online world.
//!
//! Every item of this crate is verified: what a function does is stated in
//! its contract and proved from its body.

pub mod anima;
pub mod collections;
pub mod continuum;
pub mod coords;
pub mod diorama;
pub mod ecumene;
pub mod mitos;
pub mod moira;
pub mod packets;
pub mod prelude;
pub mod raw_bytes;
pub mod rythmos;
pub mod text;
pub mod time;
pub mod vessel;
