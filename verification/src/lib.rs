//! Geo-spatial terrain streaming: the quadtree level-of-detail policy, the
//! resident-tile bookkeeping and the tile-fetch scheduling of a Bevy terrain
//! plugin, as verified plain-value logic. The engine glue (ECS systems,
//! meshes, materials, HTTP) lives outside this crate and drives it.

pub mod config;
pub mod keys;
pub mod lod;
pub mod source;
pub mod store;
pub mod text;
