//! Procedural tile-map generation, A*-style pathfinding over the tile graph,
//! and a persistence codec that round-trips the tile graph to bytes.

pub mod biome;
pub mod codec;
pub mod gen;
pub mod grid;
pub mod passes;
pub mod path;
mod rng;
pub mod tile;
pub mod wire;

pub use biome::Biome;
pub use biome::BiomeControl;
pub use biome::TileChance;
pub use biome::random_biome;
pub use codec::CodecError;
pub use grid::Grid;
pub use passes::GenError;
pub use path::PathMap;
pub use path::PathTile;
pub use path::Walkability;
pub use tile::Coord;
pub use tile::Tile;
pub use tile::TileKind;
pub use tile::TileType;
