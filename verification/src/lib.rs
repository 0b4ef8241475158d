//! Integer core of a procedural terrain engine: grid layout and neighbourhood
//! enumeration, per-tile seed derivation, the on-demand tile cache, the
//! value-noise lattice, the Diamond-Square working size and subdivision
//! order, the Voronoi acceleration grid size, and the RGBA weight-map buffer.

pub mod diamond;
pub mod grid;
pub mod noise;
pub mod seeds;
pub mod splat;
pub mod subdivision;
pub mod tiles;
pub mod voronoi;

pub use diamond::{MidpointStep, diamond_step_count, required_size, subdivision_schedule};
pub use noise::NoiseLattice;
pub use grid::{Direction, GridShape, WindowCell};
pub use seeds::{derive_tile_seed, splitmix64};
pub use splat::WeightMap;
pub use tiles::TileCache;
pub use voronoi::VoronoiTerracing;
