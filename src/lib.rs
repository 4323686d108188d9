//! Tiled navigation-mesh generation, verified.
//!
//! - `voxels`: columns of solid spans, merged on insert.
//! - `heightfields`: open spans above the solid ones, linked across cells;
//!   erosion of the walkable area and the distance field, composed by
//!   `build_walkable_tile`.
//! - `regions`: removal and merging of undersized regions.
//! - `contour`, `simplify`: packed contour vertex data and contour
//!   simplification within an error bound.
//! - `geometry`: exact integer orientation, segment and diagonal tests used
//!   when meshing contours.
//! - `query`: corridor search over polygon adjacency.
//! - `tiles`: the shared tile map, whose generation stamps reject stale writes.
//! - `affectors`, `relations`, `tracking`, `scheduling`: which entities
//!   affect which tiles, dirty marking, and stamped rebuild jobs.
//! - `settings`, `conversion`: generation settings, grid addressing, and how
//!   collider shapes are gathered.

pub mod affectors;
pub mod contour;
pub mod conversion;
pub mod geometry;
pub mod heightfields;
pub mod query;
pub mod regions;
pub mod relations;
pub mod scheduling;
pub mod settings;
pub mod simplify;
pub mod tiles;
pub mod tracking;
pub mod voxels;
