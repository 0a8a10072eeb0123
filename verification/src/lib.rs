//! Level-of-detail chunk streaming for a spherical surface: an octree over
//! the surface's cell centres, the resolver that picks the regions a point
//! of view needs, and the life cycle that replaces chunks without gaps.
//!
//! Positions are integers on a fixed grid, [`grid::UNIT`] steps to one unit
//! of length, so that every rule of the library is exact.

pub mod chunk_index;
pub mod chunk_storage;
pub mod chunking;
pub mod geometry_data;
pub mod grid;
pub mod helpers;
pub mod index_map;
pub mod lifecycle;
pub mod octree;
pub mod partition;
pub mod resolver;
pub mod seq_facts;
pub mod shape;
