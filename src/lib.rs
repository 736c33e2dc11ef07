//! Terrain collision and level geometry for a tile-based platform game:
//! level grids of reusable blocks, per-column collision tiles decoded from a
//! bitmap, point queries and the ground sweep that rests a body on the
//! surface beneath it.
pub mod act;
pub mod act_laws;
pub mod animation;
pub mod block;
pub mod collision_map;
pub mod entity_data;
pub mod ground;
pub mod input;
pub mod terrain;
pub mod text;
