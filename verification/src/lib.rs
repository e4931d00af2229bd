//! Voxel terrain core: chunk grids sampled from signed distance fields,
//! surface-nets mesh topology, and the small decision rules of the engine
//! around them (camera driving, cursor capture, free-camera movement).

pub mod shape;
pub mod voxels;
pub mod lex;
pub mod surface_nets;
pub mod sdf;
pub mod render_views;
pub mod input;
