//! Terrain streaming around a moving viewpoint: a square window of patches kept
//! centred on the viewpoint's grid cell, shared triangle topologies for three
//! levels of detail, and the per-patch choice among them.

pub mod lod;
pub mod topology;
pub mod grid;
