//! Verified building blocks of a low-poly image renderer and of a maze graph builder.
pub mod ndgrid;
pub mod utl;
pub mod picture;
pub mod graph;
