//! A verified model of a tile-laying game board.
//!
//! The library models a fixed 4x4 board whose cells hold resource cubes or
//! completed buildings, together with the shape-matching core of the game:
//! every building has a canonical footprint (a small grid of resource
//! requirements with gaps), and the library computes the distinct
//! orientations of that footprint under the eight symmetries of a square and
//! enumerates every anchor position at which each orientation fits on the
//! board.

pub mod board;
pub mod building;
pub mod grid;
pub mod pattern;
