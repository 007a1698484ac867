//! A Conway's Game of Life engine on a dynamically sized grid.
//!
//! The grid stores only the active region of the infinite plane: it grows by
//! one row or column whenever live cells reach an edge and shrinks back when
//! the outer layers are dead, so that its size stays proportional to the
//! bounding box of the live population.  A pan/zoom viewport selects which
//! grid coordinates a renderer should query for display.

pub mod active;
pub mod camera;
pub mod cell;
pub mod grid;
pub mod life;
