//! Building blocks for tile-based 2D games: a pool of slots with
//! generation-checked handles, a sparse grid of cells, and a world of
//! rectangular bodies that moves on a fixed step of time and stops bodies
//! against each other.
//!
//! Lengths are whole numbers of a sub-unit of the caller's choosing, and
//! velocities are sub-units per second: a world unit of a million sub-units
//! gives a body with a velocity of one unit per second a step of 16666
//! sub-units. Every comparison is exact, and no sum wraps.
//!
//! Each type says what it holds through a model (`PoolModel`, a map of
//! regions, `WorldModel`), and the contracts of its functions are written
//! over that model. The modules [`laws`], [`sweep`] and [`pool_model`] hold
//! what is proved of the models themselves.

pub mod collide;
pub mod geom;
pub mod grid;
pub mod laws;
pub mod masks;
pub mod motion;
pub mod partition;
pub mod pool;
pub mod pool_model;
pub mod shape;
pub mod sweep;
