//! Verified kernel of a phased-array drive optimizer suite.
//!
//! The numeric solvers work in floating point and live with the application;
//! this library holds what they decide and index: the layout of observation
//! grids, the bookkeeping of target sets, the discrete searches and selections,
//! the minors and cross updates of the relaxation matrix, the control of the
//! damped iteration, and the writing of drives into the emitter array. It is
//! generic in the scalar, complex and vector types, so no function here does
//! arithmetic on them.

pub mod axis;
pub mod bounds;
pub mod buffer_type;
pub mod dimension;
pub mod grid;
pub mod matrix;
pub mod minor;
pub mod optimizer;
pub mod random;
pub mod select;
pub mod targets;
pub mod wave_source;
