//! Verified core of a phased-array beam-synthesis toolkit.
//!
//! The crate holds the scalar-independent structure of the beam pipeline:
//! the 2-D excitation-grid transforms with their quarter-grid symmetry
//! folding, the sphere-grid ring bookkeeping used for azimuthal averaging,
//! the mirror-symmetric array construction helpers, and the integer
//! grid-array trimming tools.  The floating-point arithmetic that runs on
//! top of this structure lives outside the verified core.

pub mod grid;
pub mod sphere;
pub mod symmetry;
pub mod trim;
