//! Flag-composition engine.
//!
//! Reads a declarative configuration describing color palettes ("flags") and
//! clip silhouettes ("clips"), lays the palettes out as horizontal color
//! bands, and composes, for every (flag, clip) pair, a standalone vector
//! document in which the bands are clipped to the silhouette and optionally
//! outlined with a stroked border.
//!
//! Coordinates and weights are fixed-point values: one user-visible unit is
//! `numparse::SCALE` internal ticks, so the band layout is exact integer
//! arithmetic rather than floating point.

pub mod color;
pub mod compose;
pub mod config;
pub mod geom;
pub mod laws;
pub mod numparse;
pub mod svgtree;
