//! Metaball field simulation in fixed-point arithmetic.
//!
//! Particles live in the normalized unit square, represented as integers
//! in units of one millionth (`SCALE` units make one). Each particle is pulled
//! toward a shared target point, damped near it, limited in speed and
//! reflected at the edges of the square. A render frame collects the centers
//! that a compositor draws, and the compositor's field is given here as well.

pub mod fixed;
pub mod blob;
pub mod render;
pub mod simulation;
pub mod fps;

pub use fixed::{Vec2, SCALE, ceil_sqrt};
pub use blob::{Blob, Config};
pub use simulation::Simulation;
pub use fps::{FpsCounter, WINDOW_MS};
pub use render::{RenderFrame, MAX_BLOBS, BLOB_RADIUS, SMOOTHING, SENTINEL, EDGE_WIDTH, smooth_min, blob_sdf, smoothstep_edge};


