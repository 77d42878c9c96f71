//! Verified core of a terminal Gaussian-splat viewer: the deterministic scene
//! PRNG, the PLY header and record layout, tile binning and depth ordering for
//! the rasterizer, the terminal output encoders and the HUD state machine.

pub mod rng;
pub mod depth_sort;
pub mod tiles;
pub mod parallel;
pub mod ansi;
pub mod framebuffer;
pub mod display;
pub mod hud;
pub mod text;
pub mod ply;
pub mod controls;
pub mod bench;
