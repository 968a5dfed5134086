//! Turns rendered document pages into terminal-displayable frames.
//!
//! The crate holds the decisions of the conversion pipeline: which page to
//! convert next, which tiles a viewport shows, how overlays are painted and
//! what is handed to the terminal encoders. Encoding, shared memory and
//! channels belong to the host.

pub mod cache;
pub mod delivery;
pub mod engine;
pub mod focus;
pub mod frame;
pub mod geometry;
pub mod laws;
pub mod laws_flow;
pub mod laws_overlays;
pub mod laws_pixels;
pub mod laws_work;
pub mod overlay;
pub mod page;
pub mod paint;
pub mod pixmap;
pub mod pump;
pub mod render;
pub mod report;
pub mod resize;
pub mod rounding;
pub mod simd_overlay;
pub mod state;
pub mod text;
pub mod tiles;
pub mod work;
