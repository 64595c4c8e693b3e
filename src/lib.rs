//! Escape-time fractal rendering into a caller-owned RGBA framebuffer.
//!
//! The library holds the integer side of the renderer: the colour gradient
//! over exact escape values, the framebuffer layout, and the render driver
//! that decides which pixels a call repaints and which overlays blacken them.
//! The per-pixel escape computation is handed in by the caller.
pub mod color;
pub mod frame;
mod random;
pub mod render;

pub use color::{paint_fractal, Escape, MAX_ITERATIONS};
pub use frame::{reset, RenderError};
pub use render::{render, Fractal, RenderMode};
