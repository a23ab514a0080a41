//! Scene-assembly and auto-framing core for a factory-layout renderer.
//!
//! The library resolves building names to mesh parts through an alias table
//! and a suffix-stripping fallback, caches resolutions, plans the deduplicated
//! per-mesh geometry uploads for a scene, and sizes the supersampled render
//! surface.  Window management, mesh file parsing and rasterization are left
//! to the surrounding application.

pub mod blueprint;
pub mod render;
pub mod tweaks;
