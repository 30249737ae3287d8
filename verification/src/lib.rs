//! Dissonance-map engine: a tiled renderer over a parameter grid, a
//! content-addressed append-only cache for partial results, and the
//! cooperative-cancellation machinery that binds them together.
//!
//! The scalar samples that flow through the renderer and the cache are
//! carried as their 64-bit bit patterns, so that every piece of the
//! pipeline — tiling, blitting, record framing — is specified and verified
//! over plain integers; the numeric kernel itself is supplied by the
//! caller and treated as an opaque pure function per tile.

pub mod algo;
pub mod cache;
pub mod cancel;
pub mod cli;
pub mod codec;
pub mod config;
pub mod error;
pub mod map;
pub mod runner;
pub mod tile_renderer;
