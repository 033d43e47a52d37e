//! Frame analysis for a pixel-detector imaging sensor.
//!
//! The crate groups nonzero detector pixels into particle clusters with a
//! causal raster scan and a union-find merge, classifies each cluster by its
//! bounding-box span, filters clusters by kind, and models the command
//! protocol and per-device frame buffering that drive the capture pipeline.

pub mod buffer;
pub mod codes;
pub mod dispatch;
pub mod commands;
pub mod filter;
pub mod frame;
pub mod labels;
pub mod particle;
pub mod pixels;
pub mod render;
