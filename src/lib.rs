//! Rewrites slicer tool-change blocks in a G-code text for single-nozzle printers.
pub mod config;
pub mod laws;
pub mod markers;
pub mod rewrite;
pub mod text;

pub use config::SlicerConfig;
pub use rewrite::{replace_toolchanges, replace_unloads};
