//! Plan-position-indicator rendering of rotating-sensor pulse recordings.
//!
//! The library parses pulse records, merges samples that share an angle tick,
//! resamples them onto a fixed angular grid, fills short angular gaps, and
//! rasterizes the grid into a square RGBA image. It also holds the decision
//! logic of a batch run over many folders of recordings.
pub mod text;
pub mod ingest;
pub mod grid;
pub mod render;
pub mod batch;
pub mod pipeline;
