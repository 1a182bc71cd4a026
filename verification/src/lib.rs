//! Contour extraction and ordering for drawing images with epicycles.
//!
//! The verified part of the pipeline works on 8-bit grayscale rasters: it
//! thins edge maps to one-pixel skeletons, bridges small gaps between stroke
//! ends, finds 8-connected components, walks the largest one into an ordered
//! contour, closes it, and chains several strokes into one path.

pub mod raster;
pub mod stable_sort;
pub mod line;
pub mod linking;
pub mod morphology;
pub mod components;
pub mod bridging;
pub mod walk;
pub mod contour;
pub mod pipeline;
pub mod config;
pub mod fourier;
pub mod tracing;
pub mod observer;
pub mod picture;
