//! Keypoint extraction from the cell-encoded output of a keypoint detector.
//!
//! A detector hands back, for every cell of eight by eight pixels, the
//! probabilities of sixty-five classes. [`heatmap`] spreads them out to a
//! dense probability map and reads the candidates off it,
//! [`postprocessing`] thins the candidates out by non-maximum suppression and
//! keeps the best, [`rescale`] maps what is left to the size of the image, and
//! [`visualization`] marks it there.
//!
//! The crate works on integers only. A probability is held as a `u32` key
//! whose unsigned order is the order of the probabilities ([`score`]); a
//! coordinate is held in sub-pixel units, [`keypoint::UNITS_PER_PIXEL`] to the
//! pixel.
pub mod canvas;
pub mod config;
pub mod error;
pub mod heatmap;
pub mod keypoint;
pub mod model;
pub mod postprocessing;
pub mod ranking;
pub mod rescale;
pub mod score;
pub mod visualization;

pub use config::Config;
pub use error::SuperPointError;
pub use keypoint::Keypoint;
