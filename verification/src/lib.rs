//! Recovery of the native pixel grid of upscaled pixel art.
//!
//! An image that was enlarged by an unknown factor is brought back to its
//! native size in these stages:
//!
//! - [`background`] makes the background transparent ([`palette`] finds its
//!   colours, [`flood`] the region that is joined to the border);
//! - [`canvas`] trims the transparent borders;
//! - [`period`] reduces the image to two edge profiles and reads the period
//!   of the grid from the magnitudes of their spectra, which the caller
//!   computes;
//! - [`search`] finds cell size and phase of the grid by the block variance
//!   of [`variance`], with the period as a hint;
//! - [`resample`] takes one pixel from the centre of each cell;
//! - [`canvas`] pads the result to a multiple of a canvas unit.
//!
//! [`pipeline`] runs the stages in sequence. Images are held as
//! [`raster::PixelBuffer`]; contracts speak of their mathematical model,
//! [`raster::Grid`]. Scores are exact fractions ([`ratio`]); no stage uses
//! floating point.
//!
//! [`processor`], [`outline`], [`packer`], [`backdrop`], [`state`] and
//! [`db`] hold the post-processing of the recovered art and the records of
//! the tools around it.

pub mod num;
pub mod raster;
pub mod stats;
pub mod window;
pub mod palette;
pub mod settings;
pub mod background;
pub mod flood;
pub mod backdrop;
pub mod ratio;
pub mod variance;
pub mod period;
pub mod search;
pub mod resample;
pub mod canvas;
pub mod pipeline;
pub mod processor;
pub mod outline;
pub mod packer;
pub mod state;
pub mod db;
