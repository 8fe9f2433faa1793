//! Spectrum sweeps from a HackRF: parsing of `hackrf_sweep` text output,
//! assembly of complete sweeps, downscaling to a display width, color
//! mapping and the bounded history behind the waterfall view.

pub mod fields;
pub mod text;
pub mod sweep;
pub mod downscale;
pub mod history;
pub mod color;
pub mod session;
pub mod render;
pub mod cli;
