//! Live plotting of numbers that arrive on a stream of bytes.
//!
//! The [`extractor`] finds readings in the stream with one [`matcher`] per
//! channel, however the stream is cut into chunks; the [`chart`] keeps a
//! window of them per channel and the bounds of what is shown. Reading
//! the input, recording the readings and drawing them are left to the
//! program around this library, and so is every computation in floating
//! point: a reading is carried as the bits of a double, see [`value`].

pub mod chart;
pub mod config;
pub mod extractor;
pub mod interface;
pub mod matcher;
pub mod stream;
pub mod text;
pub mod value;
