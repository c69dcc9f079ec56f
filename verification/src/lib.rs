//! Subtitle (SRT) handling and the planning logic of an AI dubbing toolbox.
//!
//! File paths are handled by Unix rules: `/` is the only separator.

pub mod paths;
pub mod duration;
pub mod text;
pub mod numbers;
pub mod timestamp;
pub mod srt_ops;
pub mod config;
pub mod cli;
pub mod dub;
pub mod translate;
pub mod mix;
