//! Streaming detection of the dominant low-frequency tone in an audio stream:
//! samples are gathered into frames, each transformed frame is mapped to
//! integer-hertz bins, and the strongest bins inside a band are reported.

pub mod accumulator;
pub mod spectrum;
pub mod peaks;
pub mod analysis;
