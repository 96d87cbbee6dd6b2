//! Colour ASCII-art video: frames rendered to text with colour-run
//! compression, packed into a tar container with audio and timing, and
//! replayed at a paced frame rate.

pub mod builder;
pub mod charset;
pub mod color;
pub mod container;
pub mod encode;
pub mod frames;
pub mod playback;
pub mod render;
pub mod sketch;
pub mod stream;
pub mod style;
