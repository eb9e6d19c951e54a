//! A monophonic synthesizer core: a key tracker that decides which note is
//! sounding, and the per-buffer steps of a render loop that fills interleaved
//! output buffers one frame at a time.

pub mod keys;
pub mod render;
