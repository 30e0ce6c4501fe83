//! Sample-accurate audio timeline mixing and a streaming video-encode
//! pipeline, verified with Verus.
//!
//! The crate covers the computational core of a renderer: decoding named
//! sound assets into fixed-point PCM, laying them out additively on a
//! timeline buffer, building the argument lists for the external encoder
//! process, and driving the frame-ingestion session state machine. All
//! I/O (files, sockets, the encoder subprocess) stays with the caller;
//! the library works on plain values and states what it does with them.

pub mod command;
pub mod encoders;
pub mod mix;
pub mod session;
pub mod store;
