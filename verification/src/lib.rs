//! Host-side communication core for a serial tuning console.
//!
//! The library covers the host-device link of the console: turning a raw
//! byte stream into newline-delimited frames, parsing each frame into a
//! decimal telemetry value, encoding parameter-change events as short ASCII
//! command frames, and keeping a bounded, time-ordered window of samples
//! for the renderer. Transport I/O, threading and the user interface stay
//! outside; they hand this core plain bytes and take plain values back.

pub mod bytes;
pub mod decoder;
pub mod value;
pub mod encoder;
pub mod telemetry;
pub mod link;
