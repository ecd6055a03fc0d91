//! Payloads: what a codec puts in packets, and the buffer that puts packets back in order.

pub mod codec;
pub mod meta;
pub mod segments;
pub mod buffer_rx;
pub mod laws;
pub mod queue_laws;
pub mod shown;
pub mod vp9;
pub mod vp9_laws;
