//! RTCP feedback: the reports that senders and receivers exchange about their streams.

pub mod feedback;
pub mod packing;
pub mod wire;
pub mod laws;
pub mod packing_laws;
pub mod layout_laws;
