//! Selective forwarding: which packets of a scalable video stream go on to which client.

pub mod descriptor;
pub mod layers;
pub mod client;
pub mod laws;
