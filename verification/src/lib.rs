//! Parts of an RTP stack: reordering and depacketizing of media packets, the RTCP reports that go
//! with them, and the forwarding of scalable video between the clients of a conference.

pub mod header;
pub mod packet;
pub mod rtcp;
pub mod sfu;
pub mod time;
