//! The items of feedback.

use vstd::prelude::*;

use crate::header::Ssrc;
use crate::time::MediaTime;

verus! {

/// What a sender says of its stream.
#[derive(Clone, Copy, Debug, PartialEq, Eq)]
pub struct SenderInfo {
    /// The stream.
    pub ssrc: Ssrc,
    /// Wall clock time of the report.
    pub ntp_time: MediaTime,
    /// The same time on the clock of the stream.
    pub rtp_time: u32,
    /// Packets sent so far.
    pub sender_packet_count: u32,
    /// Payload bytes sent so far.
    pub sender_octet_count: u32,
}

/// What a receiver says of a stream that it receives.
#[derive(Clone, Copy, Debug, PartialEq, Eq, Structural)]
pub struct ReceiverReport {
    /// The stream.
    pub ssrc: Ssrc,
    /// Fraction of packets lost since the last report, in 256ths.
    pub fraction_lost: u8,
    /// Packets lost so far, in 24 bits.
    pub packets_lost: u32,
    /// Highest sequence number received, extended to 32 bits.
    pub max_seq: u32,
    /// Jitter of the arrival times.
    pub jitter: u32,
    /// Middle 32 bits of the NTP timestamp of the last sender report.
    pub last_sr_time: u32,
    /// Time since that report came in, in 65536ths of a second.
    pub last_sr_delay: u32,
}

/// An item of feedback.
#[derive(Clone, Copy, Debug, PartialEq, Eq)]
pub enum RtcpFb {
    /// A sender tells of its stream.
    SenderInfo(SenderInfo),
    /// A receiver tells of a stream.
    ReceiverReport(ReceiverReport),
    /// A stream has ended.
    Goodbye(Ssrc),
}

} // verus!
