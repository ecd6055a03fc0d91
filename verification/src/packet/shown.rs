//! What is shown of packets and frames.

use vstd::prelude::*;

use crate::header::{RtpHeader, SeqNo};
use crate::packet::meta;
use crate::time::{Instant, MediaTime};

verus! {

/// A formatter of std.
#[verifier::external_type_specification]
#[verifier::external_body]
pub struct ExFormatter<'a>(core::fmt::Formatter<'a>);

/// What std answers where a text cannot be written.
#[verifier::external_type_specification]
#[verifier::external_body]
pub struct ExFormatError(core::fmt::Error);

/// What is shown of a packet: all but the sender information.
#[derive(Clone, Copy, Debug, PartialEq, Eq)]
pub struct RtpMeta {
    /// When the packet was received.
    pub received: Instant,
    /// Its media time.
    pub time: MediaTime,
    /// Its sequence number.
    pub seq_no: SeqNo,
    /// Its header.
    pub header: RtpHeader,
}

/// What is shown of a frame: its packets, and in place of its bytes how many there are.
#[derive(Clone, Debug, PartialEq, Eq)]
pub struct Depacketized {
    /// Its media time.
    pub time: MediaTime,
    /// Its packets.
    pub meta: Vec<RtpMeta>,
    /// Number of bytes.
    pub data: usize,
}

/// What is shown of a packet.
pub open spec fn shown_meta(m: meta::RtpMeta) -> RtpMeta {
    RtpMeta { received: m.received, time: m.time, seq_no: m.seq_no, header: m.header }
}

impl meta::RtpMeta {
    /// What is shown of the packet.
    pub fn shown(&self) -> (r: RtpMeta)
        ensures
            r == shown_meta(*self),
    {
        RtpMeta {
            received: self.received,
            time: self.time,
            seq_no: self.seq_no,
            header: self.header,
        }
    }
}

impl meta::Depacketized {
    /// What is shown of the frame.
    pub fn shown(&self) -> (r: Depacketized)
        ensures
            r.time == self.time,
            r.meta@ == self.meta@.map_values(|m: meta::RtpMeta| shown_meta(m)),
            r.data == self.data@.len(),
    {
        let ghost all = self.meta@.map_values(|m: meta::RtpMeta| shown_meta(m));
        let mut meta: Vec<RtpMeta> = Vec::new();
        let mut i: usize = 0;
        while i < self.meta.len()
            invariant
                i <= self.meta@.len(),
                all == self.meta@.map_values(|m: meta::RtpMeta| shown_meta(m)),
                meta@ =~= all.take(i as int),
            decreases self.meta@.len() - i,
        {
            meta.push(self.meta[i].shown());
            i += 1;
        }
        assert(all.take(i as int) =~= all);
        Depacketized { time: self.time, meta, data: self.data.len() }
    }
}

/// What is shown of a packet is what the packet has.
pub proof fn law_shown_is_what_there_is(m: meta::RtpMeta)
    ensures
        shown_meta(m).received == m.received,
        shown_meta(m).time == m.time,
        shown_meta(m).seq_no == m.seq_no,
        shown_meta(m).header == m.header,
{
}

/// Calls `fmt` of `core::fmt::Debug` on `shown`. Nothing is claimed of it: what the call writes and
/// answers is up to the formatter.
#[verifier::external_body]
fn show<T: core::fmt::Debug>(shown: &T, f: &mut core::fmt::Formatter<'_>) -> core::fmt::Result {
    shown.fmt(f)
}

impl core::fmt::Debug for meta::RtpMeta {
    fn fmt(&self, f: &mut core::fmt::Formatter<'_>) -> core::fmt::Result {
        show(&self.shown(), f)
    }
}

impl core::fmt::Debug for meta::Depacketized {
    fn fmt(&self, f: &mut core::fmt::Formatter<'_>) -> core::fmt::Result {
        show(&self.shown(), f)
    }
}

} // verus!
