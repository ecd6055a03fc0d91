//! Received packets and the frames made of them.

use vstd::prelude::*;

use core::ops::RangeInclusive;

use crate::header::{ExtensionValues, RtpHeader, SeqNo};
use crate::packet::codec::CodecExtra;
use crate::rtcp::feedback::SenderInfo;
use crate::time::{Instant, MediaTime};

verus! {

/// Holds metadata of incoming RTP data.
#[derive(Clone, Copy, PartialEq, Eq)]
pub struct RtpMeta {
    /// When this RTP packet was received.
    pub received: Instant,
    /// Media time of the packet, as its header gives it.
    pub time: MediaTime,
    /// Sequence number, extended from the header.
    pub seq_no: SeqNo,
    /// The actual header.
    pub header: RtpHeader,
    /// Sender information from the most recent sender report, if one has been received.
    pub last_sender_info: Option<SenderInfo>,
}

/// A frame, put together from packets.
#[derive(Clone)]
pub struct Depacketized {
    /// Media time of the first packet.
    pub time: MediaTime,
    /// Whether the frame follows the one emitted before it.
    pub contiguous: bool,
    /// The packets, in order of their sequence numbers.
    pub meta: Vec<RtpMeta>,
    /// The payload.
    pub data: Vec<u8>,
    /// What the codec tells of the frame.
    pub codec_extra: CodecExtra,
}

/// Whether the packet at `i` was received first, and is the first of those received then.
pub open spec fn is_earliest(meta: Seq<RtpMeta>, i: int) -> bool {
    &&& 0 <= i < meta.len()
    &&& forall|k: int| 0 <= k < i ==> meta[i].received.nanos < #[trigger] meta[k].received.nanos
    &&& forall|k: int|
        i <= k < meta.len() ==> meta[i].received.nanos <= #[trigger] meta[k].received.nanos
}

/// Index of the packet that was received first.
fn earliest(meta: &Vec<RtpMeta>) -> (best: usize)
    requires
        meta@.len() > 0,
    ensures
        is_earliest(meta@, best as int),
{
    let mut best: usize = 0;
    let mut i: usize = 1;
    while i < meta.len()
        invariant
            best < i <= meta@.len(),
            is_earliest(meta@.take(i as int), best as int),
        decreases meta@.len() - i,
    {
        if meta[i].received.nanos < meta[best].received.nanos {
            best = i;
        }
        i += 1;
    }
    proof {
        assert(meta@.take(i as int) =~= meta@);
    }
    best
}

impl Depacketized {
    /// When the first packet of the frame came in.
    pub fn first_network_time(&self) -> (r: Instant)
        requires
            self.meta@.len() > 0,
        ensures
            exists|i: int| 0 <= i < self.meta@.len() && r == #[trigger] self.meta@[i].received,
            forall|i: int|
                0 <= i < self.meta@.len() ==> r.nanos <= #[trigger] self.meta@[i].received.nanos,
    {
        self.meta[earliest(&self.meta)].received
    }

    /// The sender information of the packet that came in first; of the first of these, where
    /// several came in at the same time.
    pub fn first_sender_info(&self) -> (r: Option<SenderInfo>)
        requires
            self.meta@.len() > 0,
        ensures
            exists|i: int| #[trigger]
                is_earliest(self.meta@, i) && r == self.meta@[i].last_sender_info,
    {
        self.meta[earliest(&self.meta)].last_sender_info
    }

    /// The sequence numbers of the frame, from the first to the last.
    pub fn seq_range(&self) -> (r: RangeInclusive<SeqNo>)
        requires
            self.meta@.len() > 0,
        ensures
            r@.start == self.meta@.first().seq_no,
            r@.end == self.meta@.last().seq_no,
            !r@.exhausted,
    {
        let first = self.meta[0].seq_no;
        let last = self.meta[self.meta.len() - 1].seq_no;
        RangeInclusive::new(first, last)
    }

    /// The header extensions of the last packet: some, such as the video orientation, are only
    /// added there, to save bytes.
    pub fn ext_vals(&self) -> (r: &ExtensionValues)
        requires
            self.meta@.len() > 0,
        ensures
            *r == self.meta@.last().header.ext_vals,
    {
        &self.meta[self.meta.len() - 1].header.ext_vals
    }
}

/// The earliest packet has no packet before it that came in as early, and none at all that came in
/// earlier.
pub proof fn law_earliest_packet(meta: Seq<RtpMeta>, i: int, k: int)
    requires
        is_earliest(meta, i),
        0 <= k < meta.len(),
    ensures
        0 <= i < meta.len(),
        meta[k].received.nanos >= meta[i].received.nanos,
        meta[k].received.nanos == meta[i].received.nanos ==> i <= k,
{
}

/// No two packets can be the earliest one.
pub proof fn lemma_earliest_is_unique(meta: Seq<RtpMeta>, i: int, j: int)
    requires
        is_earliest(meta, i),
        is_earliest(meta, j),
    ensures
        i == j,
{
    if i < j {
        assert(meta[j].received.nanos < meta[i].received.nanos);
        assert(meta[i].received.nanos <= meta[j].received.nanos);
    } else if j < i {
        assert(meta[i].received.nanos < meta[j].received.nanos);
        assert(meta[j].received.nanos <= meta[i].received.nanos);
    }
}

} // verus!
