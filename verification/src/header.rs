//! Identifiers and header fields of an RTP packet.

use vstd::prelude::*;

verus! {

/// A sequence number extended to 64 bits, so that it does not wrap.
#[derive(Clone, Copy, Debug, PartialEq, Eq, PartialOrd, Ord, Hash, Structural)]
pub struct SeqNo(pub u64);

impl SeqNo {
    /// Whether `other` directly follows `self`.
    pub fn is_next(&self, other: SeqNo) -> (r: bool)
        ensures
            r <==> other.0 == self.0 + 1,
    {
        self.0 < other.0 && other.0 - self.0 == 1
    }
}

impl From<u64> for SeqNo {
    fn from(v: u64) -> (r: SeqNo) {
        SeqNo(v)
    }
}

impl vstd::std_specs::convert::FromSpecImpl<u64> for SeqNo {
    open spec fn obeys_from_spec() -> bool {
        true
    }

    open spec fn from_spec(v: u64) -> SeqNo {
        SeqNo(v)
    }
}

/// The synchronization source of a stream.
#[derive(Clone, Copy, Debug, PartialEq, Eq, PartialOrd, Ord, Hash, Structural)]
pub struct Ssrc(pub u32);

impl From<u32> for Ssrc {
    fn from(v: u32) -> (r: Ssrc) {
        Ssrc(v)
    }
}

impl vstd::std_specs::convert::FromSpecImpl<u32> for Ssrc {
    open spec fn obeys_from_spec() -> bool {
        true
    }

    open spec fn from_spec(v: u32) -> Ssrc {
        Ssrc(v)
    }
}

/// A payload type.
#[derive(Clone, Copy, Debug, PartialEq, Eq, PartialOrd, Ord, Hash, Structural)]
pub struct Pt(pub u8);

impl Pt {
    /// The payload type with the given number.
    pub fn new_with_value(v: u8) -> (r: Pt)
        ensures
            r == Pt(v),
    {
        Pt(v)
    }
}

/// How far a picture is turned, clockwise.
#[derive(Clone, Copy, Debug, PartialEq, Eq, Hash, Structural)]
pub enum VideoOrientation {
    Deg0,
    Deg90,
    Deg180,
    Deg270,
}

/// Values of the header extensions of a packet.
#[derive(Clone, Copy, Debug, PartialEq, Eq, Structural)]
pub struct ExtensionValues {
    /// Transport wide sequence number.
    pub transport_cc: Option<u16>,
    /// How the picture is to be turned before it is shown.
    pub video_orientation: Option<VideoOrientation>,
}

impl Default for ExtensionValues {
    fn default() -> (r: ExtensionValues)
        ensures
            r.transport_cc is None,
            r.video_orientation is None,
    {
        ExtensionValues { transport_cc: None, video_orientation: None }
    }
}

/// The header of an RTP packet.
#[derive(Clone, Copy, Debug, PartialEq, Eq, Structural)]
pub struct RtpHeader {
    pub version: u8,
    pub has_padding: bool,
    pub has_extension: bool,
    pub marker: bool,
    pub payload_type: Pt,
    pub sequence_number: u16,
    pub timestamp: u32,
    pub ssrc: Ssrc,
    pub ext_vals: ExtensionValues,
    /// Length of the header on the wire, in bytes.
    pub header_len: usize,
}

impl Default for RtpHeader {
    fn default() -> (r: RtpHeader)
        ensures
            r.version == 2,
            !r.has_padding && !r.has_extension && !r.marker,
            r.payload_type == Pt(0),
            r.sequence_number == 0,
            r.timestamp == 0,
            r.ssrc == Ssrc(0),
            r.ext_vals.transport_cc is None,
            r.ext_vals.video_orientation is None,
            r.header_len == 0,
    {
        RtpHeader {
            version: 2,
            has_padding: false,
            has_extension: false,
            marker: false,
            payload_type: Pt(0),
            sequence_number: 0,
            timestamp: 0,
            ssrc: Ssrc(0),
            ext_vals: ExtensionValues { transport_cc: None, video_orientation: None },
            header_len: 0,
        }
    }
}

} // verus!
