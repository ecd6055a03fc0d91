//! What the receive buffer asks of a codec.

use vstd::prelude::*;

verus! {

/// Why a packet could not be depacketized.
#[derive(Clone, Copy, Debug, PartialEq, Eq, Structural)]
pub enum PacketError {
    /// The packet ends before its header does.
    ErrShortPacket,
    /// The header names more spatial layers than are supported.
    ErrTooManySpatialLayers,
}

/// What a VP8 payload descriptor says of its frame.
#[derive(Clone, Copy, Debug, PartialEq, Eq, Structural)]
pub struct Vp8CodecExtra {
    /// Whether no other frame depends on this one.
    pub discardable: bool,
    /// Whether the frame depends on the base layer only.
    pub sync: bool,
    /// Index of the temporal layer.
    pub layer_index: u8,
    /// Extended picture id, if the sender numbers its pictures.
    pub picture_id: Option<u64>,
    /// Extended id of the base layer picture that the frame builds on.
    pub tl0_picture_id: Option<u64>,
}

/// What a VP9 payload descriptor says of its frame.
#[derive(Clone, Copy, Debug, PartialEq, Eq, Structural)]
pub struct Vp9CodecExtra {
    /// Picture id, if the packet carries one.
    pub pid: Option<u16>,
}

/// What a codec tells of a frame beyond its bytes.
#[derive(Clone, Copy, Debug, PartialEq, Eq, Structural)]
pub enum CodecExtra {
    /// Nothing.
    Nothing,
    Vp8(Vp8CodecExtra),
    Vp9(Vp9CodecExtra),
}

/// Turns packets into frames.
///
/// What an implementation answers is its own affair. The three `may_` relations name the answers
/// that it can give; one that does not define them may give any.
pub trait Depacketizer: Sized {
    /// Whether `packet` can turn the state `pre` with output `out` and `extra` into `post`,
    /// `out_post` and `extra_post`, with the answer `r`.
    open spec fn may_depacketize(
        pre: Self,
        packet: Seq<u8>,
        out: Seq<u8>,
        extra: CodecExtra,
        post: Self,
        out_post: Seq<u8>,
        extra_post: CodecExtra,
        r: Result<(), PacketError>,
    ) -> bool {
        true
    }

    /// Whether `is_partition_head` can answer `r` for `packet`.
    open spec fn may_head(self, packet: Seq<u8>, r: bool) -> bool {
        true
    }

    /// Whether `is_partition_tail` can answer `r` for `packet`.
    open spec fn may_tail(self, marker: bool, packet: Seq<u8>, r: bool) -> bool {
        true
    }

    /// Unpacks one packet, appending its payload to `out`.
    fn depacketize(
        &mut self,
        packet: &[u8],
        out: &mut Vec<u8>,
        codec_extra: &mut CodecExtra,
    ) -> (r: Result<(), PacketError>)
        ensures
            Self::may_depacketize(
                *old(self),
                packet@,
                old(out)@,
                *old(codec_extra),
                *final(self),
                final(out)@,
                *final(codec_extra),
                r,
            ),
    ;

    /// Whether the packet is the first of a frame.
    fn is_partition_head(&self, packet: &[u8]) -> (r: bool)
        ensures
            self.may_head(packet@, r),
    ;

    /// Whether the packet is the last of a frame.
    fn is_partition_tail(&self, marker: bool, packet: &[u8]) -> (r: bool)
        ensures
            self.may_tail(marker, packet@, r),
    ;
}

/// Judges whether a VP8 frame continues the frames before it.
pub trait Vp8Contiguity: Sized {
    /// Whether the judge has seen no frame.
    ///
    /// An implementation that says nothing does not tell.
    open spec fn is_new(self) -> bool {
        true
    }

    /// Whether `check` can turn the state `pre` into `post` with the answer `r`.
    ///
    /// An implementation that says nothing may answer anything.
    open spec fn may_check(
        pre: Self,
        next: Vp8CodecExtra,
        contiguous_seq: bool,
        post: Self,
        r: (bool, bool),
    ) -> bool {
        true
    }

    /// A judge that has seen no frame.
    fn new() -> (r: Self)
        ensures
            r.is_new(),
    ;

    /// Looks at the frame `next`, of which `contiguous_seq` says whether its sequence numbers
    /// follow those of the frame before. Answers whether the frame may be emitted, and whether it
    /// is contiguous.
    fn check(&mut self, next: &Vp8CodecExtra, contiguous_seq: bool) -> (r: (bool, bool))
        ensures
            Self::may_check(*old(self), *next, contiguous_seq, *final(self), r),
    ;
}

/// Judges VP8 frames as all others are judged: by their sequence numbers alone.
#[derive(Clone, Copy, Debug, PartialEq, Eq, Structural)]
pub struct SeqContiguity {}

impl Vp8Contiguity for SeqContiguity {
    open spec fn is_new(self) -> bool {
        self == (SeqContiguity {  })
    }

    open spec fn may_check(
        pre: Self,
        next: Vp8CodecExtra,
        contiguous_seq: bool,
        post: Self,
        r: (bool, bool),
    ) -> bool {
        post == pre && r == (true, contiguous_seq)
    }

    fn new() -> (r: Self) {
        SeqContiguity {  }
    }

    fn check(&mut self, next: &Vp8CodecExtra, contiguous_seq: bool) -> (r: (bool, bool)) {
        (true, contiguous_seq)
    }
}

/// Judged by sequence numbers alone, every frame may be emitted, and is contiguous if and only if its
/// numbers are.
pub proof fn law_sequence_numbers_judge(
    pre: SeqContiguity,
    next: Vp8CodecExtra,
    contiguous_seq: bool,
    post: SeqContiguity,
    may_emit: bool,
    contiguous: bool,
)
    ensures
        SeqContiguity::may_check(pre, next, contiguous_seq, post, (may_emit, contiguous)) <==> may_emit
            && contiguous == contiguous_seq,
{
}

} // verus!
