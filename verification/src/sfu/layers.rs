//! Which layers of a scalable stream a client gets.

use vstd::prelude::*;

use crate::header::SeqNo;
use crate::packet::codec::PacketError;
use crate::packet::vp9::{bit, has_bit, header, HeaderModel, Vp9Header};
use crate::sfu::descriptor::Vp9HeaderDescriptor;

verus! {

/// A wish for other layers.
#[derive(Clone, Copy, Debug, PartialEq, Eq, Structural)]
pub enum LayerChangeRequest {
    /// The highest spatial layer to forward.
    Spatial(u8),
    /// The highest temporal layer to forward.
    Temporal(u8),
}

/// What becomes of a packet.
#[derive(Clone, Copy, Debug, PartialEq, Eq, Structural)]
pub enum Decision {
    /// It belongs to a layer that the client does not get.
    Drop,
    /// It goes on, under this number and with this marker.
    Forward(SeqNo, bool),
}

/// Selects the layers that a client gets.
#[derive(Debug)]
pub struct LayerSelector {
    /// Spatial layer to switch down to.
    pub new_spatial: Option<u8>,
    /// Spatial layer to switch up to.
    pub pending_spatial: Option<u8>,
    /// Highest spatial layer that is forwarded.
    pub target_spatial: u8,
    /// Highest temporal layer that is forwarded.
    pub target_temporal: u8,
    /// Number of packets dropped.
    pub base_seq: u16,
    /// Number by which outgoing sequence numbers are ahead.
    pub base_seq_prev: u16,
    /// What the packets of the stream have said so far.
    pub vp9_header_descriptor: Vp9HeaderDescriptor,
}

impl LayerSelector {
    /// The spatial layer of a packet.
    pub open spec fn sid_of(self, h: HeaderModel) -> u8 {
        match h.layer {
            Some(l) => l.sid,
            None => self.vp9_header_descriptor.sid,
        }
    }

    /// The temporal layer of a packet.
    pub open spec fn tid_of(self, h: HeaderModel) -> u8 {
        match h.layer {
            Some(l) => l.tid,
            None => self.vp9_header_descriptor.tid,
        }
    }

    /// Whether a packet begins a frame of the base layer, where it is safe to switch down.
    pub open spec fn begins_base(self, h: HeaderModel) -> bool {
        self.sid_of(h) == 0 && bit(h.flags, 3)
    }

    /// Whether a packet begins a frame of the base layer that depends on no other frame, where it
    /// is safe to switch up.
    pub open spec fn begins_key(self, h: HeaderModel) -> bool {
        self.begins_base(h) && !bit(h.flags, 6)
    }

    /// The highest spatial layer that is forwarded once a packet has come in.
    pub open spec fn spatial_after(self, h: HeaderModel) -> u8 {
        if self.begins_base(h) && self.new_spatial is Some {
            self.new_spatial->0
        } else if self.begins_key(h) && self.pending_spatial is Some {
            self.pending_spatial->0
        } else {
            self.target_spatial
        }
    }

    /// Whether a packet is dropped.
    pub open spec fn drops(self, h: HeaderModel) -> bool {
        self.sid_of(h) > self.spatial_after(h) || self.tid_of(h) > self.target_temporal
    }

    /// The number under which a packet goes on.
    pub open spec fn number_of(self, sequence_number: u16) -> int {
        sequence_number - self.base_seq + self.base_seq_prev + 1
    }

    /// Whether the numbers stay within 16 bits.
    pub open spec fn is_countable(self, h: HeaderModel, sequence_number: u16) -> bool {
        if self.drops(h) {
            self.base_seq < u16::MAX
        } else {
            self.base_seq <= sequence_number && self.number_of(sequence_number) <= u16::MAX
        }
    }

    /// What becomes of a packet.
    pub open spec fn decision(self, h: HeaderModel, sequence_number: u16, marker: bool) -> Decision {
        if self.drops(h) {
            Decision::Drop
        } else {
            Decision::Forward(
                SeqNo(self.number_of(sequence_number) as u64),
                marker || (bit(h.flags, 2) && self.sid_of(h) == self.spatial_after(h)),
            )
        }
    }

    /// Whether the selector can become `post` by a packet with the payload descriptor `h`.
    pub open spec fn steps(self, h: HeaderModel, post: Self) -> bool {
        &&& self.vp9_header_descriptor.takes(h, post.vp9_header_descriptor)
        &&& post.new_spatial == (if self.begins_base(h) {
            None
        } else {
            self.new_spatial
        })
        &&& post.pending_spatial == (if self.begins_key(h) {
            None
        } else {
            self.pending_spatial
        })
        &&& post.target_spatial == self.spatial_after(h)
        &&& post.target_temporal == self.target_temporal
        &&& post.base_seq == (if self.drops(h) {
            self.base_seq + 1
        } else {
            self.base_seq as int
        })
        &&& post.base_seq_prev == self.base_seq_prev
    }

    /// A selector that forwards all layers.
    pub fn new() -> (r: LayerSelector)
        ensures
            r.new_spatial is None,
            r.pending_spatial is None,
            r.target_spatial == 2,
            r.target_temporal == 2,
            r.base_seq == 0,
            r.base_seq_prev == 0,
            r.vp9_header_descriptor.is_fresh(),
    {
        LayerSelector {
            new_spatial: None,
            pending_spatial: None,
            target_spatial: 2,
            target_temporal: 2,
            base_seq: 0,
            base_seq_prev: 0,
            vp9_header_descriptor: Vp9HeaderDescriptor::default(),
        }
    }

    /// Whether a key frame has to be requested for the wish `change` of a client that gets a video
    /// track or not: only with one can the client switch up.
    pub open spec fn needs_keyframe(self, change: LayerChangeRequest, has_video: bool) -> bool {
        change matches LayerChangeRequest::Spatial(s) && s > self.target_spatial && has_video
    }

    /// The selector after the wish `change` of a client that gets a video track or not. One that
    /// gets none does not switch up.
    pub open spec fn requested(self, change: LayerChangeRequest, has_video: bool) -> Self {
        match change {
            LayerChangeRequest::Spatial(s) => if s <= self.target_spatial {
                LayerSelector { new_spatial: Some(s), ..self }
            } else if has_video {
                LayerSelector { pending_spatial: Some(s), ..self }
            } else {
                self
            },
            LayerChangeRequest::Temporal(t) => LayerSelector { target_temporal: t, ..self },
        }
    }

    /// Takes in a wish for other layers, of a client that gets a video track or not. Answers
    /// whether a key frame has to be requested.
    pub fn request(&mut self, change: LayerChangeRequest, has_video: bool) -> (r: bool)
        ensures
            *final(self) == old(self).requested(change, has_video),
            r == old(self).needs_keyframe(change, has_video),
    {
        match change {
            LayerChangeRequest::Spatial(s) => {
                if s > self.target_spatial {
                    if has_video {
                        self.pending_spatial = Some(s);
                    }
                    has_video
                } else {
                    self.new_spatial = Some(s);
                    false
                }
            },
            LayerChangeRequest::Temporal(t) => {
                self.target_temporal = t;
                false
            },
        }
    }

    /// Whether the packet can be decided on: the numbers stay within 16 bits.
    pub fn can_decide(&self, sequence_number: u16, payload: &[u8]) -> (r: bool)
        ensures
            r == (header(payload@) matches Ok(h) ==> self.is_countable(h, sequence_number)),
    {
        let Ok(h) = Vp9Header::parse(payload) else {
            return true;
        };
        let (sid, tid) = match h.layer {
            Some(l) => (l.sid, l.tid),
            None => (self.vp9_header_descriptor.sid, self.vp9_header_descriptor.tid),
        };
        let begins_base = sid == 0 && has_bit(h.flags, 3);
        let begins_key = begins_base && !has_bit(h.flags, 6);
        let target: u8 = match (self.new_spatial, self.pending_spatial) {
            (Some(s), _) if begins_base => s,
            (_, Some(s)) if begins_key => s,
            _ => self.target_spatial,
        };
        if sid > target || tid > self.target_temporal {
            self.base_seq < u16::MAX
        } else {
            self.base_seq <= sequence_number && sequence_number as u32 - self.base_seq as u32
                + self.base_seq_prev as u32 + 1 <= u16::MAX as u32
        }
    }

    /// Decides on a packet. One without a whole payload descriptor changes nothing.
    pub fn decide(&mut self, sequence_number: u16, marker: bool, payload: &[u8]) -> (r: Result<
        Decision,
        PacketError,
    >)
        requires
            header(payload@) matches Ok(h) ==> old(self).is_countable(h, sequence_number),
        ensures
            match header(payload@) {
                Ok(h) => {
                    &&& old(self).steps(h, *final(self))
                    &&& r matches Ok(d) && d == old(self).decision(h, sequence_number, marker)
                },
                Err(e) => *final(self) == *old(self) && r == Err::<Decision, PacketError>(e),
            },
    {
        if let Err(e) = self.vp9_header_descriptor.parse(payload) {
            return Err(e);
        }
        let p = self.vp9_header_descriptor.p;
        let b = self.vp9_header_descriptor.b;
        let e = self.vp9_header_descriptor.e;
        let sid: u8 = self.vp9_header_descriptor.sid;
        let tid: u8 = self.vp9_header_descriptor.tid;
        if !p && sid == 0 && b {
            if let Some(new_s) = self.pending_spatial.take() {
                self.target_spatial = new_s;
            }
        }
        if sid == 0 && b {
            if let Some(new_s) = self.new_spatial.take() {
                self.target_spatial = new_s;
            }
        }
        if sid > self.target_spatial || tid > self.target_temporal {
            self.base_seq += 1;
            return Ok(Decision::Drop);
        }
        let header_seq: u16 = sequence_number - self.base_seq + self.base_seq_prev + 1;
        let marker = marker || (e && sid == self.target_spatial);
        Ok(Decision::Forward(SeqNo(header_seq as u64), marker))
    }
}

/// Dropped packets leave no gap: a packet that goes on moves the outgoing numbers by one, a packet
/// that is dropped leaves them where they were.
pub proof fn law_no_gaps(
    a: LayerSelector,
    h: HeaderModel,
    sequence_number: u16,
    b: LayerSelector,
)
    requires
        a.steps(h, b),
        sequence_number < u16::MAX,
    ensures
        b.number_of((sequence_number + 1) as u16) == if a.drops(h) {
            a.number_of(sequence_number)
        } else {
            a.number_of(sequence_number) + 1
        },
{
}

/// The highest spatial layer only changes at the beginning of a frame of the base layer. Unless it
/// changes to the layer to switch down to, that frame depends on no other frame.
pub proof fn law_switches_are_safe(a: LayerSelector, h: HeaderModel, b: LayerSelector)
    requires
        a.steps(h, b),
        b.target_spatial != a.target_spatial,
    ensures
        a.begins_base(h),
        a.begins_key(h) || Some(b.target_spatial) == a.new_spatial,
{
}

/// A packet goes on only if it belongs to the layers that are forwarded then.
pub proof fn law_only_wanted_layers(a: LayerSelector, h: HeaderModel, b: LayerSelector)
    requires
        a.steps(h, b),
    ensures
        !a.drops(h) <==> b.vp9_header_descriptor.sid <= b.target_spatial
            && b.vp9_header_descriptor.tid <= b.target_temporal,
{
}

/// A wish to switch down comes true with the next frame of the base layer; a wish to switch up
/// comes true with the next one that depends on no other frame, unless a wish to switch down came
/// before it.
pub proof fn law_wishes_come_true(
    a: LayerSelector,
    s: u8,
    has_video: bool,
    h: HeaderModel,
    b: LayerSelector,
)
    requires
        a.requested(LayerChangeRequest::Spatial(s), has_video).steps(h, b),
    ensures
        s <= a.target_spatial && a.begins_base(h) ==> b.target_spatial == s,
        s > a.target_spatial && has_video && a.new_spatial is None && a.begins_key(h)
            ==> b.target_spatial == s,
{
}

} // verus!
