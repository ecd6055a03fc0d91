//! What forwarding does, told by the bits of a packet and by the tracks of a client alone.

use vstd::prelude::*;

use crate::packet::codec::PacketError;
use crate::packet::vp9::{bit, header, HeaderModel};
use crate::packet::vp9_laws::{
    descriptor_of, lemma_flags, picture_of, structure_of, Parts, PictureParts, StructureParts,
};
use crate::sfu::client::{
    cancelled, confirmed, first_where, orphaned, Client, ClientId, Delivery, KeyframeRequest,
    MediaKind, Mid, Propagated, TrackIn, TrackOut, TrackOutState,
};
use crate::sfu::descriptor::{rows, Vp9HeaderDescriptor};
use crate::sfu::layers::{Decision, LayerChangeRequest, LayerSelector};

verus! {

/// The bits of a byte, as digits.
proof fn lemma_flag_bits(b: u8)
    by (bit_vector)
    ensures
        bit(b, 7) == (b / 128 % 2 == 1),
        bit(b, 6) == (b / 64 % 2 == 1),
        bit(b, 5) == (b / 32 % 2 == 1),
        bit(b, 4) == (b / 16 % 2 == 1),
        bit(b, 3) == (b / 8 % 2 == 1),
        bit(b, 2) == (b / 4 % 2 == 1),
        bit(b, 1) == (b / 2 % 2 == 1),
        bit(b, 0) == (b % 2 == 1),
{
}

/// The spatial and the temporal layer of a packet: those it names, or those named last.
pub open spec fn layers_of(a: LayerSelector, h: HeaderModel) -> (int, int) {
    match h.layer {
        Some(l) => (l.sid as int, l.tid as int),
        None => (
            a.vp9_header_descriptor.sid as int,
            a.vp9_header_descriptor.tid as int,
        ),
    }
}

/// The spatial layers change with a packet of layer 0 that has the bit of value 8 in its first byte:
/// to the layer to switch down to, if there is one; else, if the bit of value 64 is not set, to the
/// layer to switch up to. What has been switched to is waited for no longer. The temporal layers stay.
pub proof fn law_switching(a: LayerSelector, p: Seq<u8>, h: HeaderModel, b: LayerSelector)
    requires
        header(p) == Ok::<HeaderModel, PacketError>(h),
        a.steps(h, b),
    ensures
        ({
            let begins = layers_of(a, h).0 == 0 && p[0] / 8 % 2 == 1;
            let key = begins && p[0] / 64 % 2 == 0;
            &&& begins ==> b.new_spatial is None
            &&& !begins ==> b.new_spatial == a.new_spatial
            &&& key ==> b.pending_spatial is None
            &&& !key ==> b.pending_spatial == a.pending_spatial
            &&& begins ==> (a.new_spatial matches Some(s) ==> b.target_spatial == s)
            &&& key && a.new_spatial is None ==> (a.pending_spatial matches Some(s)
                ==> b.target_spatial == s)
            &&& !begins ==> b.target_spatial == a.target_spatial
            &&& a.new_spatial is None && (!key || a.pending_spatial is None) ==> b.target_spatial
                == a.target_spatial
        }),
        b.target_temporal == a.target_temporal,
        b.base_seq_prev == a.base_seq_prev,
        b.vp9_header_descriptor.sid == layers_of(a, h).0,
        b.vp9_header_descriptor.tid == layers_of(a, h).1,
{
    lemma_flag_bits(p[0]);
}

/// A wish to switch up comes true with the first packet of a frame of layer 0 that depends on no
/// other, whatever else the packet says.
pub proof fn law_switching_up(a: LayerSelector, p: Seq<u8>, h: HeaderModel, b: LayerSelector, s: u8)
    requires
        header(p) == Ok::<HeaderModel, PacketError>(h),
        a.steps(h, b),
        p[0] / 8 % 2 == 1,
        p[0] / 64 % 2 == 0,
        layers_of(a, h).0 == 0,
        a.new_spatial is None,
        a.pending_spatial == Some(s),
    ensures
        b.target_spatial == s,
        b.pending_spatial is None,
{
    law_switching(a, p, h, b);
}

/// A packet goes on if its layers are within those forwarded after it came in, and is dropped
/// otherwise. One that goes on gets its number less the packets dropped before it, plus one and what
/// the numbers were ahead; its marker is set if it was, or if it is the last packet, by the bit of
/// value 4, of the highest spatial layer. Each one dropped is counted.
pub proof fn law_forwarding(
    a: LayerSelector,
    p: Seq<u8>,
    h: HeaderModel,
    sequence_number: u16,
    marker: bool,
    b: LayerSelector,
)
    requires
        header(p) == Ok::<HeaderModel, PacketError>(h),
        a.is_countable(h, sequence_number),
        a.steps(h, b),
    ensures
        ({
            let (sid, tid) = layers_of(a, h);
            let wanted = sid <= b.target_spatial && tid <= a.target_temporal;
            &&& !wanted ==> a.decision(h, sequence_number, marker) == Decision::Drop && b.base_seq
                == a.base_seq + 1
            &&& wanted ==> b.base_seq == a.base_seq && (a.decision(
                h,
                sequence_number,
                marker,
            ) matches Decision::Forward(number, last) && number.0 + a.base_seq == sequence_number
                + a.base_seq_prev + 1 && last == (marker || (p[0] / 4 % 2 == 1 && sid
                == b.target_spatial)))
        }),
{
    lemma_flag_bits(p[0]);
}

/// A packet can be decided on as long as the number of those dropped, or the number that it gets,
/// stays within 16 bits.
pub proof fn law_counting(
    a: LayerSelector,
    p: Seq<u8>,
    h: HeaderModel,
    sequence_number: u16,
)
    requires
        header(p) == Ok::<HeaderModel, PacketError>(h),
    ensures
        ({
            let (sid, tid) = layers_of(a, h);
            let begins = sid == 0 && p[0] / 8 % 2 == 1;
            let key = begins && p[0] / 64 % 2 == 0;
            let highest = match (a.new_spatial, a.pending_spatial) {
                (Some(s), _) if begins => s,
                (_, Some(s)) if key => s,
                _ => a.target_spatial,
            };
            let wanted = sid <= highest && tid <= a.target_temporal;
            a.is_countable(h, sequence_number) <==> if wanted {
                0 <= sequence_number - a.base_seq <= 65535 - 1 - a.base_seq_prev
            } else {
                a.base_seq < 65535
            }
        }),
{
    lemma_flag_bits(p[0]);
}

/// Whatever the selector was, the temporal layers are those last wished for. The next packet of
/// spatial layers that go on is forwarded if its temporal layer is among them, and only then.
pub proof fn law_temporal_wishes(
    a: LayerSelector,
    t: u8,
    has_video: bool,
    p: Seq<u8>,
    h: HeaderModel,
    sequence_number: u16,
    marker: bool,
    b: LayerSelector,
)
    requires
        header(p) == Ok::<HeaderModel, PacketError>(h),
        a.requested(LayerChangeRequest::Temporal(t), has_video).steps(h, b),
        a.requested(LayerChangeRequest::Temporal(t), has_video).is_countable(h, sequence_number),
        layers_of(a, h).0 <= b.target_spatial,
    ensures
        a.requested(LayerChangeRequest::Temporal(t), has_video).target_temporal == t,
        a.requested(LayerChangeRequest::Temporal(t), has_video) == (LayerSelector {
            target_temporal: t,
            ..a
        }),
        !a.needs_keyframe(LayerChangeRequest::Temporal(t), has_video),
        a.requested(LayerChangeRequest::Temporal(t), has_video).decision(
            h,
            sequence_number,
            marker,
        ) is Forward <==> layers_of(a, h).1 <= t,
{
    law_forwarding(
        a.requested(LayerChangeRequest::Temporal(t), has_video),
        p,
        h,
        sequence_number,
        marker,
        b,
    );
}

/// A wish for fewer or as many spatial layers is one to switch down, and needs no key frame. A wish
/// for more is one to switch up, and needs one; of a client that gets no video, it is passed over.
/// Nothing else changes, and no layer changes yet.
pub proof fn law_spatial_wishes(a: LayerSelector, s: u8, has_video: bool)
    ensures
        ({
            let change = LayerChangeRequest::Spatial(s);
            let b = a.requested(change, has_video);
            &&& b == LayerSelector {
                new_spatial: b.new_spatial,
                pending_spatial: b.pending_spatial,
                ..a
            }
            &&& s <= a.target_spatial ==> b.new_spatial == Some(s) && b.pending_spatial
                == a.pending_spatial && !a.needs_keyframe(change, has_video)
            &&& s > a.target_spatial ==> b.new_spatial == a.new_spatial && a.needs_keyframe(
                change,
                has_video,
            ) == has_video
            &&& s > a.target_spatial && has_video ==> b.pending_spatial == Some(s)
            &&& s > a.target_spatial && !has_video ==> b.pending_spatial == a.pending_spatial
        }),
{
}

/// Of packets that come in with consecutive numbers, those that go on have consecutive numbers: the
/// next one that goes on gets the number after the last, however many were dropped between.
pub proof fn law_numbers_go_on(
    states: Seq<LayerSelector>,
    headers: Seq<HeaderModel>,
    first: u16,
    i: int,
    j: int,
)
    requires
        states.len() == headers.len() + 1,
        0 <= i < j < headers.len(),
        first + headers.len() <= 65535,
        forall|k: int|
            0 <= k < headers.len() ==> (#[trigger] states[k]).steps(headers[k], states[k + 1]),
        forall|k: int|
            0 <= k < headers.len() ==> (#[trigger] states[k]).is_countable(
                headers[k],
                (first + k) as u16,
            ),
        states[i].decision(headers[i], (first + i) as u16, false) is Forward,
        states[j].decision(headers[j], (first + j) as u16, false) is Forward,
        forall|k: int|
            i < k < j ==> (#[trigger] states[k]).decision(headers[k], (first + k) as u16, false)
                == Decision::Drop,
    ensures
        states[i].decision(headers[i], (first + i) as u16, false) matches Decision::Forward(m, _)
            && states[j].decision(headers[j], (first + j) as u16, false) matches Decision::Forward(
            n,
            _,
        ) && n.0 == m.0 + 1,
{
    lemma_dropped(states, headers, first, i, j);
    assert(states[i].is_countable(headers[i], (first + i) as u16));
    assert(states[j].is_countable(headers[j], (first + j) as u16));
}

/// The packets between two that go on are all counted as dropped.
proof fn lemma_dropped(
    states: Seq<LayerSelector>,
    headers: Seq<HeaderModel>,
    first: u16,
    i: int,
    j: int,
)
    requires
        states.len() == headers.len() + 1,
        0 <= i < j < headers.len(),
        forall|k: int|
            0 <= k < headers.len() ==> (#[trigger] states[k]).steps(headers[k], states[k + 1]),
        states[i].decision(headers[i], (first + i) as u16, false) is Forward,
        forall|k: int|
            i < k < j ==> (#[trigger] states[k]).decision(headers[k], (first + k) as u16, false)
                == Decision::Drop,
    ensures
        states[j].base_seq == states[i].base_seq + (j - i - 1),
        states[j].base_seq_prev == states[i].base_seq_prev,
    decreases j,
{
    assert(states[j - 1].steps(headers[j - 1], states[j - 1 + 1]));
    if i < j - 1 {
        lemma_dropped(states, headers, first, i, j - 1);
        assert(states[j - 1].drops(headers[j - 1]));
    }
}

/// The eight flags of a packet are remembered.
pub proof fn law_flags_are_remembered(a: Vp9HeaderDescriptor, x: Parts, b: Vp9HeaderDescriptor)
    requires
        a.takes(descriptor_of(x), b),
    ensures
        b.i == (x.picture_id is Some),
        b.p == x.p,
        b.l == (x.layer is Some),
        b.f == x.f,
        b.b == x.b,
        b.e == x.e,
        b.v == (x.structure is Some),
        b.z == x.z,
{
    assert(a.takes_flags(descriptor_of(x), b));
    lemma_flags(x);
}

/// The picture id, the layers and the references that a packet names are remembered; where it names
/// none, those named before.
pub proof fn law_layers_are_remembered(a: Vp9HeaderDescriptor, x: Parts, b: Vp9HeaderDescriptor)
    requires
        a.takes(descriptor_of(x), b),
    ensures
        b.picture_id == (match x.picture_id {
            Some((v, _)) => v,
            None => a.picture_id,
        }),
        x.layer matches Some(l) ==> b.tid == l.tid && b.u == l.u && b.sid == l.sid && b.d == l.d,
        x.layer is None ==> b.tid == a.tid && b.u == a.u && b.sid == a.sid && b.d == a.d,
        b.tl0picidx == (if x.layer is Some && !x.f {
            x.tl0picidx
        } else {
            a.tl0picidx
        }),
        x.refs.len() > 0 ==> b.pdiff@ == x.refs,
        x.refs.len() == 0 ==> b.pdiff@ == a.pdiff@,
{
    assert(a.takes_layers(descriptor_of(x), b));
}

/// The scalability structure that a packet carries is remembered, with its resolutions and its
/// picture group; what it does not carry stays.
pub proof fn law_structures_are_remembered(a: Vp9HeaderDescriptor, x: Parts, b: Vp9HeaderDescriptor)
    requires
        a.takes(descriptor_of(x), b),
    ensures
        x.structure is None ==> b.ns == a.ns && b.y == a.y && b.g == a.g && b.ng == a.ng && b.width
            == a.width && b.height == a.height,
        x.structure matches Some(s) ==> b.ns == s.ns && b.y == (s.sizes is Some) && b.g == (
        s.pictures is Some),
        x.structure matches Some(s) ==> (s.sizes matches Some(sizes) ==> forall|k: int|
            0 <= k < 3 && k < sizes.len() ==> #[trigger] b.width@[k] == Some(sizes[k].0)
                && b.height@[k] == Some(sizes[k].1)),
        x.structure matches Some(s) ==> (s.pictures is None ==> b.ng == 0),
        !(x.structure matches Some(s) && (s.pictures matches Some(l) && l.len() > 0)) ==> b.pgtid@
            == a.pgtid@ && b.pgu@ == a.pgu@ && rows(b.pgpdiff@) == rows(a.pgpdiff@),
{
    assert(a.takes_structure(descriptor_of(x), b));
    if let Some(s) = x.structure {
        let m = structure_of(s);
        assert(descriptor_of(x).structure == Some(m));
        if let Some(sizes) = s.sizes {
            assert forall|k: int| 0 <= k < 3 && k < sizes.len() implies #[trigger] b.width@[k]
                == Some(sizes[k].0) && b.height@[k] == Some(sizes[k].1) by {
                assert(b.height@[k] == Some(m.sizes[k].1));
            }
        }
        if let Some(l) = s.pictures {
            assert(m.pictures.len() == l.len());
        }
    }
}

/// The picture group that a packet carries is remembered, picture by picture.
pub proof fn law_picture_groups_are_remembered(
    a: Vp9HeaderDescriptor,
    x: Parts,
    s: StructureParts,
    l: Seq<PictureParts>,
    b: Vp9HeaderDescriptor,
    k: int,
)
    requires
        a.takes(descriptor_of(x), b),
        x.structure == Some(s),
        s.pictures == Some(l),
        0 <= k < l.len() <= 255,
    ensures
        b.ng == l.len(),
        b.pgtid@.len() == l.len(),
        b.pgu@.len() == l.len(),
        b.pgpdiff@.len() == l.len(),
        b.pgtid@[k] == l[k].tid,
        b.pgu@[k] == l[k].u,
        b.pgpdiff@[k]@ == l[k].pdiff,
{
    assert(a.takes_structure(descriptor_of(x), b));
    let m = structure_of(s);
    assert(descriptor_of(x).structure == Some(m));
    assert(m.pictures[k] == picture_of(l[k]));
    assert(rows(b.pgpdiff@).len() == l.len());
    assert(rows(b.pgpdiff@)[k] == b.pgpdiff@[k]@);
}

/// Whether the track is video that is still sent, by the client `origin` if one is given.
pub open spec fn shows_video(t: TrackOut, origin: Option<ClientId>) -> bool {
    match t.track_in {
        Some(x) => !(x.kind is Audio) && (origin is None || origin == Some(x.origin)),
        None => false,
    }
}

/// The first track for which `f` holds is one for which it holds, and none before it.
proof fn lemma_first_where(tracks: Seq<TrackOut>, f: spec_fn(TrackOut) -> bool) -> (i: int)
    ensures
        first_where(tracks, f) is None ==> forall|k: int|
            0 <= k < tracks.len() ==> !f(#[trigger] tracks[k]),
        first_where(tracks, f) matches Some(t) ==> 0 <= i < tracks.len() && tracks[i] == t && f(t)
            && forall|k: int| 0 <= k < i ==> !f(#[trigger] tracks[k]),
    decreases tracks.len(),
{
    if tracks.len() == 0 {
        0
    } else if f(tracks[0]) {
        0
    } else {
        let rest = tracks.skip(1);
        let j = lemma_first_where(rest, f);
        assert forall|k: int| 0 < k < tracks.len() implies #[trigger] tracks[k] == rest[k - 1] by {}
        j + 1
    }
}

/// The video of a client goes out under the media line of the first video track that is still sent,
/// by the given client if one is given; under none, if that track has not been offered, or if there
/// is no such track.
pub proof fn law_video_goes_out_first(c: Client, origin: Option<ClientId>, i: int)
    requires
        0 <= i <= c.tracks_out@.len(),
        forall|k: int| 0 <= k < i ==> !shows_video(#[trigger] c.tracks_out@[k], origin),
        i < c.tracks_out@.len() ==> shows_video(c.tracks_out@[i], origin),
    ensures
        i == c.tracks_out@.len() ==> c.spec_video_mid(origin) is None,
        i < c.tracks_out@.len() ==> match c.tracks_out@[i].state {
            TrackOutState::ToOpen => c.spec_video_mid(origin) is None,
            TrackOutState::Negotiating(m) => c.spec_video_mid(origin) == Some(m),
            TrackOutState::Open(m) => c.spec_video_mid(origin) == Some(m),
        },
{
    let f = |t: TrackOut| t.is_video(origin);
    assert forall|t: TrackOut| shows_video(t, origin) == #[trigger] f(t) by {
        if let Some(x) = t.track_in {
            assert(x.kind is Audio || x.kind == MediaKind::Video);
        }
    }
    let j = lemma_first_where(c.tracks_out@, f);
    if first_where(c.tracks_out@, f) is Some {
        if i < j {
            assert(!f(c.tracks_out@[i]));
        }
    } else if i < c.tracks_out@.len() {
        assert(!f(c.tracks_out@[i]));
    }
}

/// A request for a key frame is passed on for the first track that goes out under its media line: to
/// the client that sends the track, for the line under which it sends it, and for the encoding that
/// is received. It is not passed on if there is no such track, or if its sender is gone.
pub proof fn law_keyframe_requests_are_passed_on(c: Client, req: KeyframeRequest, i: int)
    requires
        0 <= i <= c.tracks_out@.len(),
        forall|k: int|
            0 <= k < i ==> (#[trigger] c.tracks_out@[k]).state != TrackOutState::Open(req.mid)
                && c.tracks_out@[k].state != TrackOutState::Negotiating(req.mid),
        i < c.tracks_out@.len() ==> c.tracks_out@[i].state == TrackOutState::Open(req.mid)
            || c.tracks_out@[i].state == TrackOutState::Negotiating(req.mid),
    ensures
        i == c.tracks_out@.len() || c.tracks_out@[i].track_in is None
            ==> c.spec_incoming_keyframe_req(req) == Propagated::Noop,
        i < c.tracks_out@.len() ==> (c.tracks_out@[i].track_in matches Some(t) ==> (
        c.spec_incoming_keyframe_req(req) matches Propagated::KeyframeRequest(from, sent, to, mid)
            && from == c.id && sent.mid == req.mid && sent.kind == req.kind && sent.rid
            == c.chosen_rid && to == t.origin && mid == t.mid)),
{
    let f = |t: TrackOut| t.spec_mid() == Some(req.mid);
    assert forall|t: TrackOut| #[trigger] f(t) == (t.state == TrackOutState::Open(req.mid) || t.state
        == TrackOutState::Negotiating(req.mid)) by {}
    let j = lemma_first_where(c.tracks_out@, f);
    if first_where(c.tracks_out@, f) is Some {
        if i < j {
            assert(!f(c.tracks_out@[i]));
        }
    } else if i < c.tracks_out@.len() {
        assert(!f(c.tracks_out@[i]));
    }
}

/// Who gets what is passed on: tracks and packets go to all clients but the one they come from, a
/// request for a key frame to the client that sends the track and to no other, and all else to none.
pub proof fn law_deliveries(
    from: ClientId,
    to: ClientId,
    track: TrackIn,
    req: KeyframeRequest,
    origin: ClientId,
    mid: Mid,
)
    ensures
        from != to ==> Propagated::TrackOpen(from, track).spec_deliver(to) == Delivery::OpenTrack(
            track,
        ),
        from != to ==> Propagated::RtpPacket(from).spec_deliver(to) == Delivery::Packet(from),
        Propagated::TrackOpen(from, track).spec_deliver(from) == Delivery::Skip,
        Propagated::RtpPacket(from).spec_deliver(from) == Delivery::Skip,
        Propagated::KeyframeRequest(from, req, origin, mid).spec_deliver(to) == (if to == origin
            && to != from {
            Delivery::RequestKeyframe(req, mid)
        } else {
            Delivery::Skip
        }),
        Propagated::Noop.spec_deliver(to) == Delivery::Skip,
        forall|at: crate::time::Instant|
            #[trigger] Propagated::Timeout(at).spec_deliver(to) == Delivery::Skip,
{
}

/// A track that was offered is open once the answer came in, under the line that it was offered
/// under, and not offered once an offer of the other side was accepted; no other track changes. A
/// track changes its sender only when that one leaves, and then has none.
pub proof fn law_tracks_change(t: TrackOut, mid: Mid, gone: ClientId)
    ensures
        confirmed(t).track_in == t.track_in && cancelled(t).track_in == t.track_in,
        orphaned(t, gone).state == t.state,
        t.state == TrackOutState::Negotiating(mid) ==> confirmed(t).state == TrackOutState::Open(mid)
            && cancelled(t).state == TrackOutState::ToOpen,
        t.state == TrackOutState::Open(mid) || t.state == TrackOutState::ToOpen ==> confirmed(t) == t
            && cancelled(t) == t,
        t.track_in matches Some(i) ==> orphaned(t, gone).track_in == (if i.origin == gone {
            None
        } else {
            Some(i)
        }),
        t.track_in is None ==> orphaned(t, gone).track_in is None,
{
}

/// What is passed on names the client that it comes from; what is not names none. A track goes out
/// under the media line that it was offered under.
pub proof fn law_names(
    from: ClientId,
    track: TrackIn,
    req: KeyframeRequest,
    origin: ClientId,
    mid: Mid,
    t: TrackOut,
)
    ensures
        Propagated::TrackOpen(from, track).spec_client_id() == Some(from),
        Propagated::RtpPacket(from).spec_client_id() == Some(from),
        Propagated::KeyframeRequest(from, req, origin, mid).spec_client_id() == Some(from),
        Propagated::Noop.spec_client_id() is None,
        t.state is ToOpen ==> t.spec_mid() is None,
        t.state == TrackOutState::Negotiating(mid) || t.state == TrackOutState::Open(mid)
            ==> t.spec_mid() == Some(mid),
{
}

/// A track is to be offered if it has not been, and is still sent.
pub proof fn law_tracks_to_open(c: Client, i: int)
    requires
        0 <= i < c.tracks_out@.len(),
    ensures
        c.is_to_open(i) <==> c.tracks_out@[i].state is ToOpen && !(c.tracks_out@[i].track_in is None),
{
}

} // verus!
