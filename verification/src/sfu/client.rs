//! The clients of a conference: their tracks, and what they pass on to each other.

use vstd::prelude::*;

use crate::sfu::layers::{LayerChangeRequest, LayerSelector};
use crate::time::Instant;

verus! {

/// A client.
#[derive(Clone, Copy, Debug, PartialEq, Eq, Structural)]
pub struct ClientId(pub u64);

/// A media line of a session.
#[derive(Clone, Copy, Debug, PartialEq, Eq, Structural)]
pub struct Mid(pub u64);

/// One of several encodings of a media line.
#[derive(Clone, Copy, Debug, PartialEq, Eq, Structural)]
pub struct Rid(pub u64);

/// The kind of a media line.
#[derive(Clone, Copy, Debug, PartialEq, Eq, Structural)]
pub enum MediaKind {
    Audio,
    Video,
}

/// How a key frame is requested.
#[derive(Clone, Copy, Debug, PartialEq, Eq, Structural)]
pub enum KeyframeRequestKind {
    Pli,
    Fir,
}

/// A request for a key frame.
#[derive(Clone, Copy, Debug, PartialEq, Eq, Structural)]
pub struct KeyframeRequest {
    pub mid: Mid,
    pub rid: Option<Rid>,
    pub kind: KeyframeRequestKind,
}

/// A track that a client sends.
#[derive(Clone, Copy, Debug, PartialEq, Eq, Structural)]
pub struct TrackIn {
    /// The client.
    pub origin: ClientId,
    /// Its media line.
    pub mid: Mid,
    /// Its kind.
    pub kind: MediaKind,
}

/// How far a track has been offered to the client that is to receive it.
#[derive(Clone, Copy, Debug, PartialEq, Eq, Structural)]
pub enum TrackOutState {
    /// Not offered.
    ToOpen,
    /// Offered under this media line.
    Negotiating(Mid),
    /// Accepted under this media line.
    Open(Mid),
}

/// A track that a client receives.
#[derive(Clone, Copy, Debug, PartialEq, Eq, Structural)]
pub struct TrackOut {
    /// Where it comes from; `None` once that client is gone.
    pub track_in: Option<TrackIn>,
    /// How far it has been offered.
    pub state: TrackOutState,
}

impl TrackOut {
    /// The media line under which the track goes out.
    pub open spec fn spec_mid(self) -> Option<Mid> {
        match self.state {
            TrackOutState::ToOpen => None,
            TrackOutState::Negotiating(m) => Some(m),
            TrackOutState::Open(m) => Some(m),
        }
    }

    /// The media line under which the track goes out.
    pub fn mid(&self) -> (r: Option<Mid>)
        ensures
            r == self.spec_mid(),
    {
        match self.state {
            TrackOutState::ToOpen => None,
            TrackOutState::Negotiating(m) => Some(m),
            TrackOutState::Open(m) => Some(m),
        }
    }

    /// Whether the track is video, from the client `origin` if one is given.
    pub open spec fn is_video(self, origin: Option<ClientId>) -> bool {
        self.track_in matches Some(t) && t.kind == MediaKind::Video && (origin matches Some(o)
            ==> t.origin == o)
    }
}

/// What one client passes on to others.
#[derive(Clone, Copy, Debug, PartialEq, Eq, Structural)]
pub enum Propagated {
    /// Nothing.
    Noop,
    /// The client has nothing to do until then.
    Timeout(Instant),
    /// A track came in.
    TrackOpen(ClientId, TrackIn),
    /// A key frame is requested from the client that sends the media line.
    KeyframeRequest(ClientId, KeyframeRequest, ClientId, Mid),
    /// A packet came in.
    RtpPacket(ClientId),
}

/// What a client does with what another one passed on.
#[derive(Clone, Copy, Debug, PartialEq, Eq, Structural)]
pub enum Delivery {
    /// Nothing.
    Skip,
    /// It is to receive the track.
    OpenTrack(TrackIn),
    /// It may forward the packet.
    Packet(ClientId),
    /// It is to request a key frame on its media line.
    RequestKeyframe(KeyframeRequest, Mid),
}

impl Propagated {
    /// The client that passes it on, if it is passed on at all.
    pub open spec fn spec_client_id(self) -> Option<ClientId> {
        match self {
            Propagated::TrackOpen(c, _) => Some(c),
            Propagated::RtpPacket(c) => Some(c),
            Propagated::KeyframeRequest(c, _, _, _) => Some(c),
            _ => None,
        }
    }

    /// The client that passes it on, if it is passed on at all.
    pub fn client_id(&self) -> (r: Option<ClientId>)
        ensures
            r == self.spec_client_id(),
    {
        match self {
            Propagated::TrackOpen(c, _) => Some(*c),
            Propagated::RtpPacket(c) => Some(*c),
            Propagated::KeyframeRequest(c, _, _, _) => Some(*c),
            _ => None,
        }
    }

    /// What the client `to` does with it. Nothing comes back to the client that passed it on, and
    /// a request for a key frame goes to the client that sends the track only.
    pub open spec fn spec_deliver(self, to: ClientId) -> Delivery {
        if self.spec_client_id() == Some(to) {
            Delivery::Skip
        } else {
            match self {
                Propagated::TrackOpen(_, track_in) => Delivery::OpenTrack(track_in),
                Propagated::RtpPacket(from) => Delivery::Packet(from),
                Propagated::KeyframeRequest(_, req, origin, mid_in) => if origin == to {
                    Delivery::RequestKeyframe(req, mid_in)
                } else {
                    Delivery::Skip
                },
                _ => Delivery::Skip,
            }
        }
    }

    /// What the client `to` does with it.
    pub fn deliver(&self, to: ClientId) -> (r: Delivery)
        ensures
            r == self.spec_deliver(to),
    {
        let Some(from) = self.client_id() else {
            return Delivery::Skip;
        };
        if from == to {
            return Delivery::Skip;
        }
        match self {
            Propagated::TrackOpen(_, track_in) => Delivery::OpenTrack(*track_in),
            Propagated::RtpPacket(from) => Delivery::Packet(*from),
            Propagated::KeyframeRequest(_, req, origin, mid_in) => {
                if *origin == to {
                    Delivery::RequestKeyframe(*req, *mid_in)
                } else {
                    Delivery::Skip
                }
            },
            _ => Delivery::Skip,
        }
    }
}

/// The tracks of a client.
#[derive(Debug)]
pub struct Client {
    /// The client.
    pub id: ClientId,
    /// Tracks that it sends.
    pub tracks_in: Vec<TrackIn>,
    /// Tracks that it receives.
    pub tracks_out: Vec<TrackOut>,
    /// Which encoding it gets.
    pub chosen_rid: Option<Rid>,
    /// Whether there is a channel to negotiate over.
    pub has_channel: bool,
    /// Whether an offer of ours waits for its answer.
    pub is_pending: bool,
}

/// The first track for which `f` holds.
pub open spec fn first_where(tracks: Seq<TrackOut>, f: spec_fn(TrackOut) -> bool) -> Option<TrackOut>
    decreases tracks.len(),
{
    if tracks.len() == 0 {
        None
    } else if f(tracks[0]) {
        Some(tracks[0])
    } else {
        first_where(tracks.skip(1), f)
    }
}

/// Looking on behind a track for which `f` does not hold finds the same track.
proof fn lemma_look_on(tracks: Seq<TrackOut>, f: spec_fn(TrackOut) -> bool, i: int)
    requires
        0 <= i < tracks.len(),
    ensures
        first_where(tracks.skip(i), f) == (if f(tracks[i]) {
            Some(tracks[i])
        } else {
            first_where(tracks.skip(i + 1), f)
        }),
{
    assert(tracks.skip(i).skip(1) =~= tracks.skip(i + 1));
}

/// The track once an offer of the other side has been accepted: what we had offered ourselves is to
/// be offered again.
pub open spec fn cancelled(t: TrackOut) -> TrackOut {
    match t.state {
        TrackOutState::Negotiating(_) => TrackOut { state: TrackOutState::ToOpen, ..t },
        _ => t,
    }
}

/// The track once our offer has been answered.
pub open spec fn confirmed(t: TrackOut) -> TrackOut {
    match t.state {
        TrackOutState::Negotiating(m) => TrackOut { state: TrackOutState::Open(m), ..t },
        _ => t,
    }
}

/// The track once the client `origin` is gone.
pub open spec fn orphaned(t: TrackOut, origin: ClientId) -> TrackOut {
    match t.track_in {
        Some(i) => if i.origin == origin {
            TrackOut { track_in: None, ..t }
        } else {
            t
        },
        None => t,
    }
}

impl Client {
    /// A client without tracks.
    pub fn new(id: ClientId) -> (r: Client)
        ensures
            r.id == id,
            r.tracks_in@.len() == 0,
            r.tracks_out@.len() == 0,
            r.chosen_rid is None,
            !r.has_channel,
            !r.is_pending,
    {
        Client {
            id,
            tracks_in: Vec::new(),
            tracks_out: Vec::new(),
            chosen_rid: None,
            has_channel: false,
            is_pending: false,
        }
    }

    /// A track of the client came in, to be passed on.
    pub fn handle_media_added(&mut self, mid: Mid, kind: MediaKind) -> (r: Propagated)
        ensures
            ({
                let track = TrackIn { origin: old(self).id, mid, kind };
                &&& r == Propagated::TrackOpen(old(self).id, track)
                &&& final(self).tracks_in@ == old(self).tracks_in@.push(track)
                &&& *final(self) == (Client { tracks_in: final(self).tracks_in, ..*old(self) })
            }),
    {
        let track = TrackIn { origin: self.id, mid, kind };
        self.tracks_in.push(track);
        Propagated::TrackOpen(self.id, track)
    }

    /// A track of another client came in.
    pub fn handle_track_open(&mut self, track_in: TrackIn)
        ensures
            final(self).tracks_out@ == old(self).tracks_out@.push(
                TrackOut { track_in: Some(track_in), state: TrackOutState::ToOpen },
            ),
            *final(self) == (Client { tracks_out: final(self).tracks_out, ..*old(self) }),
    {
        self.tracks_out.push(
            TrackOut { track_in: Some(track_in), state: TrackOutState::ToOpen },
        );
    }

    /// All tracks that another client sends came in.
    pub fn handle_tracks_of(&mut self, other: &Client)
        ensures
            final(self).tracks_out@ == old(self).tracks_out@ + other.tracks_in@.map_values(
                |t: TrackIn| TrackOut { track_in: Some(t), state: TrackOutState::ToOpen },
            ),
            *final(self) == (Client { tracks_out: final(self).tracks_out, ..*old(self) }),
    {
        let ghost opened = other.tracks_in@.map_values(
            |t: TrackIn| TrackOut { track_in: Some(t), state: TrackOutState::ToOpen },
        );
        let mut i: usize = 0;
        while i < other.tracks_in.len()
            invariant
                i <= other.tracks_in@.len(),
                opened == other.tracks_in@.map_values(
                    |t: TrackIn| TrackOut { track_in: Some(t), state: TrackOutState::ToOpen },
                ),
                self.tracks_out@ =~= old(self).tracks_out@ + opened.take(i as int),
                *self == (Client { tracks_out: self.tracks_out, ..*old(self) }),
            decreases other.tracks_in@.len() - i,
        {
            self.handle_track_open(other.tracks_in[i]);
            i += 1;
        }
        assert(opened.take(i as int) =~= opened);
    }

    /// The media line of the first video track that the client receives, from the client `origin`
    /// if one is given.
    pub open spec fn spec_video_mid(self, origin: Option<ClientId>) -> Option<Mid> {
        match first_where(self.tracks_out@, |t: TrackOut| t.is_video(origin)) {
            Some(t) => t.spec_mid(),
            None => None,
        }
    }

    /// The media line of the first video track that the client receives, from the client `origin`
    /// if one is given.
    pub fn video_mid(&self, origin: Option<ClientId>) -> (r: Option<Mid>)
        ensures
            r == self.spec_video_mid(origin),
    {
        let ghost f = |t: TrackOut| t.is_video(origin);
        let mut i: usize = 0;
        assert(self.tracks_out@.skip(0) =~= self.tracks_out@);
        while i < self.tracks_out.len()
            invariant
                i <= self.tracks_out@.len(),
                f == (|t: TrackOut| t.is_video(origin)),
                first_where(self.tracks_out@, f) == first_where(self.tracks_out@.skip(i as int), f),
            decreases self.tracks_out@.len() - i,
        {
            proof {
                lemma_look_on(self.tracks_out@, f, i as int);
            }
            if let Some(t) = self.tracks_out[i].track_in {
                let from_origin = match origin {
                    Some(o) => t.origin == o,
                    None => true,
                };
                if from_origin && t.kind == MediaKind::Video {
                    return self.tracks_out[i].mid();
                }
            }
            i += 1;
        }
        None
    }

    /// What the client passes on when it requests a key frame on a media line that it receives:
    /// the request goes to the client that sends the track, for the encoding that is received.
    pub open spec fn spec_incoming_keyframe_req(self, req: KeyframeRequest) -> Propagated {
        match first_where(self.tracks_out@, |t: TrackOut| t.spec_mid() == Some(req.mid)) {
            Some(out) => match out.track_in {
                Some(t) => Propagated::KeyframeRequest(
                    self.id,
                    KeyframeRequest { rid: self.chosen_rid, ..req },
                    t.origin,
                    t.mid,
                ),
                None => Propagated::Noop,
            },
            None => Propagated::Noop,
        }
    }

    /// The client requests a key frame on a media line that it receives: to be passed on to the
    /// client that sends the track.
    pub fn handle_incoming_keyframe_req(&self, req: KeyframeRequest) -> (r: Propagated)
        ensures
            r == self.spec_incoming_keyframe_req(req),
    {
        let ghost f = |t: TrackOut| t.spec_mid() == Some(req.mid);
        let mut i: usize = 0;
        assert(self.tracks_out@.skip(0) =~= self.tracks_out@);
        while i < self.tracks_out.len()
            invariant
                i <= self.tracks_out@.len(),
                f == (|t: TrackOut| t.spec_mid() == Some(req.mid)),
                first_where(self.tracks_out@, f) == first_where(self.tracks_out@.skip(i as int), f),
            decreases self.tracks_out@.len() - i,
        {
            proof {
                lemma_look_on(self.tracks_out@, f, i as int);
            }
            if let Some(mid) = self.tracks_out[i].mid() {
                if mid == req.mid {
                    return match self.tracks_out[i].track_in {
                        Some(t) => Propagated::KeyframeRequest(
                            self.id,
                            KeyframeRequest { mid: req.mid, rid: self.chosen_rid, kind: req.kind },
                            t.origin,
                            t.mid,
                        ),
                        None => Propagated::Noop,
                    };
                }
            }
            i += 1;
        }
        Propagated::Noop
    }

    /// The client wishes for other layers. To switch up it needs a key frame, the request for which
    /// is to be passed on.
    pub fn handle_layer_change(
        &self,
        layers: &mut LayerSelector,
        change: LayerChangeRequest,
    ) -> (r: Propagated)
        ensures
            *final(layers) == old(layers).requested(change, self.spec_video_mid(None) is Some),
            r == (if old(layers).needs_keyframe(change, self.spec_video_mid(None) is Some) {
                self.spec_incoming_keyframe_req(
                    KeyframeRequest {
                        mid: self.spec_video_mid(None)->0,
                        rid: None,
                        kind: KeyframeRequestKind::Fir,
                    },
                )
            } else {
                Propagated::Noop
            }),
    {
        let video = self.video_mid(None);
        let needs_keyframe = layers.request(change, video.is_some());
        match video {
            Some(mid) if needs_keyframe => self.handle_incoming_keyframe_req(
                KeyframeRequest { mid, rid: None, kind: KeyframeRequestKind::Fir },
            ),
            _ => Propagated::Noop,
        }
    }

    /// Whether the client sends the media line on which a key frame is requested.
    pub fn handle_keyframe_request(&self, mid_in: Mid) -> (r: bool)
        ensures
            r == exists|i: int|
                0 <= i < self.tracks_in@.len() && (#[trigger] self.tracks_in@[i]).mid == mid_in,
    {
        let mut i: usize = 0;
        while i < self.tracks_in.len()
            invariant
                i <= self.tracks_in@.len(),
                forall|k: int| 0 <= k < i ==> (#[trigger] self.tracks_in@[k]).mid != mid_in,
            decreases self.tracks_in@.len() - i,
        {
            if self.tracks_in[i].mid == mid_in {
                return true;
            }
            i += 1;
        }
        false
    }

    /// Whether the track at `i` is to be offered.
    pub open spec fn is_to_open(self, i: int) -> bool {
        &&& 0 <= i < self.tracks_out@.len()
        &&& self.tracks_out@[i].state == TrackOutState::ToOpen
        &&& self.tracks_out@[i].track_in is Some
    }

    /// The tracks to offer now, in order. None, if there is no channel to do it over, or if an
    /// offer still waits for its answer.
    pub fn tracks_to_open(&self) -> (r: Vec<usize>)
        ensures
            !self.has_channel || self.is_pending ==> r@.len() == 0,
            self.has_channel && !self.is_pending ==> {
                &&& forall|k: int| 0 <= k < r@.len() ==> self.is_to_open(#[trigger] r@[k] as int)
                &&& forall|i: usize| self.is_to_open(i as int) ==> #[trigger] r@.contains(i)
                &&& forall|j: int, k: int| 0 <= j < k < r@.len() ==> #[trigger] r@[j] < #[trigger] r@[k]
            },
    {
        let mut r: Vec<usize> = Vec::new();
        if !self.has_channel || self.is_pending {
            return r;
        }
        let mut i: usize = 0;
        while i < self.tracks_out.len()
            invariant
                i <= self.tracks_out@.len(),
                forall|k: int|
                    0 <= k < r@.len() ==> self.is_to_open(#[trigger] r@[k] as int) && r@[k] < i,
                forall|j: usize| self.is_to_open(j as int) && j < i ==> #[trigger] r@.contains(j),
                forall|j: int, k: int|
                    0 <= j < k < r@.len() ==> #[trigger] r@[j] < #[trigger] r@[k],
            decreases self.tracks_out@.len() - i,
        {
            let ghost before = r@;
            let track = self.tracks_out[i];
            if track.state == TrackOutState::ToOpen && track.track_in.is_some() {
                r.push(i);
                assert(r@[before.len() as int] == i);
            }
            assert forall|j: usize| self.is_to_open(j as int) && j < i + 1 implies #[trigger]
                r@.contains(j) by {
                if j < i {
                    assert(before.contains(j));
                    let k = choose|k: int| 0 <= k < before.len() && before[k] == j;
                    assert(r@[k] == j);
                }
            }
            i += 1;
        }
        r
    }

    /// The track at `i` has been offered under the media line `mid`.
    pub fn offer_track(&mut self, i: usize, mid: Mid)
        requires
            i < old(self).tracks_out@.len(),
        ensures
            final(self).tracks_out@ == old(self).tracks_out@.update(
                i as int,
                TrackOut {
                    state: TrackOutState::Negotiating(mid),
                    ..old(self).tracks_out@[i as int]
                },
            ),
            *final(self) == (Client { tracks_out: final(self).tracks_out, ..*old(self) }),
    {
        let track_in = self.tracks_out[i].track_in;
        self.tracks_out[i] = TrackOut { track_in, state: TrackOutState::Negotiating(mid) };
    }

    /// An offer of the other side has been accepted. What we had offered ourselves is cancelled, to
    /// be offered again.
    pub fn handle_offer(&mut self)
        ensures
            final(self).tracks_out@ == old(self).tracks_out@.map_values(|t: TrackOut| cancelled(t)),
            *final(self) == (Client { tracks_out: final(self).tracks_out, ..*old(self) }),
    {
        let mut i: usize = 0;
        while i < self.tracks_out.len()
            invariant
                i <= self.tracks_out@.len() == old(self).tracks_out@.len(),
                forall|k: int|
                    0 <= k < self.tracks_out@.len() ==> #[trigger] self.tracks_out@[k] == (if k < i {
                        cancelled(old(self).tracks_out@[k])
                    } else {
                        old(self).tracks_out@[k]
                    }),
                *self == (Client { tracks_out: self.tracks_out, ..*old(self) }),
            decreases self.tracks_out@.len() - i,
        {
            let track = self.tracks_out[i];
            if let TrackOutState::Negotiating(_) = track.state {
                self.tracks_out[i] = TrackOut {
                    track_in: track.track_in,
                    state: TrackOutState::ToOpen,
                };
            }
            i += 1;
        }
        assert(self.tracks_out@ =~= old(self).tracks_out@.map_values(|t: TrackOut| cancelled(t)));
    }

    /// The answer to our offer came in: what we had offered is open. An answer that nothing waits
    /// for changes nothing. Answers whether one was waited for.
    pub fn handle_answer(&mut self) -> (r: bool)
        ensures
            r == old(self).is_pending,
            !r ==> *final(self) == *old(self),
            r ==> {
                &&& final(self).tracks_out@ == old(self).tracks_out@.map_values(
                    |t: TrackOut| confirmed(t),
                )
                &&& *final(self) == (Client {
                    tracks_out: final(self).tracks_out,
                    is_pending: false,
                    ..*old(self)
                })
            },
    {
        if !self.is_pending {
            return false;
        }
        self.is_pending = false;
        let mut i: usize = 0;
        while i < self.tracks_out.len()
            invariant
                i <= self.tracks_out@.len() == old(self).tracks_out@.len(),
                forall|k: int|
                    0 <= k < self.tracks_out@.len() ==> #[trigger] self.tracks_out@[k] == (if k < i {
                        confirmed(old(self).tracks_out@[k])
                    } else {
                        old(self).tracks_out@[k]
                    }),
                *self == (Client {
                    tracks_out: self.tracks_out,
                    is_pending: false,
                    ..*old(self)
                }),
            decreases self.tracks_out@.len() - i,
        {
            let track = self.tracks_out[i];
            if let TrackOutState::Negotiating(m) = track.state {
                self.tracks_out[i] = TrackOut {
                    track_in: track.track_in,
                    state: TrackOutState::Open(m),
                };
            }
            i += 1;
        }
        assert(self.tracks_out@ =~= old(self).tracks_out@.map_values(|t: TrackOut| confirmed(t)));
        true
    }

    /// The client `origin` is gone, and with it the tracks that it sent.
    pub fn forget(&mut self, origin: ClientId)
        ensures
            final(self).tracks_out@ == old(self).tracks_out@.map_values(
                |t: TrackOut| orphaned(t, origin),
            ),
            *final(self) == (Client { tracks_out: final(self).tracks_out, ..*old(self) }),
    {
        let mut i: usize = 0;
        while i < self.tracks_out.len()
            invariant
                i <= self.tracks_out@.len() == old(self).tracks_out@.len(),
                forall|k: int|
                    0 <= k < self.tracks_out@.len() ==> #[trigger] self.tracks_out@[k] == (if k < i {
                        orphaned(old(self).tracks_out@[k], origin)
                    } else {
                        old(self).tracks_out@[k]
                    }),
                *self == (Client { tracks_out: self.tracks_out, ..*old(self) }),
            decreases self.tracks_out@.len() - i,
        {
            let track = self.tracks_out[i];
            if let Some(t) = track.track_in {
                if t.origin == origin {
                    self.tracks_out[i] = TrackOut { track_in: None, state: track.state };
                }
            }
            i += 1;
        }
        assert(self.tracks_out@ =~= old(self).tracks_out@.map_values(
            |t: TrackOut| orphaned(t, origin),
        ));
    }
}

/// Nothing that a client passes on comes back to it.
pub proof fn law_nothing_comes_back(p: Propagated, from: ClientId)
    requires
        p.spec_client_id() == Some(from),
    ensures
        p.spec_deliver(from) == Delivery::Skip,
{
}

/// A request for a key frame is delivered to one client only: the one that sends the track.
pub proof fn law_one_client_gets_keyframe_requests(
    from: ClientId,
    req: KeyframeRequest,
    origin: ClientId,
    mid: Mid,
    to: ClientId,
)
    requires
        from != origin,
    ensures
        Propagated::KeyframeRequest(from, req, origin, mid).spec_deliver(to) != Delivery::Skip
            <==> to == origin,
{
}

/// A request for a key frame on a track that another client sends is delivered to that client, for
/// the media line under which it sends the track.
pub proof fn law_keyframe_requests_find_the_sender(c: Client, req: KeyframeRequest, t: TrackIn)
    requires
        first_where(c.tracks_out@, |o: TrackOut| o.spec_mid() == Some(req.mid)) matches Some(out)
            && out.track_in == Some(t),
        t.origin != c.id,
    ensures
        c.spec_incoming_keyframe_req(req).spec_deliver(t.origin) == Delivery::RequestKeyframe(
            KeyframeRequest { rid: c.chosen_rid, ..req },
            t.mid,
        ),
{
}

/// A track that was offered is, whatever the outcome, either open or to be offered again.
pub proof fn law_negotiation_ends(t: TrackOut)
    ensures
        !(cancelled(t).state is Negotiating),
        !(confirmed(t).state is Negotiating),
        confirmed(t).spec_mid() == t.spec_mid(),
{
}

} // verus!
