//! The receive buffer: puts packets in order and frames together.

use vstd::prelude::*;

use std::collections::VecDeque;

use crate::header::SeqNo;
use crate::packet::codec::{CodecExtra, Depacketizer, PacketError, Vp8Contiguity};
use crate::packet::meta::{Depacketized, RtpMeta};
use crate::packet::segments::{
    is_segment, is_segment_list, lemma_segments, no_tail, ordered, segments, Entry,
};
use crate::time::MediaTime;

verus! {

/// What a receive buffer holds.
pub struct BufferState<D, C> {
    /// How many frames to wait for a missing packet.
    pub hold_back: usize,
    /// The depacketizer.
    pub depack: D,
    /// Packets not emitted yet.
    pub queue: Seq<Entry>,
    /// The last packet of the frame emitted last, and what its codec told of that frame.
    pub last_emitted: Option<(SeqNo, CodecExtra)>,
    /// The latest media time seen.
    pub max_time: Option<MediaTime>,
    /// A frame depacketized ahead of time, with the sequence number of its last packet.
    pub cache: Option<(SeqNo, Depacketized)>,
    /// The judge of VP8 frames.
    pub vp8: C,
}

/// Whether the packets of a frame have consecutive sequence numbers and the same media time, which
/// is the time of the frame.
pub open spec fn is_frame(d: Depacketized) -> bool {
    &&& d.meta@.len() > 0
    &&& d.time == d.meta@[0].time
    &&& forall|k: int|
        0 <= k < d.meta@.len() ==> (#[trigger] d.meta@[k]).seq_no.0 == d.meta@[0].seq_no.0 + k
            && d.time.same(d.meta@[k].time)
}

/// Whether the queue holds a packet with the sequence number.
pub open spec fn holds(q: Seq<Entry>, seq_no: SeqNo) -> bool {
    exists|i: int| 0 <= i < q.len() && (#[trigger] q[i]).meta.seq_no == seq_no
}

/// Whether a packet with the sequence number belongs before the entry `i`.
pub open spec fn is_slot(q: Seq<Entry>, seq_no: SeqNo, i: int) -> bool {
    &&& 0 <= i <= q.len()
    &&& forall|k: int| 0 <= k < i ==> (#[trigger] q[k]).seq() < seq_no.0
    &&& forall|k: int| i <= k < q.len() ==> seq_no.0 < (#[trigger] q[k]).seq()
}

/// Where a packet with the sequence number belongs.
pub open spec fn slot(q: Seq<Entry>, seq_no: SeqNo) -> int {
    choose|i: int| is_slot(q, seq_no, i)
}

/// A depacketizer and what it has put out so far.
pub struct Unpacking<D> {
    pub depack: D,
    pub out: Seq<u8>,
    pub extra: CodecExtra,
}

impl<D: Depacketizer> Unpacking<D> {
    /// A depacketizer that has put out nothing.
    pub open spec fn begin(depack: D) -> Self {
        Unpacking { depack, out: Seq::empty(), extra: CodecExtra::Nothing }
    }

    /// Whether the packet can lead from `self` to `next`, with the answer `r`.
    pub open spec fn may_step(
        self,
        packet: Seq<u8>,
        next: Self,
        r: Result<(), PacketError>,
    ) -> bool {
        D::may_depacketize(
            self.depack,
            packet,
            self.out,
            self.extra,
            next.depack,
            next.out,
            next.extra,
            r,
        )
    }
}

/// Whether the packets `run`, unpacked one after the other without error, can lead through the
/// states `trace`.
pub open spec fn is_trace<D: Depacketizer>(trace: Seq<Unpacking<D>>, run: Seq<Entry>) -> bool {
    &&& trace.len() == run.len() + 1
    &&& trace[0] == Unpacking::begin(trace[0].depack)
    &&& forall|i: int|
        0 <= i < run.len() ==> (#[trigger] trace[i]).may_step(
            run[i].data@,
            trace[i + 1],
            Ok::<(), PacketError>(()),
        )
}

/// Whether `d` is the frame made of the packets `run`, given that their payload is `last`.
pub open spec fn is_made_of<D: Depacketizer>(
    d: Depacketized,
    run: Seq<Entry>,
    last: Unpacking<D>,
) -> bool {
    &&& d.time == run[0].meta.time
    &&& d.contiguous
    &&& d.meta@ == run.map_values(|e: Entry| e.meta)
    &&& d.data@ == last.out
    &&& d.codec_extra == last.extra
}

/// Whether unpacking the packets `run` can turn the depacketizer `pre` into `post`, with the
/// result `r`: the frame made of all of them, or the error of the first that has one.
pub open spec fn may_unpack<D: Depacketizer>(
    pre: D,
    run: Seq<Entry>,
    post: D,
    r: Result<Depacketized, PacketError>,
) -> bool {
    match r {
        Ok(d) => exists|trace: Seq<Unpacking<D>>| #[trigger]
            is_trace(trace, run) && trace[0].depack == pre && trace.last().depack == post
                && is_made_of(d, run, trace.last()),
        Err(e) => exists|trace: Seq<Unpacking<D>>, end: Unpacking<D>|
            trace.len() <= run.len() && #[trigger] is_trace(trace, run.take(trace.len() - 1))
                && trace[0].depack == pre && #[trigger] trace.last().may_step(
                run[trace.len() - 1].data@,
                end,
                Err::<(), PacketError>(e),
            ) && end.depack == post,
    }
}

/// Whether the packets `run` are all in the queue, begin with a head, and have no tail before the
/// last one.
pub open spec fn is_run_of(run: Seq<Entry>, q: Seq<Entry>) -> bool {
    &&& run.len() > 0
    &&& run[0].head
    &&& no_tail(run, 0, run.len() - 1)
    &&& forall|k: int| 0 <= k < run.len() ==> q.contains(#[trigger] run[k])
}

/// Whether the frame is what a depacketizer can make of packets that are all in the queue, the
/// first of which is a head. Whether the frame is contiguous is another matter.
pub open spec fn is_built_from<D: Depacketizer>(d: Depacketized, q: Seq<Entry>) -> bool {
    exists|pre: D, run: Seq<Entry>, post: D|
        is_run_of(run, q) && #[trigger] may_unpack(
            pre,
            run,
            post,
            Ok::<Depacketized, PacketError>(Depacketized { contiguous: true, ..d }),
        )
}

impl<D: Depacketizer, C: Vp8Contiguity> BufferState<D, C> {
    /// Whether the buffer is in order, and holds nothing that it has already left behind.
    pub open spec fn wf(self) -> bool {
        &&& ordered(self.queue)
        &&& self.queue.len() <= usize::MAX
        &&& forall|i: int| 0 <= i < self.queue.len() ==> !self.is_late((#[trigger] self.queue[i]).meta.seq_no)
        &&& self.cache matches Some((seq_no, d)) ==> {
            &&& self.hold_back > 0
            &&& is_frame(d)
            &&& d.meta@.last().seq_no == seq_no
            &&& !self.is_late(d.meta@[0].seq_no)
            &&& d.contiguous
            &&& is_built_from::<D>(d, self.queue)
        }
    }

    /// Whether a packet comes too late: frames are not emitted in the wrong order, so a packet
    /// before the last emitted one is dropped. A buffer that does not hold back takes all packets.
    pub open spec fn is_late(self, seq_no: SeqNo) -> bool {
        &&& self.hold_back > 0
        &&& self.last_emitted matches Some((last, _))
        &&& seq_no.0 <= last.0
    }

    /// Whether a packet is taken in: it is not late, and the queue does not hold it already.
    pub open spec fn takes(self, seq_no: SeqNo) -> bool {
        !self.is_late(seq_no) && !holds(self.queue, seq_no)
    }

    /// The buffer after a packet came in that the codec takes for a `head` and for a `tail`.
    pub open spec fn pushed(self, meta: RtpMeta, data: Vec<u8>, head: bool, tail: bool) -> Self {
        if self.is_late(meta.seq_no) {
            self
        } else {
            BufferState {
                max_time: Some(
                    match self.max_time {
                        Some(m) => m.later_of(meta.time),
                        None => meta.time,
                    },
                ),
                queue: if holds(self.queue, meta.seq_no) {
                    self.queue
                } else {
                    self.queue.insert(
                        slot(self.queue, meta.seq_no),
                        Entry { meta, data, head, tail },
                    )
                },
                ..self
            }
        }
    }

    /// Whether a packet can turn the buffer into `post`, whatever the codec can take it for.
    pub open spec fn may_push(self, meta: RtpMeta, data: Vec<u8>, post: Self) -> bool {
        exists|head: bool, tail: bool|
            post == #[trigger] self.pushed(meta, data, head, tail) && (self.takes(meta.seq_no)
                ==> self.depack.may_head(data@, head) && self.depack.may_tail(
                meta.header.marker,
                data@,
                tail,
            ))
    }

    /// Whether the frame that begins at the entry `start` directly follows the one emitted last:
    /// nothing is missing, and all that lies between is padding.
    pub open spec fn follows_last(self, start: int) -> bool {
        match self.last_emitted {
            Some((last, _)) => {
                &&& forall|k: int| 0 <= k <= start ==> (#[trigger] self.queue[k]).seq() == last.0 + 1 + k
                &&& forall|k: int| 0 <= k < start ==> (#[trigger] self.queue[k]).is_padding()
            },
            None => true,
        }
    }

    /// Whether the first frame of the queue waits for what is missing before it.
    pub open spec fn waits(self) -> bool {
        let segs = segments(self.queue);
        !self.follows_last(segs[0].0 as int) && segs.len() < self.hold_back
    }

    /// The sequence number of the last packet of the first frame.
    pub open spec fn first_stop(self) -> SeqNo {
        self.queue[segments(self.queue)[0].1 as int].meta.seq_no
    }

    /// Whether a frame that ends at the entry `stop` has been depacketized ahead of time.
    pub open spec fn is_cached(self, stop: int) -> bool {
        self.cache matches Some((seq_no, _)) && seq_no == self.queue[stop].meta.seq_no
    }

    /// Whether depacketizing the entries `start..=stop` can have the result `dep`, leaving the
    /// depacketizer in the state `post`.
    pub open spec fn may_fetch_run(
        self,
        start: int,
        stop: int,
        post: D,
        dep: Result<Depacketized, PacketError>,
    ) -> bool {
        if self.is_cached(stop) {
            &&& post == self.depack
            &&& self.cache matches Some((_, d))
            &&& dep == Ok::<Depacketized, PacketError>(d)
        } else {
            may_unpack(self.depack, self.queue.subrange(start, stop + 1), post, dep)
        }
    }

    /// Whether depacketizing the first frame can have the result `dep`, leaving the depacketizer
    /// in the state `post`.
    pub open spec fn may_fetch(self, post: D, dep: Result<Depacketized, PacketError>) -> bool {
        let (start, stop) = segments(self.queue)[0];
        self.may_fetch_run(start as int, stop as int, post, dep)
    }

    /// Whether the first frame, of which the codec told `extra`, can get the verdict that it may
    /// be emitted and that it is contiguous, leaving the judge of VP8 frames in the state `post`.
    pub open spec fn may_judge(self, extra: CodecExtra, post: C, verdict: (bool, bool)) -> bool {
        let contiguous_seq = self.follows_last(segments(self.queue)[0].0 as int);
        match extra {
            CodecExtra::Vp8(next) => C::may_check(self.vp8, next, contiguous_seq, post, verdict),
            _ => post == self.vp8 && verdict == (true, contiguous_seq),
        }
    }

    /// The buffer without the first frame and all before it.
    pub open spec fn without_first(self) -> Self {
        BufferState {
            queue: self.queue.skip(segments(self.queue)[0].1 + 1),
            ..self
        }
    }

    /// The buffer, and what it gives out, after the first frame `d` got its verdict.
    pub open spec fn released(
        self,
        d: Depacketized,
        verdict: (bool, bool),
    ) -> (Self, Option<Result<Depacketized, PacketError>>) {
        if verdict.0 {
            (
                BufferState {
                    last_emitted: Some((self.first_stop(), d.codec_extra)),
                    ..self.without_first()
                },
                Some(Ok(Depacketized { contiguous: verdict.1, ..d })),
            )
        } else {
            (self.without_first(), None)
        }
    }

    /// Whether the buffer `self`, the first frame of which was depacketized with the result `dep`,
    /// can become `post` and give out `r`.
    pub open spec fn may_settle(
        self,
        dep: Result<Depacketized, PacketError>,
        post: Self,
        r: Option<Result<Depacketized, PacketError>>,
    ) -> bool {
        match dep {
            Err(e) => {
                &&& post == BufferState {
                    last_emitted: Some((self.first_stop(), CodecExtra::Nothing)),
                    ..self.without_first()
                }
                &&& r == Some(Err::<Depacketized, PacketError>(e))
            },
            Ok(d) => if self.waits() {
                post == (BufferState { cache: Some((self.first_stop(), d)), ..self }) && r is None
            } else {
                exists|verdict: (bool, bool)| #[trigger]
                    self.may_judge(d.codec_extra, post.vp8, verdict) && (post, r)
                        == (BufferState { vp8: post.vp8, ..self }).released(d, verdict)
            },
        }
    }

    /// Whether asking the buffer `self` for a frame can turn it into `post` and give out `r`.
    pub open spec fn may_pop(
        self,
        post: Self,
        r: Option<Result<Depacketized, PacketError>>,
    ) -> bool {
        if segments(self.queue).len() == 0 {
            post == self && r is None
        } else {
            exists|dep: Result<Depacketized, PacketError>| #[trigger]
                self.may_fetch(post.depack, dep) && (BufferState {
                    depack: post.depack,
                    cache: None,
                    ..self
                }).may_settle(dep, post, r)
        }
    }
}

/// Puts packets in order of their sequence numbers, and hands out the frames that they make up.
#[derive(Debug)]
pub struct DepacketizingBuffer<D, C> {
    hold_back: usize,
    depack: D,
    queue: VecDeque<Entry>,
    segments: Vec<(usize, usize)>,
    last_emitted: Option<(SeqNo, CodecExtra)>,
    max_time: Option<MediaTime>,
    depack_cache: Option<(SeqNo, Depacketized)>,
    vp8_contiguity: C,
}

impl<D: Depacketizer, C: Vp8Contiguity> View for DepacketizingBuffer<D, C> {
    type V = BufferState<D, C>;

    closed spec fn view(&self) -> BufferState<D, C> {
        BufferState {
            hold_back: self.hold_back,
            depack: self.depack,
            queue: self.queue@,
            last_emitted: self.last_emitted,
            max_time: self.max_time,
            cache: self.depack_cache,
            vp8: self.vp8_contiguity,
        }
    }
}

/// A packet belongs in one place only.
pub(crate) proof fn lemma_slot(q: Seq<Entry>, seq_no: SeqNo, i: int)
    requires
        is_slot(q, seq_no, i),
    ensures
        slot(q, seq_no) == i,
        !holds(q, seq_no),
{
    let j = slot(q, seq_no);
    if i < j {
        assert(q[i].seq() < seq_no.0);
    } else if j < i {
        assert(q[j].seq() < seq_no.0);
    }
}

/// A packet that an ordered queue does not hold has its place there.
pub(crate) proof fn lemma_slot_exists(q: Seq<Entry>, seq_no: SeqNo)
    requires
        ordered(q),
        !holds(q, seq_no),
    ensures
        is_slot(q, seq_no, slot(q, seq_no)),
    decreases q.len(),
{
    if q.len() == 0 {
        assert(is_slot(q, seq_no, 0));
    } else {
        let p = q.drop_last();
        assert(q.last().meta.seq_no != seq_no) by {
            assert(q[q.len() - 1] == q.last());
        }
        if q.last().seq() < seq_no.0 {
            assert(is_slot(q, seq_no, q.len() as int));
        } else {
            assert(!holds(p, seq_no)) by {
                if holds(p, seq_no) {
                    let i = choose|i: int| 0 <= i < p.len() && (#[trigger] p[i]).meta.seq_no == seq_no;
                    assert(q[i].meta.seq_no == seq_no);
                }
            }
            lemma_slot_exists(p, seq_no);
            let i = slot(p, seq_no);
            assert forall|k: int| 0 <= k < i implies (#[trigger] q[k]).seq() < seq_no.0 by {
                assert(p[k] == q[k]);
            }
            assert forall|k: int| i <= k < q.len() implies seq_no.0 < (#[trigger] q[k]).seq() by {
                if k < p.len() {
                    assert(p[k] == q[k]);
                }
            }
            assert(is_slot(q, seq_no, i));
        }
    }
}

impl<D: Depacketizer, C: Vp8Contiguity> DepacketizingBuffer<D, C> {
    /// A buffer that waits for a missing packet until `hold_back` frames are ready.
    pub fn new(depack: D, hold_back: usize) -> (r: Self)
        ensures
            r@.wf(),
            r@ == (BufferState {
                hold_back,
                depack,
                queue: Seq::empty(),
                last_emitted: None,
                max_time: None,
                cache: None,
                vp8: r@.vp8,
            }),
            r@.vp8.is_new(),
    {
        DepacketizingBuffer {
            hold_back,
            depack,
            queue: VecDeque::new(),
            segments: Vec::new(),
            last_emitted: None,
            max_time: None,
            depack_cache: None,
            vp8_contiguity: C::new(),
        }
    }

    /// Where a packet with the sequence number belongs; `None` if there is one already.
    fn find_slot(&self, seq_no: SeqNo) -> (r: Option<usize>)
        requires
            ordered(self@.queue),
        ensures
            match r {
                Some(i) => is_slot(self@.queue, seq_no, i as int),
                None => holds(self@.queue, seq_no),
            },
    {
        let mut low: usize = 0;
        let mut high: usize = self.queue.len();
        while low < high
            invariant
                low <= high <= self.queue@.len(),
                ordered(self.queue@),
                forall|k: int| 0 <= k < low ==> (#[trigger] self.queue@[k]).seq() < seq_no.0,
                forall|k: int|
                    high <= k < self.queue@.len() ==> seq_no.0 < (#[trigger] self.queue@[k]).seq(),
            decreases high - low,
        {
            let mid: usize = low + (high - low) / 2;
            let found: u64 = self.queue[mid].meta.seq_no.0;
            if found < seq_no.0 {
                low = mid + 1;
            } else if found > seq_no.0 {
                high = mid;
            } else {
                return None;
            }
        }
        Some(low)
    }

    /// Takes note of a packet. Answers where it belongs; `None` if it is to be dropped.
    fn accept(&mut self, meta: &RtpMeta) -> (r: Option<usize>)
        requires
            old(self)@.wf(),
        ensures
            r is Some <==> old(self)@.takes(meta.seq_no),
            final(self)@.queue == old(self)@.queue,
            r is None ==> forall|data: Vec<u8>, head: bool, tail: bool|
                final(self)@ == #[trigger] old(self)@.pushed(*meta, data, head, tail),
            r matches Some(i) ==> {
                &&& is_slot(old(self)@.queue, meta.seq_no, i as int)
                &&& forall|data: Vec<u8>, head: bool, tail: bool|
                    (BufferState {
                        queue: old(self)@.queue.insert(
                            i as int,
                            Entry { meta: *meta, data, head, tail },
                        ),
                        ..final(self)@
                    }) == #[trigger] old(self)@.pushed(*meta, data, head, tail)
            },
    {
        // Samples are not emitted in the wrong order: what comes before the last emitted packet is
        // dropped. As a special case, a buffer that does not hold back does emit out of order.
        if let Some((last, _)) = self.last_emitted {
            if meta.seq_no.0 <= last.0 && self.hold_back > 0 {
                return None;
            }
        }
        self.max_time = Some(
            match self.max_time {
                Some(m) => m.max(meta.time),
                None => meta.time,
            },
        );
        let found = self.find_slot(meta.seq_no);
        proof {
            if let Some(i) = found {
                lemma_slot(self@.queue, meta.seq_no, i as int);
            }
        }
        found
    }

    /// Puts an accepted packet in its place.
    fn place(&mut self, i: usize, meta: RtpMeta, data: Vec<u8>, head: bool, tail: bool)
        requires
            i <= old(self)@.queue.len(),
        ensures
            final(self)@ == (BufferState {
                queue: old(self)@.queue.insert(i as int, Entry { meta, data, head, tail }),
                ..old(self)@
            }),
            final(self)@.queue.len() <= usize::MAX,
    {
        self.queue.insert(i, Entry { meta, data, head, tail });
        assert(self.queue.len() == self.queue@.len());
    }

    /// Takes in a packet that is already known to begin a frame or not, and to end one or not.
    pub fn push_classified(&mut self, meta: RtpMeta, data: Vec<u8>, head: bool, tail: bool)
        requires
            old(self)@.wf(),
        ensures
            final(self)@.wf(),
            final(self)@ == old(self)@.pushed(meta, data, head, tail),
    {
        if let Some(i) = self.accept(&meta) {
            self.place(i, meta, data, head, tail);
        }
        proof {
            lemma_push_keeps_order(old(self)@, meta, data, head, tail);
        }
    }

    /// Takes in a packet. One that comes too late or that the queue already holds is dropped.
    pub fn push(&mut self, meta: RtpMeta, data: Vec<u8>)
        requires
            old(self)@.wf(),
        ensures
            final(self)@.wf(),
            old(self)@.may_push(meta, data, final(self)@),
    {
        match self.accept(&meta) {
            Some(i) => {
                let ghost payload = data;
                let head = self.depack.is_partition_head(data.as_slice());
                let tail = self.depack.is_partition_tail(meta.header.marker, data.as_slice());
                self.place(i, meta, data, head, tail);
                proof {
                    lemma_push_keeps_order(old(self)@, meta, payload, head, tail);
                    assert(self@ == old(self)@.pushed(meta, payload, head, tail));
                }
            },
            None => {
                proof {
                    lemma_push_keeps_order(old(self)@, meta, data, false, false);
                    assert(self@ == old(self)@.pushed(meta, data, false, false));
                }
            },
        }
    }

    /// Finds the frames in the queue.
    fn update_segments(&mut self)
        ensures
            final(self)@ == old(self)@,
            final(self).segments@ == segments(old(self)@.queue),
            is_segment_list(old(self)@.queue, final(self).segments@),
    {
        crate::packet::segments::update_segments(&self.queue, &mut self.segments);
    }

    /// Whether the frame that begins at the entry `start` directly follows the one emitted last.
    fn is_following_last(&self, start: usize) -> (r: bool)
        requires
            self@.last_emitted is Some ==> start < self@.queue.len(),
        ensures
            r == self@.follows_last(start as int),
    {
        let Some((last, _)) = self.last_emitted else {
            // First time something is emitted.
            return true;
        };
        let mut seq = last;
        let mut i: usize = 0;
        // All entries before start are expected to be padding.
        while i < start
            invariant
                i <= start < self.queue@.len(),
                seq.0 == last.0 + i,
                forall|k: int| 0 <= k < i ==> (#[trigger] self.queue@[k]).seq() == last.0 + 1 + k,
                forall|k: int| 0 <= k < i ==> (#[trigger] self.queue@[k]).is_padding(),
                self.last_emitted matches Some((l, _)) && l == last,
            decreases start - i,
        {
            let entry = &self.queue[i];
            assert(self@.queue[i as int] == entry);
            if !seq.is_next(entry.meta.seq_no) {
                return false;
            }
            seq = entry.meta.seq_no;
            let is_padding = entry.data.len() == 0 && !entry.head && !entry.tail;
            if !is_padding {
                return false;
            }
            i += 1;
        }
        seq.is_next(self.queue[start].meta.seq_no)
    }

    /// Depacketizes the entries `start..=stop`, unless that has been done ahead of time.
    fn depacketize(&mut self, start: usize, stop: usize) -> (r: Result<Depacketized, PacketError>)
        requires
            start <= stop < old(self)@.queue.len() <= usize::MAX,
        ensures
            final(self)@ == (BufferState {
                depack: final(self)@.depack,
                cache: None,
                ..old(self)@
            }),
            final(self).segments == old(self).segments,
            old(self)@.may_fetch_run(start as int, stop as int, final(self)@.depack, r),
    {
        let seq = self.queue[stop].meta.seq_no;
        if let Some((cached, dep)) = self.depack_cache.take() {
            if cached.0 == seq.0 {
                return Ok(dep);
            }
        }
        let mut data: Vec<u8> = Vec::new();
        let mut codec_extra = CodecExtra::Nothing;
        let time = self.queue[start].meta.time;
        let end: usize = stop + 1;
        let mut meta: Vec<RtpMeta> = Vec::with_capacity(end - start);
        let ghost run = self.queue@.subrange(start as int, end as int);
        let ghost pre = self.depack;
        let ghost mut trace = seq![Unpacking::begin(pre)];
        let mut i: usize = start;
        while i < end
            invariant
                start <= i <= end == stop + 1,
                end <= self.queue@.len(),
                self.queue@ == old(self).queue@,
                self.hold_back == old(self).hold_back,
                self.segments == old(self).segments,
                self.last_emitted == old(self).last_emitted,
                self.max_time == old(self).max_time,
                self.depack_cache is None,
                self.vp8_contiguity == old(self).vp8_contiguity,
                pre == old(self).depack,
                run == self.queue@.subrange(start as int, end as int),
                !old(self)@.is_cached(stop as int),
                is_trace(trace, run.take(i - start)),
                trace[0].depack == pre,
                trace.last() == (Unpacking { depack: self.depack, out: data@, extra: codec_extra }),
                meta@ == run.take(i - start).map_values(|e: Entry| e.meta),
            decreases end - i,
        {
            let ghost n = i - start;
            let ghost here = trace.last();
            assert(run[n] == self.queue@[i as int]);
            let r = self.depack.depacketize(
                self.queue[i].data.as_slice(),
                &mut data,
                &mut codec_extra,
            );
            let ghost next = Unpacking { depack: self.depack, out: data@, extra: codec_extra };
            assert(here.may_step(run[n].data@, next, r));
            if let Err(e) = r {
                proof {
                    assert(may_unpack(pre, run, self.depack, Err::<Depacketized, PacketError>(e)));
                }
                return Err(e);
            }
            meta.push(self.queue[i].meta);
            proof {
                let grown = trace.push(next);
                let taken = run.take(n + 1);
                assert forall|k: int| 0 <= k < taken.len() implies (#[trigger] grown[k]).may_step(
                    taken[k].data@,
                    grown[k + 1],
                    Ok::<(), PacketError>(()),
                ) by {
                    assert(grown[k] == trace[k]);
                    if k < n {
                        assert(run.take(n)[k] == taken[k]);
                        assert(grown[k + 1] == trace[k + 1]);
                    } else {
                        assert(grown[k] == here && grown[k + 1] == next);
                        assert(r is Ok && r->Ok_0 == ());
                    }
                }
                assert(taken.map_values(|e: Entry| e.meta) =~= run.take(n).map_values(
                    |e: Entry| e.meta,
                ).push(run[n].meta));
                trace = grown;
            }
            i += 1;
        }
        let dep = Depacketized {
            time,
            contiguous: true,  // settled once it is known what the frame follows
            meta,
            data,
            codec_extra,
        };
        proof {
            assert(run.take(i - start) =~= run);
            assert(is_made_of(dep, run, trace.last()));
        }
        Ok(dep)
    }

    /// Drops the first `n` entries.
    fn drain(&mut self, n: usize)
        requires
            n <= old(self)@.queue.len(),
        ensures
            final(self)@ == (BufferState {
                queue: old(self)@.queue.skip(n as int),
                ..old(self)@
            }),
    {
        let rest = self.queue.split_off(n);
        self.queue = rest;
        assert(self@.queue =~= old(self)@.queue.skip(n as int));
    }

    /// Gives out the first frame, which ends at the entry `stop`, or drops it, as the verdict says:
    /// whether it may be emitted, and whether it is contiguous.
    pub fn release(&mut self, stop: usize, dep: Depacketized, verdict: (bool, bool)) -> (r: Option<
        Result<Depacketized, PacketError>,
    >)
        requires
            old(self)@.wf(),
            old(self)@.cache is None,
            segments(old(self)@.queue).len() > 0,
            segments(old(self)@.queue)[0].1 == stop,
        ensures
            final(self)@.wf(),
            (final(self)@, r) == old(self)@.released(dep, verdict),
    {
        let mut dep = dep;
        proof {
            lemma_first_segment(self@);
        }
        dep.contiguous = verdict.1;
        let last = self.queue[stop].meta.seq_no;
        // Samples are not emitted in the wrong order, so there is no point in keeping what lies
        // before the emitted range.
        self.drain(stop + 1);
        if !verdict.0 {
            return None;
        }
        self.last_emitted = Some((last, dep.codec_extra));
        Some(Ok(dep))
    }

    /// Decides on the first frame, the entries `start..=stop` of a queue that holds `count` frames,
    /// once it has been depacketized with the result `dep`: drops it if that failed, keeps it back
    /// if packets before it are missing, and gives it out otherwise.
    pub fn settle(
        &mut self,
        start: usize,
        stop: usize,
        count: usize,
        dep: Result<Depacketized, PacketError>,
    ) -> (r: Option<Result<Depacketized, PacketError>>)
        requires
            old(self)@.wf(),
            old(self)@.cache is None,
            segments(old(self)@.queue).len() == count > 0,
            segments(old(self)@.queue)[0] == (start, stop),
            fits(old(self)@, dep),
        ensures
            final(self)@.wf(),
            old(self)@.may_settle(dep, final(self)@, r),
    {
        proof {
            lemma_first_segment(self@);
        }
        let seq = self.queue[stop].meta.seq_no;
        let dep = match dep {
            Ok(d) => d,
            Err(e) => {
                // The frame cannot be decoded.
                self.last_emitted = Some((seq, CodecExtra::Nothing));
                self.drain(stop + 1);
                return Some(Err(e));
            },
        };

        // A frame that follows the last one is emitted right away. Others wait for
        // retransmissions, until enough frames are held back.
        let contiguous_seq = self.is_following_last(start);
        if !contiguous_seq && count < self.hold_back {
            self.depack_cache = Some((seq, dep));
            return None;
        }
        let ghost before = self@;
        let verdict = match dep.codec_extra {
            CodecExtra::Vp8(next) => self.vp8_contiguity.check(&next, contiguous_seq),
            CodecExtra::Vp9(_) => (true, contiguous_seq),
            CodecExtra::Nothing => (true, contiguous_seq),
        };
        assert(before.may_judge(dep.codec_extra, self@.vp8, verdict));
        self.release(stop, dep, verdict)
    }

    /// Gives out the first frame, or the error that kept it from being depacketized. `None` if
    /// there is no frame, if it waits for packets before it, or if it was dropped.
    pub fn pop(&mut self) -> (r: Option<Result<Depacketized, PacketError>>)
        requires
            old(self)@.wf(),
        ensures
            final(self)@.wf(),
            old(self)@.may_pop(final(self)@, r),
    {
        self.update_segments();
        if self.segments.len() == 0 {
            return None;
        }
        let (start, stop) = self.segments[0];
        let count: usize = self.segments.len();
        proof {
            lemma_first_segment(self@);
        }
        // Depacketize ahead, even if the frame may not be emitted right away.
        let dep = self.depacketize(start, stop);
        proof {
            lemma_fetch_fits(old(self)@, self@.depack, dep);
        }
        let r = self.settle(start, stop, count, dep);
        assert(old(self)@.may_fetch(self@.depack, dep));
        r
    }

    /// The latest media time seen.
    pub fn max_time(&self) -> (r: Option<MediaTime>)
        ensures
            r == self@.max_time,
    {
        self.max_time
    }
}

/// The first frame lies within the queue.
pub(crate) proof fn lemma_first_segment<D: Depacketizer, C: Vp8Contiguity>(b: BufferState<D, C>)
    requires
        b.queue.len() <= usize::MAX,
        segments(b.queue).len() > 0,
    ensures
        is_segment(
            b.queue,
            segments(b.queue)[0].0 as int,
            segments(b.queue)[0].1 as int,
        ),
        segments(b.queue)[0].0 <= segments(b.queue)[0].1 < b.queue.len(),
{
    lemma_segments(b.queue);
}

/// Whether `dep` is a frame made of queued packets that ends where the first frame of the buffer
/// does, or an error.
pub open spec fn fits<D: Depacketizer, C: Vp8Contiguity>(
    b: BufferState<D, C>,
    dep: Result<Depacketized, PacketError>,
) -> bool {
    dep matches Ok(d) ==> {
        &&& is_frame(d)
        &&& d.meta@.last().seq_no == b.first_stop()
        &&& !b.is_late(d.meta@[0].seq_no)
        &&& d.contiguous
        &&& is_built_from::<D>(d, b.queue)
    }
}

/// The packets of a segment are a run of the queue.
proof fn lemma_segment_is_run(q: Seq<Entry>, start: int, stop: int)
    requires
        is_segment(q, start, stop),
    ensures
        is_run_of(q.subrange(start, stop + 1), q),
{
    let run = q.subrange(start, stop + 1);
    assert forall|k: int| 0 <= k < run.len() implies q.contains(#[trigger] run[k]) by {
        assert(run[k] == q[start + k]);
    }
    assert forall|k: int| 0 <= k < run.len() - 1 implies !(#[trigger] run[k]).tail by {
        assert(run[k] == q[start + k]);
    }
}

/// What unpacking a segment can give is a frame made of its packets.
proof fn lemma_unpacked_is_frame<D: Depacketizer>(
    q: Seq<Entry>,
    start: int,
    stop: int,
    pre: D,
    post: D,
    d: Depacketized,
)
    requires
        is_segment(q, start, stop),
        may_unpack(pre, q.subrange(start, stop + 1), post, Ok::<Depacketized, PacketError>(d)),
    ensures
        is_frame(d),
        d.contiguous,
        d.meta@[0] == q[start].meta,
        d.meta@.last() == q[stop].meta,
        is_built_from::<D>(d, q),
{
    let run = q.subrange(start, stop + 1);
    lemma_segment_is_run(q, start, stop);
    assert(d.meta@ == run.map_values(|e: Entry| e.meta) && d.contiguous && d.time
        == run[0].meta.time);
    assert forall|k: int| 0 <= k < d.meta@.len() implies #[trigger] d.meta@[k] == q[start
        + k].meta by {}
    assert(Depacketized { contiguous: true, ..d } == d);
}

/// What depacketizing the first frame can give fits in its place.
pub(crate) proof fn lemma_fetch_fits<D: Depacketizer, C: Vp8Contiguity>(
    b: BufferState<D, C>,
    post: D,
    dep: Result<Depacketized, PacketError>,
)
    requires
        b.wf(),
        segments(b.queue).len() > 0,
        b.may_fetch(post, dep),
    ensures
        fits(b, dep),
{
    lemma_first_segment(b);
    let (start, stop) = segments(b.queue)[0];
    if let Ok(d) = dep {
        if !b.is_cached(stop as int) {
            lemma_unpacked_is_frame(b.queue, start as int, stop as int, b.depack, post, d);
        }
    }
}

/// Deciding on the first frame keeps the buffer in order.
pub(crate) proof fn lemma_settle_keeps_order<D: Depacketizer, C: Vp8Contiguity>(
    b: BufferState<D, C>,
    dep: Result<Depacketized, PacketError>,
    post: BufferState<D, C>,
    r: Option<Result<Depacketized, PacketError>>,
)
    requires
        b.wf(),
        b.cache is None,
        segments(b.queue).len() > 0,
        fits(b, dep),
        b.may_settle(dep, post, r),
    ensures
        post.wf(),
        r matches Some(Ok(d)) ==> {
            &&& is_frame(d)
            &&& !b.is_late(d.meta@[0].seq_no)
            &&& is_built_from::<D>(d, b.queue)
            &&& post.last_emitted == Some((d.meta@.last().seq_no, d.codec_extra))
        },
        r is Some ==> post.queue.len() < b.queue.len(),
{
    lemma_first_segment(b);
    let rest = b.without_first().queue;
    let stop = segments(b.queue)[0].1 as int;
    assert forall|k: int| 0 <= k < rest.len() implies #[trigger] rest[k] == b.queue[stop + 1 + k]
        && b.queue[stop].seq() < rest[k].seq() by {}
}

/// A frame made of queued packets still is one after more packets came in.
proof fn lemma_still_built<D: Depacketizer>(d: Depacketized, q: Seq<Entry>, grown: Seq<Entry>)
    requires
        is_built_from::<D>(d, q),
        forall|e: Entry| q.contains(e) ==> #[trigger] grown.contains(e),
    ensures
        is_built_from::<D>(d, grown),
{
    let (pre, run, post) = choose|pre: D, run: Seq<Entry>, post: D|
        is_run_of(run, q) && #[trigger] may_unpack(
            pre,
            run,
            post,
            Ok::<Depacketized, PacketError>(Depacketized { contiguous: true, ..d }),
        );
    assert(is_run_of(run, grown));
    assert(may_unpack(
        pre,
        run,
        post,
        Ok::<Depacketized, PacketError>(Depacketized { contiguous: true, ..d }),
    ));
}

/// Taking in a packet keeps the buffer in order.
pub(crate) proof fn lemma_push_keeps_order<D: Depacketizer, C: Vp8Contiguity>(
    b: BufferState<D, C>,
    meta: RtpMeta,
    data: Vec<u8>,
    head: bool,
    tail: bool,
)
    requires
        b.wf(),
        b.pushed(meta, data, head, tail).queue.len() <= usize::MAX,
    ensures
        b.pushed(meta, data, head, tail).wf(),
{
    if !b.is_late(meta.seq_no) && !holds(b.queue, meta.seq_no) {
        lemma_slot_exists(b.queue, meta.seq_no);
        let i = slot(b.queue, meta.seq_no);
        let q = b.pushed(meta, data, head, tail).queue;
        assert forall|k: int| 0 <= k < q.len() implies #[trigger] q[k] == (if k < i {
            b.queue[k]
        } else if k == i {
            (Entry { meta, data, head, tail })
        } else {
            b.queue[k - 1]
        }) by {}
        if let Some((_, d)) = b.cache {
            assert forall|e: Entry| b.queue.contains(e) implies #[trigger] q.contains(e) by {
                let j = choose|j: int| 0 <= j < b.queue.len() && b.queue[j] == e;
                let moved = if j < i {
                    j
                } else {
                    j + 1
                };
                assert(q[moved] == e);
            }
            lemma_still_built::<D>(d, b.queue, q);
        }
    }
}

} // verus!
