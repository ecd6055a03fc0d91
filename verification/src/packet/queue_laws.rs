//! What goes into the queue of a receive buffer, and what comes out of it, told by the packets alone.

use vstd::prelude::*;

use crate::header::SeqNo;
use crate::packet::buffer_rx::{
    holds, is_made_of, is_trace, lemma_first_segment, lemma_slot_exists, may_unpack, slot, BufferState,
    Unpacking,
};
use crate::packet::codec::{
    CodecExtra, Depacketizer, PacketError, Vp8CodecExtra, Vp8Contiguity,
};
use crate::packet::meta::{Depacketized, RtpMeta};
use crate::packet::segments::{
    is_segment, joined, lemma_segments, no_tail, opens, reaches, segments, Entry,
};
use crate::time::lemma_same_is_equivalence;

verus! {

/// Whether the packets `s..=e` of the queue begin with a head, have consecutive sequence numbers and
/// one media time, and have no tail before the last one.
pub open spec fn is_unbroken(q: Seq<Entry>, s: int, e: int) -> bool {
    &&& 0 <= s <= e < q.len()
    &&& q[s].head
    &&& forall|k: int|
        s <= k <= e ==> (#[trigger] q[k]).meta.seq_no.0 - q[s].meta.seq_no.0 == k - s
            && q[k].meta.time.same(q[s].meta.time)
    &&& forall|k: int| s <= k < e ==> !(#[trigger] q[k]).tail
}

/// Whether the packets `s..=e` of the queue are a frame that has come in whole: unbroken, and ended
/// by a tail, or by a next packet that has another media time.
pub open spec fn is_whole(q: Seq<Entry>, s: int, e: int) -> bool {
    &&& is_unbroken(q, s, e)
    &&& q[e].tail || (e + 1 < q.len() && q[e + 1].meta.seq_no.0 == q[e].meta.seq_no.0 + 1
        && !q[e + 1].meta.time.same(q[e].meta.time))
}

/// An unbroken run is joined.
proof fn lemma_unbroken(q: Seq<Entry>, s: int, e: int)
    requires
        is_unbroken(q, s, e),
    ensures
        joined(q, s, e),
        no_tail(q, s, e),
{
    assert forall|k: int| s <= k <= e implies (#[trigger] q[k]).seq() == q[s].seq() + (k - s)
        && q[s].meta.time.same(q[k].meta.time) by {
        lemma_same_is_equivalence(q[k].meta.time, q[s].meta.time, q[k].meta.time);
    }
}

/// A segment is whole.
proof fn lemma_segment_is_whole(q: Seq<Entry>, s: int, e: int)
    requires
        is_segment(q, s, e),
    ensures
        is_whole(q, s, e),
{
    assert forall|k: int| s <= k <= e implies (#[trigger] q[k]).meta.seq_no.0
        - q[s].meta.seq_no.0 == k - s && q[k].meta.time.same(q[s].meta.time) by {
        assert(q[k].seq() == q[s].seq() + (k - s));
        lemma_same_is_equivalence(q[s].meta.time, q[k].meta.time, q[s].meta.time);
    }
    if e + 1 < q.len() {
        let (a, b, c) = (q[s].meta.time, q[e].meta.time, q[e + 1].meta.time);
        assert(q[e].seq() == q[s].seq() + (e - s) && a.same(b));
        lemma_same_is_equivalence(c, b, c);
        lemma_same_is_equivalence(a, b, c);
        assert(q[e + 1].seq() == q[e + 1].meta.seq_no.0);
    }
}

/// Every frame that the buffer finds has come in whole, and begins with the first head that it can
/// begin with.
pub proof fn law_found_frames_are_whole(q: Seq<Entry>, i: int)
    requires
        q.len() <= usize::MAX,
        0 <= i < segments(q).len(),
    ensures
        is_whole(q, segments(q)[i].0 as int, segments(q)[i].1 as int),
        forall|t: int|
            0 <= t < segments(q)[i].0 ==> !#[trigger] is_unbroken(
                q,
                t,
                segments(q)[i].1 as int,
            ),
{
    lemma_segments(q);
    let (s, e) = (segments(q)[i].0 as int, segments(q)[i].1 as int);
    assert(is_segment(q, s, e));
    lemma_segment_is_whole(q, s, e);
    assert forall|t: int| 0 <= t < s implies !#[trigger] is_unbroken(q, t, e) by {
        if is_unbroken(q, t, e) {
            lemma_unbroken(q, t, e);
            assert(reaches(q, t, s));
        }
    }
}

/// The frames that the buffer finds stand in the order of the queue, and no two share a packet.
pub proof fn law_found_frames_stand_apart(q: Seq<Entry>, i: int, j: int)
    requires
        q.len() <= usize::MAX,
        0 <= i < j < segments(q).len(),
    ensures
        segments(q)[i].0 <= segments(q)[i].1 < segments(q)[j].0 <= segments(q)[j].1 < q.len(),
{
    lemma_segments(q);
    assert(is_segment(q, segments(q)[i].0 as int, segments(q)[i].1 as int));
    assert(is_segment(q, segments(q)[j].0 as int, segments(q)[j].1 as int));
}

/// A frame that has come in whole is found, from its first head on.
pub proof fn law_whole_frames_are_found(q: Seq<Entry>, s: int, e: int)
    requires
        q.len() <= usize::MAX,
        is_whole(q, s, e),
    ensures
        exists|i: int|
            0 <= i < segments(q).len() && (#[trigger] segments(q)[i]).0 <= s && segments(q)[i].1 == e,
    decreases s,
{
    lemma_segments(q);
    lemma_unbroken(q, s, e);
    if opens(q, s) {
        if !q[e].tail {
            let (a, b, c) = (q[s].meta.time, q[e].meta.time, q[e + 1].meta.time);
            assert(q[e].seq() == q[s].seq() + (e - s) && a.same(b));
            lemma_same_is_equivalence(a, b, c);
            lemma_same_is_equivalence(b, a, c);
            lemma_same_is_equivalence(b, c, b);
            assert(q[e + 1].seq() == q[s].seq() + (e + 1 - s));
        }
        assert(is_segment(q, s, e));
        assert(segments(q).contains((s as usize, e as usize)));
        let i = choose|i: int|
            0 <= i < segments(q).len() && segments(q)[i] == (s as usize, e as usize);
        assert(segments(q)[i].0 <= s);
    } else {
        let t = choose|t: int| reaches(q, t, s);
        assert forall|k: int| t <= k <= e implies (#[trigger] q[k]).meta.seq_no.0
            - q[t].meta.seq_no.0 == k - t && q[k].meta.time.same(q[t].meta.time) by {
            assert(q[s].seq() == q[t].seq() + (s - t) && q[t].meta.time.same(q[s].meta.time));
            if k <= s {
                assert(q[k].seq() == q[t].seq() + (k - t));
                lemma_same_is_equivalence(q[t].meta.time, q[k].meta.time, q[t].meta.time);
            } else {
                assert(q[k].seq() == q[s].seq() + (k - s));
                lemma_same_is_equivalence(q[t].meta.time, q[s].meta.time, q[k].meta.time);
                lemma_same_is_equivalence(q[t].meta.time, q[k].meta.time, q[t].meta.time);
            }
        }
        assert(is_whole(q, t, e));
        law_whole_frames_are_found(q, t, e);
    }
}

/// Whether a packet is missing before the entry `s`, or has not been part of a frame: the packets up
/// to `s` are not just what follows the last packet given out, with nothing but padding before `s`.
pub open spec fn is_missing_some<D: Depacketizer, C: Vp8Contiguity>(
    b: BufferState<D, C>,
    s: int,
) -> bool {
    b.last_emitted matches Some((last, _)) && exists|k: int|
        0 <= k <= s && ((#[trigger] b.queue[k]).meta.seq_no.0 - k != last.0 + 1 || (k < s && (
        b.queue[k].data@.len() > 0 || b.queue[k].head || b.queue[k].tail)))
}

/// Whether the judge of VP8 frames can refuse a frame, which follows the last one or not.
pub open spec fn may_refuse<C: Vp8Contiguity>(pre: C, follows: bool, post: C) -> bool {
    exists|next: Vp8CodecExtra, says: bool| #[trigger]
        C::may_check(pre, next, follows, post, (false, says))
}

/// Being asked for a frame, a buffer that holds none does nothing. Otherwise it decides on the first
/// one, the packets `s..=e`. While a packet is missing before it, it stays until as many frames have
/// come in whole as are held back. Then, or if nothing is missing, or if it cannot be unpacked, it
/// leaves the queue with all before it. It comes out with the packets `s..=e`, or as it was unpacked
/// earlier, and says whether nothing was missing; only what the judge of VP8 frames refuses does not
/// come out.
pub proof fn law_pop_decides_on_the_first_frame<D: Depacketizer, C: Vp8Contiguity>(
    b: BufferState<D, C>,
    post: BufferState<D, C>,
    r: Option<Result<Depacketized, PacketError>>,
)
    requires
        b.wf(),
        b.may_pop(post, r),
    ensures
        post.hold_back == b.hold_back,
        post.max_time == b.max_time,
        segments(b.queue).len() == 0 ==> r is None && post == b,
        segments(b.queue).len() > 0 ==> ({
            let (s, e) = segments(b.queue)[0];
            let number = b.queue[e as int].meta.seq_no;
            let missing = is_missing_some(b, s as int);
            let follows = !missing;
            let stays = missing && segments(b.queue).len() < b.hold_back;
            &&& r is None && stays ==> {
                &&& post.queue == b.queue
                &&& post.last_emitted == b.last_emitted
                &&& post.vp8 == b.vp8
                &&& post.cache matches Some((n, d)) && n == number
            }
            &&& r matches Some(Ok(_)) ==> !stays
            &&& r is Some || !stays ==> post.queue == b.queue.skip(e + 1) && post.cache is None
            &&& r matches Some(Err(_)) ==> post.last_emitted == Some((number, CodecExtra::Nothing))
                && post.vp8 == b.vp8
            &&& r matches Some(Ok(d)) ==> {
                &&& post.last_emitted == Some((number, d.codec_extra))
                &&& match d.codec_extra {
                    CodecExtra::Vp8(next) => C::may_check(
                        b.vp8,
                        next,
                        follows,
                        post.vp8,
                        (true, d.contiguous),
                    ),
                    _ => post.vp8 == b.vp8 && d.contiguous == follows,
                }
            }
            &&& r is None && !stays ==> post.last_emitted == b.last_emitted && may_refuse(
                b.vp8,
                follows,
                post.vp8,
            )
        }),
{
    if segments(b.queue).len() > 0 {
        lemma_first_segment(b);
        let (s, e) = segments(b.queue)[0];
        lemma_missing(b, s as int);
        let dep = choose|dep: Result<Depacketized, PacketError>| #[trigger]
            b.may_fetch(post.depack, dep) && (BufferState {
                depack: post.depack,
                cache: None,
                ..b
            }).may_settle(dep, post, r);
        let from = BufferState { depack: post.depack, cache: None, ..b };
        assert(from.follows_last(s as int) == b.follows_last(s as int));
        if let Ok(d) = dep {
            if !from.waits() {
                let verdict = choose|verdict: (bool, bool)| #[trigger]
                    from.may_judge(d.codec_extra, post.vp8, verdict) && (post, r)
                        == (BufferState { vp8: post.vp8, ..from }).released(d, verdict);
                if let CodecExtra::Vp8(next) = d.codec_extra {
                    assert(C::may_check(
                        b.vp8,
                        next,
                        b.follows_last(s as int),
                        post.vp8,
                        (verdict.0, verdict.1),
                    ));
                }
            }
        }
    }
}

/// What is missing before a frame is what keeps it from following the last one.
proof fn lemma_missing<D: Depacketizer, C: Vp8Contiguity>(b: BufferState<D, C>, s: int)
    requires
        0 <= s < b.queue.len(),
    ensures
        is_missing_some(b, s) == !b.follows_last(s),
{
    if let Some((last, _)) = b.last_emitted {
        if !is_missing_some(b, s) {
            assert forall|k: int| 0 <= k <= s implies (#[trigger] b.queue[k]).seq() == last.0 + 1
                + k by {
                assert(b.queue[k].meta.seq_no.0 - k == last.0 + 1);
            }
            assert forall|k: int| 0 <= k < s implies (#[trigger] b.queue[k]).is_padding() by {
                assert(b.queue[k].meta.seq_no.0 - k == last.0 + 1);
            }
        } else {
            let k = choose|k: int|
                0 <= k <= s && ((#[trigger] b.queue[k]).meta.seq_no.0 - k != last.0 + 1 || (k < s
                    && (b.queue[k].data@.len() > 0 || b.queue[k].head || b.queue[k].tail)));
            assert(b.queue[k].seq() != last.0 + 1 + k || !b.queue[k].is_padding());
        }
    }
}

/// A frame is waited for: while the packet that follows the last one given out is missing, and
/// nothing stands in the queue before the frame, no frame comes out and none is lost, as long as
/// fewer frames have come in whole than are held back.
pub proof fn law_missing_packets_are_waited_for<D: Depacketizer, C: Vp8Contiguity>(
    b: BufferState<D, C>,
    post: BufferState<D, C>,
    r: Option<Result<Depacketized, PacketError>>,
    last: SeqNo,
)
    requires
        b.wf(),
        b.may_pop(post, r),
        b.last_emitted matches Some((l, _)) && l == last,
        segments(b.queue).len() > 0,
        segments(b.queue)[0].0 == 0,
        b.queue[0].meta.seq_no.0 > last.0 + 1,
        segments(b.queue).len() < b.hold_back,
        !(r matches Some(Err(_))),
    ensures
        r is None,
        post.queue == b.queue,
        post.last_emitted == b.last_emitted,
{
    law_pop_decides_on_the_first_frame(b, post, r);
    assert(b.queue[0].meta.seq_no.0 - 0 != last.0 + 1);
    assert(is_missing_some(b, 0));
}

/// A frame that was not unpacked earlier comes out with the packets of the first frame, all of them
/// and in their order. One that was comes out as it was then, without being unpacked again.
pub proof fn law_pop_gives_the_packets_of_the_first_frame<D: Depacketizer, C: Vp8Contiguity>(
    b: BufferState<D, C>,
    post: BufferState<D, C>,
    r: Option<Result<Depacketized, PacketError>>,
)
    requires
        b.wf(),
        b.may_pop(post, r),
        segments(b.queue).len() > 0,
    ensures
        ({
            let (s, e) = segments(b.queue)[0];
            let number = b.queue[e as int].meta.seq_no;
            let kept = match b.cache {
                Some((n, d)) => if n == number {
                    Some(d)
                } else {
                    None
                },
                None => None,
            };
            &&& kept matches Some(d) ==> {
                &&& post.depack == b.depack
                &&& !(r matches Some(Err(_)))
                &&& r matches Some(Ok(out)) ==> out == Depacketized { contiguous: out.contiguous, ..d }
                &&& post.cache matches Some((_, out)) ==> out == d
            }
            &&& kept is None ==> (r matches Some(Ok(d)) ==> has_packets(
                d,
                b.queue,
                s as int,
                e as int,
            ) && may_unpack(
                b.depack,
                b.queue.subrange(s as int, e + 1),
                post.depack,
                Ok::<Depacketized, PacketError>(Depacketized { contiguous: true, ..d }),
            ))
            &&& kept is None ==> (post.cache matches Some((_, d)) ==> has_packets(
                d,
                b.queue,
                s as int,
                e as int,
            ) && may_unpack(
                b.depack,
                b.queue.subrange(s as int, e + 1),
                post.depack,
                Ok::<Depacketized, PacketError>(d),
            ))
            &&& r matches Some(Err(x)) ==> may_unpack(
                b.depack,
                b.queue.subrange(s as int, e + 1),
                post.depack,
                Err::<Depacketized, PacketError>(x),
            )
        }),
{
    lemma_first_segment(b);
    let (s, e) = segments(b.queue)[0];
    let dep = choose|dep: Result<Depacketized, PacketError>| #[trigger]
        b.may_fetch(post.depack, dep) && (BufferState {
            depack: post.depack,
            cache: None,
            ..b
        }).may_settle(dep, post, r);
    let run = b.queue.subrange(s as int, e + 1);
    if let Ok(d) = dep {
        if !b.is_cached(e as int) {
            assert(d.meta@ == run.map_values(|x: Entry| x.meta));
            assert forall|k: int| 0 <= k < d.meta@.len() implies #[trigger] d.meta@[k]
                == b.queue[s + k].meta by {}
            assert(Depacketized { contiguous: true, ..d } == d);
            if let Some(Ok(out)) = r {
                assert(Depacketized { contiguous: true, ..out } == d);
            }
        }
    }
}

/// Whether the frame has the packets `s..=e` of the queue, and the media time of the first of them.
pub open spec fn has_packets(d: Depacketized, q: Seq<Entry>, s: int, e: int) -> bool {
    &&& d.meta@.len() == e - s + 1
    &&& forall|k: int| 0 <= k < d.meta@.len() ==> #[trigger] d.meta@[k] == q[s + k].meta
    &&& d.time == q[s].meta.time
}

/// A packet is left out if it comes at or before the last one given out, and the buffer holds back.
/// Of any other one the buffer takes note of the media time. It joins the queue, unless one with its
/// sequence number is there; the queue keeps all it holds, in the order of the sequence numbers.
pub proof fn law_push_takes_in_new_packets<D: Depacketizer, C: Vp8Contiguity>(
    b: BufferState<D, C>,
    meta: RtpMeta,
    data: Vec<u8>,
    post: BufferState<D, C>,
)
    requires
        b.wf(),
        b.may_push(meta, data, post),
    ensures
        ({
            let late = b.hold_back > 0 && (b.last_emitted matches Some((last, _)) && meta.seq_no.0
                <= last.0);
            let there = exists|i: int|
                0 <= i < b.queue.len() && (#[trigger] b.queue[i]).meta.seq_no.0 == meta.seq_no.0;
            &&& late ==> post == b
            &&& there ==> post.queue == b.queue
            &&& !late && !there ==> {
                &&& post.queue.len() == b.queue.len() + 1
                &&& forall|e: Entry| #[trigger]
                    b.queue.contains(e) ==> post.queue.contains(e)
                &&& exists|e: Entry| #[trigger]
                    post.queue.contains(e) && e.meta == meta && e.data == data
                        && b.depack.may_head(data@, e.head) && b.depack.may_tail(
                        meta.header.marker,
                        data@,
                        e.tail,
                    )
            }
        }),
        forall|i: int, j: int|
            0 <= i < j < post.queue.len() ==> (#[trigger] post.queue[i]).meta.seq_no.0 < (
            #[trigger] post.queue[j]).meta.seq_no.0,
        post.hold_back == b.hold_back,
        post.depack == b.depack,
        post.last_emitted == b.last_emitted,
        post.cache == b.cache,
        post.vp8 == b.vp8,
{
    let (head, tail) = choose|head: bool, tail: bool|
        post == #[trigger] b.pushed(meta, data, head, tail) && (b.takes(meta.seq_no)
            ==> b.depack.may_head(data@, head) && b.depack.may_tail(
            meta.header.marker,
            data@,
            tail,
        ));
    let new = Entry { meta, data, head, tail };
    assert forall|i: int| 0 <= i < b.queue.len() && (#[trigger] b.queue[i]).meta.seq_no.0
        == meta.seq_no.0 implies holds(b.queue, meta.seq_no) by {
        assert(b.queue[i].meta.seq_no == meta.seq_no);
    }
    if b.takes(meta.seq_no) {
        lemma_slot_exists(b.queue, meta.seq_no);
        let i = slot(b.queue, meta.seq_no);
        let q = post.queue;
        assert forall|k: int| 0 <= k < q.len() implies #[trigger] q[k] == (if k < i {
            b.queue[k]
        } else if k == i {
            new
        } else {
            b.queue[k - 1]
        }) by {}
        assert(q[i] == new);
        assert(q.contains(new));
        assert forall|e: Entry| #[trigger] b.queue.contains(e) implies q.contains(e) by {
            let j = choose|j: int| 0 <= j < b.queue.len() && b.queue[j] == e;
            if j < i {
                assert(q[j] == e);
            } else {
                assert(q[j + 1] == e);
            }
        }
        assert forall|x: int, y: int| 0 <= x < y < q.len() implies (
        #[trigger] q[x]).meta.seq_no.0 < (#[trigger] q[y]).meta.seq_no.0 by {
            assert(q[x].seq() < q[y].seq());
        }
    } else {
        assert forall|x: int, y: int| 0 <= x < y < b.queue.len() implies (
        #[trigger] b.queue[x]).meta.seq_no.0 < (#[trigger] b.queue[y]).meta.seq_no.0 by {
            assert(b.queue[x].seq() < b.queue[y].seq());
        }
    }
}

/// The latest media time is the later of the one before and that of the packet, counted in the ticks
/// of both clocks; that of the packet, where both are the same.
pub proof fn law_push_notes_the_later_time<D: Depacketizer, C: Vp8Contiguity>(
    b: BufferState<D, C>,
    meta: RtpMeta,
    data: Vec<u8>,
    post: BufferState<D, C>,
)
    requires
        b.may_push(meta, data, post),
        !(b.hold_back > 0 && (b.last_emitted matches Some((last, _)) && meta.seq_no.0 <= last.0)),
    ensures
        b.max_time is None ==> post.max_time == Some(meta.time),
        b.max_time matches Some(m) ==> post.max_time == Some(
            if m.numer * meta.time.denom.hz() > meta.time.numer * m.denom.hz() {
                m
            } else {
                meta.time
            },
        ),
{
}

/// What `g` makes of the packets, one after the other.
pub open spec fn joined_output(run: Seq<Entry>, g: spec_fn(Seq<u8>) -> Seq<u8>) -> Seq<u8>
    decreases run.len(),
{
    if run.len() == 0 {
        Seq::empty()
    } else {
        joined_output(run.drop_last(), g) + g(run.last().data@)
    }
}

/// Each packet of a frame is unpacked once, in order, each from where the one before left the
/// depacketizer: one that appends `g` of each packet and counts them, telling `h` of each, gives the
/// whole frame with what it told of the last packet, and has counted all.
pub proof fn law_packets_are_unpacked_once_and_in_order<D: Depacketizer>(
    pre: D,
    run: Seq<Entry>,
    post: D,
    d: Depacketized,
    g: spec_fn(Seq<u8>) -> Seq<u8>,
    h: spec_fn(Seq<u8>) -> CodecExtra,
    count: spec_fn(D) -> int,
)
    requires
        run.len() > 0,
        may_unpack(pre, run, post, Ok::<Depacketized, PacketError>(d)),
        forall|
            a: D,
            packet: Seq<u8>,
            out: Seq<u8>,
            extra: CodecExtra,
            b: D,
            out_post: Seq<u8>,
            extra_post: CodecExtra,
        | #[trigger]
            D::may_depacketize(
                a,
                packet,
                out,
                extra,
                b,
                out_post,
                extra_post,
                Ok::<(), PacketError>(()),
            ) ==> out_post == out + g(packet) && extra_post == h(packet) && count(b) == count(a) + 1,
    ensures
        d.data@ == joined_output(run, g),
        d.codec_extra == h(run.last().data@),
        count(post) == count(pre) + run.len(),
{
    let trace = choose|trace: Seq<Unpacking<D>>| #[trigger]
        is_trace(trace, run) && trace[0].depack == pre && trace.last().depack == post && is_made_of(
            d,
            run,
            trace.last(),
        );
    lemma_trace_appends(trace, run, run.len() as int, g, h, count);
    assert(run.take(run.len() as int) =~= run);
    assert(trace.last() == trace[run.len() as int]);
}

/// An error that comes out is the one that the depacketizer had of a packet of the frame, after it
/// had unpacked all packets before that one.
pub proof fn law_errors_are_those_of_a_packet<D: Depacketizer>(
    pre: D,
    run: Seq<Entry>,
    post: D,
    e: PacketError,
) -> (r: (int, Unpacking<D>, Unpacking<D>))
    requires
        may_unpack(pre, run, post, Err::<Depacketized, PacketError>(e)),
    ensures
        0 <= r.0 < run.len(),
        D::may_depacketize(
            r.1.depack,
            run[r.0].data@,
            r.1.out,
            r.1.extra,
            post,
            r.2.out,
            r.2.extra,
            Err::<(), PacketError>(e),
        ),
        r.0 == 0 ==> r.1.depack == pre && r.1.out.len() == 0 && r.1.extra == CodecExtra::Nothing,
        r.0 > 0 ==> exists|before: Unpacking<D>| #[trigger]
            before.may_step(run[r.0 - 1].data@, r.1, Ok::<(), PacketError>(())),
{
    let (trace, end) = choose|trace: Seq<Unpacking<D>>, end: Unpacking<D>|
        trace.len() <= run.len() && #[trigger] is_trace(trace, run.take(trace.len() - 1))
            && trace[0].depack == pre && #[trigger] trace.last().may_step(
            run[trace.len() - 1].data@,
            end,
            Err::<(), PacketError>(e),
        ) && end.depack == post;
    let k = trace.len() - 1;
    if k > 0 {
        assert(run.take(k)[k - 1] == run[k - 1]);
        assert(trace[k - 1].may_step(
            run.take(k)[k - 1].data@,
            trace[k - 1 + 1],
            Ok::<(), PacketError>(()),
        ));
    }
    (k, trace.last(), end)
}

/// What the states of a depacketizer hold that appends `g` of each packet.
proof fn lemma_trace_appends<D: Depacketizer>(
    trace: Seq<Unpacking<D>>,
    run: Seq<Entry>,
    n: int,
    g: spec_fn(Seq<u8>) -> Seq<u8>,
    h: spec_fn(Seq<u8>) -> CodecExtra,
    count: spec_fn(D) -> int,
)
    requires
        is_trace(trace, run),
        0 <= n <= run.len(),
        forall|
            a: D,
            packet: Seq<u8>,
            out: Seq<u8>,
            extra: CodecExtra,
            b: D,
            out_post: Seq<u8>,
            extra_post: CodecExtra,
        | #[trigger]
            D::may_depacketize(
                a,
                packet,
                out,
                extra,
                b,
                out_post,
                extra_post,
                Ok::<(), PacketError>(()),
            ) ==> out_post == out + g(packet) && extra_post == h(packet) && count(b) == count(a) + 1,
    ensures
        trace[n].out == joined_output(run.take(n), g),
        n > 0 ==> trace[n].extra == h(run[n - 1].data@),
        count(trace[n].depack) == count(trace[0].depack) + n,
    decreases n,
{
    if n > 0 {
        lemma_trace_appends(trace, run, n - 1, g, h, count);
        assert(trace[n - 1].may_step(
            run[n - 1].data@,
            trace[n - 1 + 1],
            Ok::<(), PacketError>(()),
        ));
        assert(run.take(n).drop_last() =~= run.take(n - 1));
    } else {
        assert(run.take(n) =~= Seq::empty());
        assert(trace[0].out =~= Seq::empty());
    }
}

} // verus!
