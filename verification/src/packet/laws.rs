//! What holds of a receive buffer over its whole life.

use vstd::prelude::*;

use crate::header::SeqNo;
use crate::packet::buffer_rx::{
    fits, holds, is_built_from, is_frame, is_slot, lemma_fetch_fits, lemma_first_segment,
    lemma_push_keeps_order, lemma_settle_keeps_order, lemma_slot, lemma_slot_exists, slot,
    may_unpack, BufferState,
};
use crate::packet::codec::{CodecExtra, Depacketizer, PacketError, Vp8Contiguity};
use crate::packet::meta::{Depacketized, RtpMeta};
use crate::packet::segments::{segments, Entry};
use crate::time::{lemma_before_is_total, lemma_before_is_transitive, MediaTime};

verus! {

/// Taking in a packet keeps the buffer in order, and leaves alone what was emitted last.
pub proof fn law_push_keeps_order<D: Depacketizer, C: Vp8Contiguity>(
    b: BufferState<D, C>,
    meta: RtpMeta,
    data: Vec<u8>,
    head: bool,
    tail: bool,
)
    requires
        b.wf(),
        b.pushed(meta, data, head, tail).queue.len() <= usize::MAX,
    ensures
        b.pushed(meta, data, head, tail).wf(),
        b.pushed(meta, data, head, tail).last_emitted == b.last_emitted,
        b.pushed(meta, data, head, tail).hold_back == b.hold_back,
{
    lemma_push_keeps_order(b, meta, data, head, tail);
}

/// A packet that comes in a second time changes nothing in the queue; with the same media time, it
/// changes nothing at all.
pub proof fn law_duplicates_are_dropped<D: Depacketizer, C: Vp8Contiguity>(
    b: BufferState<D, C>,
    first: Entry,
    second: Entry,
)
    requires
        b.wf(),
        first.meta.seq_no == second.meta.seq_no,
    ensures
        ({
            let once = b.pushed(first.meta, first.data, first.head, first.tail);
            let twice = once.pushed(second.meta, second.data, second.head, second.tail);
            &&& twice.queue == once.queue
            &&& twice == BufferState { max_time: twice.max_time, ..once }
            &&& first.meta.time == second.meta.time ==> twice == once
        }),
{
    let seq_no = first.meta.seq_no;
    let once = b.pushed(first.meta, first.data, first.head, first.tail);
    if b.takes(seq_no) {
        lemma_slot_exists(b.queue, seq_no);
        assert(once.queue[slot(b.queue, seq_no)].meta.seq_no == seq_no);
        assert(holds(once.queue, seq_no));
    }
    if let Some(m) = b.max_time {
        lemma_before_is_total(m, first.meta.time);
    }
    lemma_before_is_total(first.meta.time, first.meta.time);
}

/// Where two entries stand after one of them has been put in its place and then the other.
proof fn lemma_insert_twice(q: Seq<Entry>, a: Entry, b: Entry)
    requires
        is_slot(q, a.meta.seq_no, slot(q, a.meta.seq_no)),
        is_slot(q, b.meta.seq_no, slot(q, b.meta.seq_no)),
        a.meta.seq_no.0 < b.meta.seq_no.0,
    ensures
        ({
            let i = slot(q, a.meta.seq_no);
            let j = slot(q, b.meta.seq_no);
            let with_a = q.insert(i, a);
            let with_b = q.insert(j, b);
            &&& i <= j
            &&& slot(with_a, b.meta.seq_no) == j + 1
            &&& !holds(with_a, b.meta.seq_no)
            &&& slot(with_b, a.meta.seq_no) == i
            &&& !holds(with_b, a.meta.seq_no)
            &&& with_a.insert(j + 1, b) == with_b.insert(i, a)
        }),
{
    let i = slot(q, a.meta.seq_no);
    let j = slot(q, b.meta.seq_no);
    let with_a = q.insert(i, a);
    let with_b = q.insert(j, b);
    if j < i {
        assert(q[j].seq() < a.meta.seq_no.0);
        assert(b.meta.seq_no.0 < q[j].seq());
    }
    assert forall|k: int| 0 <= k < with_a.len() implies #[trigger] with_a[k] == (if k < i {
        q[k]
    } else if k == i {
        a
    } else {
        q[k - 1]
    }) by {}
    assert forall|k: int| 0 <= k < with_b.len() implies #[trigger] with_b[k] == (if k < j {
        q[k]
    } else if k == j {
        b
    } else {
        q[k - 1]
    }) by {}
    assert(is_slot(with_a, b.meta.seq_no, j + 1));
    lemma_slot(with_a, b.meta.seq_no, j + 1);
    assert(is_slot(with_b, a.meta.seq_no, i));
    lemma_slot(with_b, a.meta.seq_no, i);
    assert(with_a.insert(j + 1, b) =~= with_b.insert(i, a));
}

/// The latest of three points is the same point, whichever of the last two is compared first.
proof fn lemma_latest_of_three(m: MediaTime, x: MediaTime, y: MediaTime)
    ensures
        m.later_of(x).later_of(y).same(m.later_of(y).later_of(x)),
        x.later_of(y).same(y.later_of(x)),
{
    let a = m.later_of(x).later_of(y);
    let b = m.later_of(y).later_of(x);
    lemma_before_is_total(m, x);
    lemma_before_is_total(m, y);
    lemma_before_is_total(x, y);
    lemma_before_is_total(a, b);
    lemma_before_is_total(m, m);
    lemma_before_is_total(x, x);
    lemma_before_is_total(y, y);
    lemma_before_is_total(m.later_of(x), y);
    lemma_before_is_total(m.later_of(y), x);
    lemma_before_is_transitive(a, m.later_of(x), m);
    lemma_before_is_transitive(a, m.later_of(x), x);
    lemma_before_is_transitive(b, m.later_of(y), m);
    lemma_before_is_transitive(b, m.later_of(y), y);
}

/// Whether two buffers differ at most in how their latest media time is written.
pub open spec fn is_alike<D: Depacketizer, C: Vp8Contiguity>(
    a: BufferState<D, C>,
    b: BufferState<D, C>,
) -> bool {
    &&& b == BufferState { max_time: b.max_time, ..a }
    &&& match (a.max_time, b.max_time) {
        (Some(m), Some(n)) => m.same(n),
        (None, None) => true,
        _ => false,
    }
}

/// The order in which two packets come in makes no difference, given what the codec takes each of
/// them for: the buffers are alike, and either packet is taken in whichever comes first.
pub proof fn law_places_do_not_depend_on_arrival<D: Depacketizer, C: Vp8Contiguity>(
    b: BufferState<D, C>,
    x: Entry,
    y: Entry,
)
    requires
        b.wf(),
        x.meta.seq_no != y.meta.seq_no,
    ensures
        is_alike(
            b.pushed(x.meta, x.data, x.head, x.tail).pushed(y.meta, y.data, y.head, y.tail),
            b.pushed(y.meta, y.data, y.head, y.tail).pushed(x.meta, x.data, x.head, x.tail),
        ),
        b.pushed(x.meta, x.data, x.head, x.tail).takes(y.meta.seq_no) == b.takes(y.meta.seq_no),
        b.pushed(y.meta, y.data, y.head, y.tail).takes(x.meta.seq_no) == b.takes(x.meta.seq_no),
{
    let with_x = b.pushed(x.meta, x.data, x.head, x.tail);
    let with_y = b.pushed(y.meta, y.data, y.head, y.tail);
    if b.takes(x.meta.seq_no) {
        lemma_slot_exists(b.queue, x.meta.seq_no);
        lemma_holds_after_insert(b.queue, x, y.meta.seq_no);
    }
    if b.takes(y.meta.seq_no) {
        lemma_slot_exists(b.queue, y.meta.seq_no);
        lemma_holds_after_insert(b.queue, y, x.meta.seq_no);
    }
    if b.takes(x.meta.seq_no) && b.takes(y.meta.seq_no) {
        assert(with_x.queue == b.queue.insert(slot(b.queue, x.meta.seq_no), x));
        assert(with_y.queue == b.queue.insert(slot(b.queue, y.meta.seq_no), y));
        if x.meta.seq_no.0 < y.meta.seq_no.0 {
            lemma_insert_twice(b.queue, x, y);
        } else {
            lemma_insert_twice(b.queue, y, x);
        }
    }
    match b.max_time {
        Some(m) => {
            lemma_latest_of_three(m, x.meta.time, y.meta.time);
            lemma_same_time(m.later_of(x.meta.time));
            lemma_same_time(m.later_of(y.meta.time));
            lemma_same_time(m);
        },
        None => {
            lemma_latest_of_three(x.meta.time, x.meta.time, y.meta.time);
            lemma_same_time(x.meta.time);
            lemma_same_time(y.meta.time);
        },
    }
}

/// A point in time is the same as itself.
proof fn lemma_same_time(t: MediaTime)
    ensures
        t.same(t),
{
}

/// Whether the depacketizer has one answer for each packet to whether it is a head, and one to
/// whether it is a tail.
pub open spec fn is_decided<D: Depacketizer>(depack: D) -> bool {
    &&& forall|packet: Seq<u8>, p: bool, q: bool| #[trigger]
        depack.may_head(packet, p) && #[trigger] depack.may_head(packet, q) ==> p == q
    &&& forall|marker: bool, packet: Seq<u8>, p: bool, q: bool| #[trigger]
        depack.may_tail(marker, packet, p) && #[trigger] depack.may_tail(marker, packet, q) ==> p
            == q
}

/// A packet has one outcome, if the depacketizer has one answer for it.
proof fn lemma_one_outcome<D: Depacketizer, C: Vp8Contiguity>(
    b: BufferState<D, C>,
    meta: RtpMeta,
    data: Vec<u8>,
    p: BufferState<D, C>,
    q: BufferState<D, C>,
)
    requires
        is_decided(b.depack),
        b.may_push(meta, data, p),
        b.may_push(meta, data, q),
    ensures
        p == q,
{
    let (h1, t1) = choose|head: bool, tail: bool|
        p == #[trigger] b.pushed(meta, data, head, tail) && (b.takes(meta.seq_no)
            ==> b.depack.may_head(data@, head) && b.depack.may_tail(
            meta.header.marker,
            data@,
            tail,
        ));
    let (h2, t2) = choose|head: bool, tail: bool|
        q == #[trigger] b.pushed(meta, data, head, tail) && (b.takes(meta.seq_no)
            ==> b.depack.may_head(data@, head) && b.depack.may_tail(
            meta.header.marker,
            data@,
            tail,
        ));
    if b.takes(meta.seq_no) {
        assert(h1 == h2 && t1 == t2);
    }
}

/// The order in which two packets come in makes no difference, if the depacketizer has one answer
/// for each: the queue is the same, and so is the latest media time.
pub proof fn law_arrival_order_does_not_matter<D: Depacketizer, C: Vp8Contiguity>(
    b: BufferState<D, C>,
    x: RtpMeta,
    x_data: Vec<u8>,
    y: RtpMeta,
    y_data: Vec<u8>,
    with_x: BufferState<D, C>,
    with_both: BufferState<D, C>,
    with_y: BufferState<D, C>,
    other: BufferState<D, C>,
)
    requires
        b.wf(),
        x.seq_no != y.seq_no,
        is_decided(b.depack),
        b.may_push(x, x_data, with_x),
        with_x.may_push(y, y_data, with_both),
        b.may_push(y, y_data, with_y),
        with_y.may_push(x, x_data, other),
    ensures
        is_alike(with_both, other),
{
    law_any_arrival_order_is_possible(b, x, x_data, y, y_data, with_x, with_both);
    let (p, q) = choose|p: BufferState<D, C>, q: BufferState<D, C>| #[trigger]
        b.may_push(y, y_data, p) && #[trigger] p.may_push(x, x_data, q) && is_alike(with_both, q);
    lemma_one_outcome(b, y, y_data, p, with_y);
    lemma_one_outcome(p, x, x_data, q, other);
}

/// Whatever two packets can lead to, they can lead to in the other order too: to the same queue, and
/// the same latest media time.
pub proof fn law_any_arrival_order_is_possible<D: Depacketizer, C: Vp8Contiguity>(
    b: BufferState<D, C>,
    x: RtpMeta,
    x_data: Vec<u8>,
    y: RtpMeta,
    y_data: Vec<u8>,
    with_x: BufferState<D, C>,
    with_both: BufferState<D, C>,
)
    requires
        b.wf(),
        x.seq_no != y.seq_no,
        b.may_push(x, x_data, with_x),
        with_x.may_push(y, y_data, with_both),
    ensures
        exists|with_y: BufferState<D, C>, other: BufferState<D, C>| #[trigger]
            b.may_push(y, y_data, with_y) && #[trigger] with_y.may_push(x, x_data, other)
                && is_alike(with_both, other),
{
    let (head, tail) = choose|head: bool, tail: bool|
        with_x == #[trigger] b.pushed(x, x_data, head, tail) && (b.takes(x.seq_no)
            ==> b.depack.may_head(x_data@, head) && b.depack.may_tail(
            x.header.marker,
            x_data@,
            tail,
        ));
    let first = Entry { meta: x, data: x_data, head, tail };
    let (head, tail) = choose|head: bool, tail: bool|
        with_both == #[trigger] with_x.pushed(y, y_data, head, tail) && (with_x.takes(y.seq_no)
            ==> with_x.depack.may_head(y_data@, head) && with_x.depack.may_tail(
            y.header.marker,
            y_data@,
            tail,
        ));
    let second = Entry { meta: y, data: y_data, head, tail };
    law_places_do_not_depend_on_arrival(b, first, second);
    let with_y = b.pushed(y, y_data, second.head, second.tail);
    let other = with_y.pushed(x, x_data, first.head, first.tail);
    assert(b.may_push(y, y_data, with_y));
    assert(with_y.may_push(x, x_data, other));
}

/// Buffers that are alike give out the same frames, and stay alike.
pub proof fn law_alike_buffers_give_out_the_same<D: Depacketizer, C: Vp8Contiguity>(
    a: BufferState<D, C>,
    b: BufferState<D, C>,
    post: BufferState<D, C>,
    r: Option<Result<Depacketized, PacketError>>,
)
    requires
        is_alike(a, b),
        a.may_pop(post, r),
    ensures
        b.may_pop(BufferState { max_time: b.max_time, ..post }, r),
        is_alike(post, BufferState { max_time: b.max_time, ..post }),
{
    let after = BufferState { max_time: b.max_time, ..post };
    if segments(a.queue).len() > 0 {
        let dep = choose|dep: Result<Depacketized, PacketError>| #[trigger]
            a.may_fetch(post.depack, dep) && (BufferState {
                depack: post.depack,
                cache: None,
                ..a
            }).may_settle(dep, post, r);
        let from = BufferState { depack: post.depack, cache: None, ..a };
        let to = BufferState { depack: post.depack, cache: None, ..b };
        assert(b.may_fetch(after.depack, dep));
        if let Ok(d) = dep {
            if !from.waits() {
                let verdict = choose|verdict: (bool, bool)| #[trigger]
                    from.may_judge(d.codec_extra, post.vp8, verdict) && (post, r)
                        == (BufferState { vp8: post.vp8, ..from }).released(d, verdict);
                assert(to.may_judge(d.codec_extra, after.vp8, verdict));
                assert((after, r) == (BufferState { vp8: after.vp8, ..to }).released(d, verdict));
            }
        }
        assert(to.may_settle(dep, after, r));
    }
}

/// Putting an entry in its place changes what the queue holds by that entry only.
proof fn lemma_holds_after_insert(q: Seq<Entry>, e: Entry, seq_no: SeqNo)
    requires
        is_slot(q, e.meta.seq_no, slot(q, e.meta.seq_no)),
        e.meta.seq_no != seq_no,
    ensures
        holds(q.insert(slot(q, e.meta.seq_no), e), seq_no) == holds(q, seq_no),
{
    let i = slot(q, e.meta.seq_no);
    let p = q.insert(i, e);
    if holds(q, seq_no) {
        let k = choose|k: int| 0 <= k < q.len() && (#[trigger] q[k]).meta.seq_no == seq_no;
        if k < i {
            assert(p[k].meta.seq_no == seq_no);
        } else {
            assert(p[k + 1].meta.seq_no == seq_no);
        }
    }
    if holds(p, seq_no) {
        let k = choose|k: int| 0 <= k < p.len() && (#[trigger] p[k]).meta.seq_no == seq_no;
        if k < i {
            assert(q[k].meta.seq_no == seq_no);
        } else {
            assert(q[k - 1].meta.seq_no == seq_no);
        }
    }
}

/// The latest media time never goes back, and covers every packet that was not late.
pub proof fn law_max_time_covers<D: Depacketizer, C: Vp8Contiguity>(
    b: BufferState<D, C>,
    meta: RtpMeta,
    data: Vec<u8>,
    head: bool,
    tail: bool,
)
    ensures
        b.max_time matches Some(m) ==> (b.pushed(meta, data, head, tail).max_time matches Some(n)
            && !n.before(m)),
        !b.is_late(meta.seq_no) ==> (b.pushed(meta, data, head, tail).max_time matches Some(n)
            && !n.before(meta.time)),
{
    if let Some(m) = b.max_time {
        lemma_before_is_total(m, meta.time);
    }
}

/// What happens to a buffer.
pub enum Event {
    /// A packet comes in.
    Push(Entry),
    /// It is asked for a frame, and gives this out.
    Pop(Option<Result<Depacketized, PacketError>>),
}

/// Whether the buffer `a` can become `b` by the event.
pub open spec fn may_advance<D: Depacketizer, C: Vp8Contiguity>(
    a: BufferState<D, C>,
    b: BufferState<D, C>,
    event: Event,
) -> bool {
    match event {
        Event::Push(e) => b == a.pushed(e.meta, e.data, e.head, e.tail),
        Event::Pop(r) => a.may_pop(b, r),
    }
}

/// Asking for a frame keeps the buffer in order, and takes packets from the front of the queue only.
/// What it gives out is a frame made of queued packets, none of which was left behind before; the
/// queue holds none of them any more.
pub proof fn law_pop<D: Depacketizer, C: Vp8Contiguity>(
    b: BufferState<D, C>,
    post: BufferState<D, C>,
    r: Option<Result<Depacketized, PacketError>>,
)
    requires
        b.wf(),
        b.may_pop(post, r),
    ensures
        post.wf(),
        post.hold_back == b.hold_back,
        post.max_time == b.max_time,
        post.queue.len() <= b.queue.len(),
        post.queue == b.queue.skip(b.queue.len() - post.queue.len()),
        r is Some ==> post.queue.len() < b.queue.len(),
        r matches Some(Ok(d)) ==> {
            &&& is_frame(d)
            &&& is_built_from::<D>(d, b.queue)
            &&& !b.is_late(d.meta@[0].seq_no)
            &&& post.last_emitted == Some((d.meta@.last().seq_no, d.codec_extra))
            &&& forall|k: int| 0 <= k < d.meta@.len() ==> !holds(
                post.queue,
                (#[trigger] d.meta@[k]).seq_no,
            )
        },
        r matches Some(Err(_)) ==> post.last_emitted == Some(
            (b.first_stop(), CodecExtra::Nothing),
        ),
        r is None ==> post.last_emitted == b.last_emitted,
{
    assert(b.queue.skip(0) =~= b.queue);
    if segments(b.queue).len() > 0 {
        lemma_first_segment(b);
        let dep = choose|dep: Result<Depacketized, PacketError>| #[trigger]
            b.may_fetch(post.depack, dep) && (BufferState {
                depack: post.depack,
                cache: None,
                ..b
            }).may_settle(dep, post, r);
        lemma_fetch_fits(b, post.depack, dep);
        let between = BufferState { depack: post.depack, cache: None, ..b };
        assert(between.wf());
        assert(fits(between, dep));
        lemma_settle_keeps_order(between, dep, post, r);
        if let Some(Ok(d)) = r {
            let stop = segments(b.queue)[0].1 as int;
            assert forall|k: int| 0 <= k < d.meta@.len() implies !holds(
                post.queue,
                (#[trigger] d.meta@[k]).seq_no,
            ) by {
                if holds(post.queue, d.meta@[k].seq_no) {
                    let i = choose|i: int|
                        0 <= i < post.queue.len() && (#[trigger] post.queue[i]).meta.seq_no
                            == d.meta@[k].seq_no;
                    assert(post.queue[i] == b.queue[stop + 1 + i]);
                    assert(b.queue[stop].seq() < b.queue[stop + 1 + i].seq());
                    assert(d.meta@[k].seq_no.0 <= d.meta@.last().seq_no.0);
                }
            }
        }
    }
}

/// The last emitted sequence number; minus one before the first frame.
spec fn mark<D, C>(b: BufferState<D, C>) -> int {
    match b.last_emitted {
        Some((seq_no, _)) => seq_no.0 as int,
        None => -1,
    }
}

/// One step of a buffer keeps it in order. If it holds back, what is emitted lies behind the mark, and
/// the mark moves forward only.
proof fn lemma_advance<D: Depacketizer, C: Vp8Contiguity>(
    a: BufferState<D, C>,
    b: BufferState<D, C>,
    event: Event,
)
    requires
        a.wf(),
        b.queue.len() <= usize::MAX,
        may_advance(a, b, event),
    ensures
        b.wf(),
        b.hold_back == a.hold_back,
        a.hold_back > 0 ==> mark(a) <= mark(b),
        event matches Event::Pop(Some(Ok(d))) ==> {
            &&& is_frame(d)
            &&& is_built_from::<D>(d, a.queue)
            &&& a.hold_back > 0 ==> mark(a) < d.meta@[0].seq_no.0
            &&& mark(b) == d.meta@.last().seq_no.0
        },
{
    match event {
        Event::Pop(r) => {
            law_pop(a, b, r);
            if let Some(Err(_)) = r {
                lemma_first_segment(a);
                let stop = segments(a.queue)[0].1 as int;
                assert(!a.is_late(a.queue[stop].meta.seq_no));
            }
            if let Some(Ok(d)) = r {
                assert(d.meta@.last().seq_no.0 >= d.meta@[0].seq_no.0);
            }
        },
        Event::Push(e) => {
            law_push_keeps_order(a, e.meta, e.data, e.head, e.tail);
        },
    }
}

/// Whether a buffer can go through the states `states`, where `events[k]` leads from the state `k` to
/// the state `k + 1`.
pub open spec fn is_life<D: Depacketizer, C: Vp8Contiguity>(
    states: Seq<BufferState<D, C>>,
    events: Seq<Event>,
) -> bool {
    &&& states.len() == events.len() + 1
    &&& states[0].wf()
    &&& forall|k: int|
        0 <= k < states.len() ==> (#[trigger] states[k]).queue.len() <= usize::MAX
    &&& forall|k: int|
        0 <= k < events.len() ==> may_advance(states[k], states[k + 1], #[trigger] events[k])
}

/// Through its whole life a buffer stays in order.
pub proof fn law_buffer_stays_in_order<D: Depacketizer, C: Vp8Contiguity>(
    states: Seq<BufferState<D, C>>,
    events: Seq<Event>,
    k: int,
)
    requires
        is_life(states, events),
        0 <= k < states.len(),
    ensures
        states[k].wf(),
        states[k].hold_back == states[0].hold_back,
    decreases k,
{
    if k > 0 {
        law_buffer_stays_in_order(states, events, k - 1);
        assert(may_advance(states[k - 1], states[k - 1 + 1], events[k - 1]));
        lemma_advance(states[k - 1], states[k], events[k - 1]);
    }
}

/// The mark never goes back.
proof fn lemma_mark_advances<D: Depacketizer, C: Vp8Contiguity>(
    states: Seq<BufferState<D, C>>,
    events: Seq<Event>,
    i: int,
    j: int,
)
    requires
        is_life(states, events),
        states[0].hold_back > 0,
        0 <= i <= j < states.len(),
    ensures
        mark(states[i]) <= mark(states[j]),
    decreases j - i,
{
    if i < j {
        lemma_mark_advances(states, events, i, j - 1);
        law_buffer_stays_in_order(states, events, j - 1);
        assert(may_advance(states[j - 1], states[j - 1 + 1], events[j - 1]));
        lemma_advance(states[j - 1], states[j], events[j - 1]);
    }
}

/// Frames come out in order: whatever comes in meanwhile, a buffer that holds back never gives out
/// a packet with a sequence number at or before that of a packet it gave out earlier.
pub proof fn law_frames_come_out_in_order<D: Depacketizer, C: Vp8Contiguity>(
    states: Seq<BufferState<D, C>>,
    events: Seq<Event>,
    i: int,
    j: int,
    earlier: Depacketized,
    later: Depacketized,
)
    requires
        is_life(states, events),
        states[0].hold_back > 0,
        0 <= i < j < events.len(),
        events[i] == Event::Pop(Some(Ok::<Depacketized, PacketError>(earlier))),
        events[j] == Event::Pop(Some(Ok::<Depacketized, PacketError>(later))),
    ensures
        forall|a: int, b: int|
            0 <= a < earlier.meta@.len() && 0 <= b < later.meta@.len() ==> (
            #[trigger] earlier.meta@[a]).seq_no.0 < (#[trigger] later.meta@[b]).seq_no.0,
{
    law_buffer_stays_in_order(states, events, i);
    law_buffer_stays_in_order(states, events, j);
    assert(may_advance(states[i], states[i + 1], events[i]));
    assert(may_advance(states[j], states[j + 1], events[j]));
    lemma_advance(states[i], states[i + 1], events[i]);
    lemma_advance(states[j], states[j + 1], events[j]);
    lemma_mark_advances(states, events, i + 1, j);
    assert(earlier.meta@.last() == earlier.meta@[earlier.meta@.len() - 1]);
}

/// Through its whole life, what a buffer gives out is a frame that the depacketizer made of packets
/// in the queue, whether at once or when the frame began to wait: consecutive packets of one media
/// time, of which the first is a head and none but the last is a tail.
pub proof fn law_frames_are_made_of_their_packets<D: Depacketizer, C: Vp8Contiguity>(
    states: Seq<BufferState<D, C>>,
    events: Seq<Event>,
    k: int,
    d: Depacketized,
)
    requires
        is_life(states, events),
        0 <= k < events.len(),
        events[k] == Event::Pop(Some(Ok::<Depacketized, PacketError>(d))),
    ensures
        is_frame(d),
        is_built_from::<D>(d, states[k].queue),
{
    law_buffer_stays_in_order(states, events, k);
    assert(may_advance(states[k], states[k + 1], events[k]));
    lemma_advance(states[k], states[k + 1], events[k]);
}

/// Whether nothing has happened to a buffer yet.
pub open spec fn is_unused<D: Depacketizer, C: Vp8Contiguity>(b: BufferState<D, C>) -> bool {
    b.queue.len() == 0 && b.last_emitted is None && b.max_time is None && b.cache is None
}

/// Whether the event `j` brings in a packet that is not late.
pub open spec fn brings_in<D: Depacketizer, C: Vp8Contiguity>(
    states: Seq<BufferState<D, C>>,
    events: Seq<Event>,
    j: int,
) -> bool {
    events[j] matches Event::Push(e) && !states[j].is_late(e.meta.seq_no)
}

/// The media time of the packet that the event brings in.
pub open spec fn time_of(event: Event) -> MediaTime
    recommends
        event is Push,
{
    event->Push_0.meta.time
}

/// A buffer that has seen no media time holds nothing and has given out nothing.
proof fn lemma_unused<D: Depacketizer, C: Vp8Contiguity>(
    states: Seq<BufferState<D, C>>,
    events: Seq<Event>,
    k: int,
)
    requires
        is_life(states, events),
        is_unused(states[0]),
        0 <= k < states.len(),
        states[k].max_time is None,
    ensures
        is_unused(states[k]),
        forall|j: int| 0 <= j < k ==> (#[trigger] events[j]) is Pop,
    decreases k,
{
    if k > 0 {
        let (a, b) = (states[k - 1], states[k]);
        law_buffer_stays_in_order(states, events, k - 1);
        assert(may_advance(states[k - 1], states[k - 1 + 1], events[k - 1]));
        match events[k - 1] {
            Event::Push(e) => {
                if a.max_time is None {
                    lemma_unused(states, events, k - 1);
                }
            },
            Event::Pop(r) => {
                law_pop(a, b, r);
                lemma_unused(states, events, k - 1);
                if segments(a.queue).len() > 0 {
                    lemma_first_segment(a);
                }
            },
        }
    }
}

/// Through the whole life of a buffer, its latest media time is that of the latest packet of all
/// that were not late. There is none only as long as no packet came in.
pub proof fn law_max_time_is_the_latest<D: Depacketizer, C: Vp8Contiguity>(
    states: Seq<BufferState<D, C>>,
    events: Seq<Event>,
    k: int,
)
    requires
        is_life(states, events),
        is_unused(states[0]),
        0 <= k < states.len(),
    ensures
        states[k].max_time is None <==> forall|j: int| 0 <= j < k ==> (#[trigger] events[j]) is Pop,
        states[k].max_time matches Some(m) ==> {
            &&& exists|j: int|
                0 <= j < k && #[trigger] brings_in(states, events, j) && m == time_of(events[j])
            &&& forall|j: int|
                0 <= j < k && #[trigger] brings_in(states, events, j) ==> !m.before(
                    time_of(events[j]),
                )
        },
    decreases k,
{
    if states[k].max_time is None {
        lemma_unused(states, events, k);
    }
    if k > 0 {
        law_max_time_is_the_latest(states, events, k - 1);
        let (a, b) = (states[k - 1], states[k]);
        law_buffer_stays_in_order(states, events, k - 1);
        assert(may_advance(states[k - 1], states[k - 1 + 1], events[k - 1]));
        match events[k - 1] {
            Event::Push(e) => {
                law_max_time_covers(a, e.meta, e.data, e.head, e.tail);
                if !a.is_late(e.meta.seq_no) {
                    assert(brings_in(states, events, k - 1));
                    let n = b.max_time->0;
                    if let Some(m) = a.max_time {
                        assert forall|j: int|
                            0 <= j < k && #[trigger] brings_in(states, events, j) implies !n.before(
                            time_of(events[j]),
                        ) by {
                            if j < k - 1 {
                                lemma_before_is_transitive(n, m, time_of(events[j]));
                            }
                        }
                    }
                }
            },
            Event::Pop(r) => {
                law_pop(a, b, r);
            },
        }
    }
}

/// A frame is kept back only while it is the first one and waits. A frame kept back from before is
/// thrown away if another one is the first now, and can never come out later.
pub proof fn law_only_the_first_frame_is_kept_back<D: Depacketizer, C: Vp8Contiguity>(
    b: BufferState<D, C>,
    post: BufferState<D, C>,
    r: Option<Result<Depacketized, PacketError>>,
)
    requires
        segments(b.queue).len() > 0,
        b.may_pop(post, r),
    ensures
        post.cache is Some <==> (b.waits() && r is None),
        post.cache matches Some((seq_no, d)) ==> seq_no == b.first_stop() && (b.cache == Some(
            (seq_no, d),
        ) || may_unpack(
            b.depack,
            b.queue.subrange(segments(b.queue)[0].0 as int, segments(b.queue)[0].1 + 1),
            post.depack,
            Ok::<Depacketized, PacketError>(d),
        )),
{
}

/// A frame that waits goes on waiting, however often it is asked for, until a packet comes in.
pub proof fn law_waiting_is_stable<D: Depacketizer, C: Vp8Contiguity>(
    b: BufferState<D, C>,
    waiting: BufferState<D, C>,
    post: BufferState<D, C>,
    r: Option<Result<Depacketized, PacketError>>,
)
    requires
        b.wf(),
        segments(b.queue).len() > 0,
        b.waits(),
        b.may_pop(waiting, None),
        waiting.may_pop(post, r),
    ensures
        waiting.queue == b.queue,
        post == waiting,
        r is None,
{
}

/// A frame that does not wait is taken from the queue, with all before it. It comes out, as a frame
/// that is contiguous if it directly follows the one before, or as an error; only a VP8 frame can be
/// dropped.
pub proof fn law_ready_frames_come_out<D: Depacketizer, C: Vp8Contiguity>(
    b: BufferState<D, C>,
    post: BufferState<D, C>,
    r: Option<Result<Depacketized, PacketError>>,
)
    requires
        segments(b.queue).len() > 0,
        !b.waits(),
        b.may_pop(post, r),
    ensures
        post.queue == b.without_first().queue,
        r matches Some(Ok(d)) ==> (d.codec_extra is Vp8 || d.contiguous == b.follows_last(
            segments(b.queue)[0].0 as int,
        )),
        r is None ==> exists|d: Depacketized|
            d.codec_extra is Vp8 && #[trigger] b.may_fetch(
                post.depack,
                Ok::<Depacketized, PacketError>(d),
            ),
{
    let dep = choose|dep: Result<Depacketized, PacketError>| #[trigger]
        b.may_fetch(post.depack, dep) && (BufferState {
            depack: post.depack,
            cache: None,
            ..b
        }).may_settle(dep, post, r);
    if let Ok(d) = dep {
        assert(b.may_fetch(post.depack, Ok::<Depacketized, PacketError>(d)));
    }
}

/// A buffer that does not hold back takes in every packet that it does not hold already.
pub proof fn law_nothing_is_late_without_hold_back<D: Depacketizer, C: Vp8Contiguity>(
    b: BufferState<D, C>,
    seq_no: SeqNo,
)
    requires
        b.hold_back == 0,
    ensures
        b.takes(seq_no) <==> !holds(b.queue, seq_no),
{
}

/// A buffer that holds back no more than one frame never waits, and none waits with its first
/// frame.
pub proof fn law_nothing_waits_without_reason<D: Depacketizer, C: Vp8Contiguity>(
    b: BufferState<D, C>,
)
    requires
        segments(b.queue).len() > 0,
        b.hold_back <= 1 || b.last_emitted is None,
    ensures
        !b.waits(),
{
}

/// Once as many frames are ready as are held back, the first no longer waits.
pub proof fn law_waiting_is_bounded<D: Depacketizer, C: Vp8Contiguity>(b: BufferState<D, C>)
    requires
        segments(b.queue).len() >= b.hold_back,
    ensures
        !b.waits(),
{
}

} // verus!
