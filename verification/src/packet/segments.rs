//! Segments: the runs of queued packets that make up a whole frame.

use vstd::prelude::*;

use std::collections::VecDeque;

use crate::packet::meta::RtpMeta;
use crate::time::{lemma_same_is_equivalence, MediaTime};

verus! {

/// A queued packet.
#[derive(Debug)]
pub struct Entry {
    /// What is known of the packet.
    pub meta: RtpMeta,
    /// Its payload.
    pub data: Vec<u8>,
    /// Whether the codec takes it for the first packet of a frame.
    pub head: bool,
    /// Whether the codec takes it for the last packet of a frame.
    pub tail: bool,
}

impl Entry {
    /// The sequence number.
    pub open spec fn seq(self) -> int {
        self.meta.seq_no.0 as int
    }

    /// Whether the packet only fills the line: it carries nothing, and begins and ends nothing.
    pub open spec fn is_padding(self) -> bool {
        self.data@.len() == 0 && !self.head && !self.tail
    }
}

/// Whether the queue is in order of sequence numbers, none of which occurs twice.
pub open spec fn ordered(q: Seq<Entry>) -> bool {
    forall|i: int, j: int| 0 <= i < j < q.len() ==> (#[trigger] q[i]).seq() < (#[trigger] q[j]).seq()
}

/// Whether the entries `s..=e` have consecutive sequence numbers and the same media time.
pub open spec fn joined(q: Seq<Entry>, s: int, e: int) -> bool {
    forall|k: int|
        s <= k <= e ==> (#[trigger] q[k]).seq() == q[s].seq() + (k - s) && q[s].meta.time.same(
            q[k].meta.time,
        )
}

/// Whether none of the entries `s..e` is a tail.
pub open spec fn no_tail(q: Seq<Entry>, s: int, e: int) -> bool {
    forall|k: int| s <= k < e ==> !(#[trigger] q[k]).tail
}

/// Whether a frame begun at `t` still goes on at `s`.
pub open spec fn reaches(q: Seq<Entry>, t: int, s: int) -> bool {
    0 <= t < s && q[t].head && joined(q, t, s) && no_tail(q, t, s)
}

/// Whether a frame begins at `s`: a head that does not lie within a frame begun earlier.
pub open spec fn opens(q: Seq<Entry>, s: int) -> bool {
    0 <= s < q.len() && q[s].head && forall|t: int| !reaches(q, t, s)
}

/// Whether the entry after `e` shows that the frame begun at `s` ended: it has the next sequence
/// number, and another media time.
pub open spec fn ends_by_time(q: Seq<Entry>, s: int, e: int) -> bool {
    e + 1 < q.len() && q[e + 1].seq() == q[s].seq() + (e + 1 - s) && !q[s].meta.time.same(
        q[e + 1].meta.time,
    )
}

/// Whether the entries `s..=e` are a whole frame.
pub open spec fn is_segment(q: Seq<Entry>, s: int, e: int) -> bool {
    &&& opens(q, s)
    &&& s <= e < q.len()
    &&& joined(q, s, e)
    &&& no_tail(q, s, e)
    &&& q[e].tail || ends_by_time(q, s, e)
}

/// Whether `l` lists all segments of the queue that `keep` selects by their last index, in order.
pub open spec fn lists(q: Seq<Entry>, l: Seq<(usize, usize)>, keep: spec_fn(int) -> bool) -> bool {
    &&& forall|i: int|
        0 <= i < l.len() ==> is_segment(q, (#[trigger] l[i]).0 as int, l[i].1 as int) && keep(
            l[i].1 as int,
        )
    &&& forall|i: int, j: int| 0 <= i < j < l.len() ==> (#[trigger] l[i]).1 < (#[trigger] l[j]).0
    &&& forall|s: usize, e: usize|
        is_segment(q, s as int, e as int) && keep(e as int) ==> #[trigger] l.contains((s, e))
}

/// Whether `l` lists the segments of the queue in order.
pub open spec fn is_segment_list(q: Seq<Entry>, l: Seq<(usize, usize)>) -> bool {
    lists(q, l, |e: int| true)
}

/// The segments of the queue, in order, each as its first and last index.
pub open spec fn segments(q: Seq<Entry>) -> Seq<(usize, usize)> {
    choose|l: Seq<(usize, usize)>| is_segment_list(q, l)
}

/// Two frames that go on at the same entry began at the same entry.
proof fn lemma_one_open(q: Seq<Entry>, s: int, t: int, e: int)
    requires
        opens(q, s),
        opens(q, t),
        s <= e,
        t <= e,
        joined(q, s, e),
        joined(q, t, e),
        no_tail(q, s, e),
        no_tail(q, t, e),
    ensures
        s == t,
{
    if s < t {
        assert(reaches(q, s, t));
    } else if t < s {
        assert(reaches(q, t, s));
    }
}

/// A frame that began at or after `s` and goes on at `e`, within a run that began at `s`, makes
/// the run from `s` go on at `e`.
proof fn lemma_joined_through(q: Seq<Entry>, s: int, t: int, e: int)
    requires
        s <= t < e,
        joined(q, s, e - 1),
        joined(q, t, e),
    ensures
        joined(q, s, e),
{
    lemma_same_is_equivalence(q[s].meta.time, q[t].meta.time, q[e].meta.time);
    assert(q[t].seq() == q[s].seq() + (t - s));
    assert(q[e].seq() == q[t].seq() + (e - t));
}

/// The queue has one list of segments.
pub proof fn lemma_segment_list_is_unique(
    q: Seq<Entry>,
    a: Seq<(usize, usize)>,
    b: Seq<(usize, usize)>,
)
    requires
        is_segment_list(q, a),
        is_segment_list(q, b),
    ensures
        a == b,
{
    lemma_prefix(q, a, b, a.len());
    lemma_prefix(q, b, a, b.len());
    assert(a =~= b);
}

/// The first `n` segments of one list are the first `n` of any other.
proof fn lemma_prefix(q: Seq<Entry>, a: Seq<(usize, usize)>, b: Seq<(usize, usize)>, n: nat)
    requires
        is_segment_list(q, a),
        is_segment_list(q, b),
        n <= a.len(),
    ensures
        n <= b.len(),
        forall|i: int| 0 <= i < n ==> a[i] == b[i],
    decreases n,
{
    if n > 0 {
        lemma_prefix(q, a, b, (n - 1) as nat);
        let x = a[n - 1];
        assert(is_segment(q, x.0 as int, x.1 as int));
        assert(b.contains((x.0, x.1)));
        let j = choose|j: int| 0 <= j < b.len() && b[j] == x;
        if j < n - 1 {
            assert(a[j] == x);
            assert(a[j].1 < a[n - 1].0);
        }
        let y = b[n - 1];
        assert(is_segment(q, y.0 as int, y.1 as int));
        assert(a.contains((y.0, y.1)));
        let i = choose|i: int| 0 <= i < a.len() && a[i] == y;
        if i < n - 1 {
            assert(b[i] == y);
            assert(b[i].1 < b[n - 1].0);
        }
        if i > n - 1 {
            assert(a[n - 1].1 < a[i].0);
            assert(j > n - 1);
            assert(b[n - 1].1 < b[j].0);
        }
    }
}

/// Where the frame that is being looked at began.
#[derive(Clone, Copy)]
struct Start {
    index: usize,
    time: MediaTime,
    seq: u64,
}

/// Whether, before the entry `i` is looked at, `start` is where the frame that goes on there began.
spec fn tracks(q: Seq<Entry>, i: int, start: Option<Start>) -> bool {
    match start {
        Some(st) => {
            &&& st.index < i
            &&& opens(q, st.index as int)
            &&& joined(q, st.index as int, i - 1)
            &&& no_tail(q, st.index as int, i)
            &&& st.time == q[st.index as int].meta.time
            &&& st.seq == q[st.index as int].seq()
        },
        None => forall|t: int|
            #![trigger q[t]]
            0 <= t < i && q[t].head ==> !(joined(q, t, i - 1) && no_tail(q, t, i)),
    }
}

/// Whether the segment that ends at `e` is known before the entry `i` is looked at.
spec fn known(q: Seq<Entry>, i: int) -> spec_fn(int) -> bool {
    |e: int| e < i - 1 || (e == i - 1 && q[e].tail)
}

/// Whether `l` lists the segments known before the entry `i` is looked at.
spec fn listed(
    q: Seq<Entry>,
    i: int,
    l: Seq<(usize, usize)>,
    start: Option<Start>,
) -> bool {
    &&& lists(q, l, known(q, i))
    &&& start matches Some(st) ==> forall|k: int| 0 <= k < l.len() ==> (#[trigger] l[k]).1 < st.index
}

/// Whether the frame that `start` tracks goes on at the entry `i`.
spec fn continues(q: Seq<Entry>, i: int, start: Option<Start>) -> bool {
    start matches Some(st) && q[i].seq() == st.seq + (i - st.index) && st.time.same(q[i].meta.time)
}

/// Where the frame that goes on at the entry `i` began, once `i` has been compared to `start`.
spec fn after_check(q: Seq<Entry>, i: int, start: Option<Start>) -> Option<Start> {
    if continues(q, i, start) {
        start
    } else {
        None
    }
}

/// Where the frame that goes on at the entry `i` began, `i` itself counted.
spec fn after_head(q: Seq<Entry>, i: int, start: Option<Start>) -> Option<Start> {
    if after_check(q, i, start) is None && q[i].head {
        Some(Start { index: i as usize, time: q[i].meta.time, seq: q[i].meta.seq_no.0 })
    } else {
        after_check(q, i, start)
    }
}

/// Where the frame that goes on after the entry `i` began.
spec fn after_tail(q: Seq<Entry>, i: int, start: Option<Start>) -> Option<Start> {
    if q[i].tail {
        None
    } else {
        after_head(q, i, start)
    }
}

/// The list once `i` has been compared to `start`.
spec fn list_after_check(
    q: Seq<Entry>,
    i: int,
    start: Option<Start>,
    l: Seq<(usize, usize)>,
) -> Seq<(usize, usize)> {
    match start {
        Some(st) => if ends_by_time(q, st.index as int, i - 1) {
            l.push((st.index, (i - 1) as usize))
        } else {
            l
        },
        None => l,
    }
}

/// The list once the entry `i` has been looked at.
spec fn list_after_tail(
    q: Seq<Entry>,
    i: int,
    start: Option<Start>,
    l: Seq<(usize, usize)>,
) -> Seq<(usize, usize)> {
    let mid = list_after_check(q, i, start, l);
    match after_head(q, i, start) {
        Some(st) => if q[i].tail {
            mid.push((st.index, i as usize))
        } else {
            mid
        },
        None => mid,
    }
}

/// Where no frame goes on at the entry `i` after the comparison, none goes on there at all.
proof fn lemma_check_tracks(q: Seq<Entry>, i: int, start: Option<Start>)
    requires
        0 <= i < q.len(),
        tracks(q, i, start),
    ensures
        continues(q, i, start) ==> joined(q, start->0.index as int, i),
        !continues(q, i, start) ==> forall|t: int|
            #![trigger q[t]]
            0 <= t < i && q[t].head ==> !(joined(q, t, i) && no_tail(q, t, i)),
{
    if !continues(q, i, start) {
        assert forall|t: int| #![trigger q[t]] 0 <= t < i && q[t].head implies !(joined(q, t, i)
            && no_tail(q, t, i)) by {
            if joined(q, t, i) && no_tail(q, t, i) {
                assert(joined(q, t, i - 1));
                if let Some(st) = start {
                    let s = st.index as int;
                    if t < s {
                        assert(reaches(q, t, s));
                    } else {
                        lemma_joined_through(q, s, t, i);
                        assert(q[i].seq() == q[s].seq() + (i - s));
                    }
                }
            }
        }
    }
}

/// One entry further, the frame that goes on is still tracked.
proof fn lemma_step_tracks(q: Seq<Entry>, i: int, start: Option<Start>)
    requires
        0 <= i < q.len() <= usize::MAX,
        tracks(q, i, start),
    ensures
        after_head(q, i, start) matches Some(st) ==> opens(q, st.index as int) && st.index <= i
            && joined(q, st.index as int, i) && no_tail(q, st.index as int, i),
        after_head(q, i, start) is None ==> forall|t: int|
            #![trigger q[t]]
            0 <= t <= i && q[t].head ==> !(joined(q, t, i) && no_tail(q, t, i)),
        tracks(q, i + 1, after_tail(q, i, start)),
{
    lemma_check_tracks(q, i, start);
    if !continues(q, i, start) && q[i].head {
        assert forall|t: int| !reaches(q, t, i) by {
            if reaches(q, t, i) {
                assert(q[t].head);
            }
        }
        lemma_same_is_equivalence(q[i].meta.time, q[i].meta.time, q[i].meta.time);
        assert(joined(q, i, i));
    }
    assert forall|t: int| #![trigger q[t]] 0 <= t <= i && q[t].head && after_tail(
        q,
        i,
        start,
    ) is None implies !(joined(q, t, i) && no_tail(q, t, i + 1)) by {
        if joined(q, t, i) && no_tail(q, t, i + 1) {
            assert(!q[i].tail);
            assert(no_tail(q, t, i));
        }
    }
}

/// Comparing the entry `i` to the tracked frame lists all segments that end before `i`.
proof fn lemma_check_lists(q: Seq<Entry>, i: int, start: Option<Start>, l: Seq<(usize, usize)>)
    requires
        0 <= i < q.len() <= usize::MAX,
        tracks(q, i, start),
        listed(q, i, l, start),
    ensures
        lists(q, list_after_check(q, i, start, l), |e: int| e < i),
        after_head(q, i, start) matches Some(st) ==> forall|k: int|
            0 <= k < list_after_check(q, i, start, l).len() ==> (
            #[trigger] list_after_check(q, i, start, l)[k]).1 < st.index,
{
    let m = list_after_check(q, i, start, l);
    let keep = |e: int| e < i;
    assert forall|k: int| 0 <= k < m.len() implies is_segment(
        q,
        (#[trigger] m[k]).0 as int,
        m[k].1 as int,
    ) && keep(m[k].1 as int) by {
        if k < l.len() {
            assert(m[k] == l[k]);
            assert(known(q, i)(l[k].1 as int));
        }
    }
    assert forall|a: int, b: int| 0 <= a < b < m.len() implies (#[trigger] m[a]).1 < (
    #[trigger] m[b]).0 by {
        assert(m[a] == l[a]);
        if b < l.len() {
            assert(m[b] == l[b]);
        }
    }
    assert forall|s: usize, e: usize| is_segment(q, s as int, e as int) && keep(
        e as int,
    ) implies #[trigger] m.contains((s, e)) by {
        if known(q, i)(e as int) {
            assert(l.contains((s, e)));
            let k = choose|k: int| 0 <= k < l.len() && l[k] == (s, e);
            assert(m[k] == (s, e));
        } else {
            assert(e == i - 1 && !q[e as int].tail);
            assert(ends_by_time(q, s as int, i - 1));
            assert(no_tail(q, s as int, i));
            assert(q[s as int].head);
            assert(start is Some);
            let st = start->0;
            assert(no_tail(q, st.index as int, i - 1));
            lemma_one_open(q, s as int, st.index as int, i - 1);
            assert(m[l.len() as int] == (s, e));
        }
    }
}

/// One entry further, the list is complete again.
proof fn lemma_step_lists(q: Seq<Entry>, i: int, start: Option<Start>, l: Seq<(usize, usize)>)
    requires
        0 <= i < q.len() <= usize::MAX,
        tracks(q, i, start),
        listed(q, i, l, start),
    ensures
        listed(q, i + 1, list_after_tail(q, i, start, l), after_tail(q, i, start)),
{
    lemma_step_tracks(q, i, start);
    lemma_check_lists(q, i, start, l);
    let m = list_after_check(q, i, start, l);
    let n = list_after_tail(q, i, start, l);
    let keep = |e: int| e < i;
    assert forall|k: int| 0 <= k < n.len() implies is_segment(
        q,
        (#[trigger] n[k]).0 as int,
        n[k].1 as int,
    ) && known(q, i + 1)(n[k].1 as int) by {
        if k < m.len() {
            assert(n[k] == m[k]);
            assert(keep(m[k].1 as int));
        }
    }
    assert forall|a: int, b: int| 0 <= a < b < n.len() implies (#[trigger] n[a]).1 < (
    #[trigger] n[b]).0 by {
        assert(n[a] == m[a]);
        if b < m.len() {
            assert(n[b] == m[b]);
        }
    }
    assert forall|s: usize, e: usize| is_segment(q, s as int, e as int) && known(q, i + 1)(
        e as int,
    ) implies #[trigger] n.contains((s, e)) by {
        if e < i {
            assert(keep(e as int));
            assert(m.contains((s, e)));
            let k = choose|k: int| 0 <= k < m.len() && m[k] == (s, e);
            assert(n[k] == (s, e));
        } else {
            assert(e == i && q[i].tail);
            assert(q[s as int].head);
            assert(after_head(q, i, start) is Some);
            let st = after_head(q, i, start)->0;
            lemma_one_open(q, s as int, st.index as int, i);
            assert(n[m.len() as int] == (s, e));
        }
    }
}

/// Every queue has its list of segments: reading it from the front, entry by entry, finds them.
proof fn lemma_scan(q: Seq<Entry>, i: int) -> (r: (Option<Start>, Seq<(usize, usize)>))
    requires
        0 <= i <= q.len() <= usize::MAX,
    ensures
        tracks(q, i, r.0),
        listed(q, i, r.1, r.0),
    decreases i,
{
    if i == 0 {
        (None, Seq::empty())
    } else {
        let (start, l) = lemma_scan(q, i - 1);
        lemma_step_tracks(q, i - 1, start);
        lemma_step_lists(q, i - 1, start, l);
        (after_tail(q, i - 1, start), list_after_tail(q, i - 1, start, l))
    }
}

/// A list that holds all segments known at the end of the queue holds all segments.
proof fn lemma_scan_ends(q: Seq<Entry>, start: Option<Start>, l: Seq<(usize, usize)>)
    requires
        listed(q, q.len() as int, l, start),
    ensures
        is_segment_list(q, l),
        l == segments(q),
{
    assert forall|s: usize, e: usize| is_segment(q, s as int, e as int) implies #[trigger]
        l.contains((s, e)) by {
        assert(known(q, q.len() as int)(e as int));
    }
    assert(is_segment_list(q, l));
    lemma_segment_list_is_unique(q, l, segments(q));
}

/// The segments of a queue are exactly the runs of packets that make up a whole frame, listed in
/// order and without overlap.
pub proof fn lemma_segments(q: Seq<Entry>)
    requires
        q.len() <= usize::MAX,
    ensures
        is_segment_list(q, segments(q)),
{
    let (start, l) = lemma_scan(q, q.len() as int);
    lemma_scan_ends(q, start, l);
}

/// Finds the segments of the queue.
pub fn update_segments(queue: &VecDeque<Entry>, segments: &mut Vec<(usize, usize)>)
    ensures
        is_segment_list(queue@, final(segments)@),
        final(segments)@ == crate::packet::segments::segments(queue@),
{
    segments.clear();
    let mut start: Option<Start> = None;
    let mut index: usize = 0;
    while index < queue.len()
        invariant
            index <= queue@.len(),
            tracks(queue@, index as int, start),
            listed(queue@, index as int, segments@, start),
        decreases queue@.len() - index,
    {
        let ghost q = queue@;
        let ghost before = segments@;
        let ghost start0 = start;
        let entry = &queue[index];
        let seq: u64 = entry.meta.seq_no.0;
        let is_expected_seq = match start {
            Some(s) => s.seq <= seq && seq - s.seq == (index - s.index) as u64,
            None => false,
        };
        let is_same_timestamp = match start {
            Some(s) => s.time == entry.meta.time,
            None => false,
        };

        if let Some(s) = start {
            if is_expected_seq && !is_same_timestamp {
                // The time changed without a gap in the sequence numbers: the frame ended. The
                // marker bit is just indicative, this is the robust fallback.
                segments.push((s.index, index - 1));
                start = None;
            } else if !is_expected_seq {
                // Not contiguous. Start looking again.
                start = None;
            }
        }
        // A frame can have several heads, of which the first counts.
        if start.is_none() && entry.head {
            start = Some(Start { index, time: entry.meta.time, seq });
        }
        if let Some(s) = start {
            if entry.tail {
                // A run of packets that ends with one that says so itself.
                segments.push((s.index, index));
                start = None;
            }
        }
        proof {
            lemma_step_tracks(q, index as int, start0);
            lemma_step_lists(q, index as int, start0, before);
            assert(start == after_tail(q, index as int, start0));
            assert(segments@ == list_after_tail(q, index as int, start0, before));
        }
        index += 1;
    }
    proof {
        lemma_scan_ends(queue@, start, segments@);
    }
}

} // verus!
