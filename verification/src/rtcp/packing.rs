//! Packing items of feedback into as few packets as possible.

use vstd::prelude::*;

use std::collections::VecDeque;
use vstd::math::min;

use crate::header::Ssrc;
use crate::rtcp::feedback::{ReceiverReport, RtcpFb, SenderInfo};
use crate::rtcp::wire::{
    lemma_bytes_len, put_bye, put_receiver, put_sender, report_items, Packet, MAX_COUNT,
};

verus! {

/// Items of feedback, sorted by kind.
#[verifier::ext_equal]
pub struct Pending {
    pub infos: Seq<SenderInfo>,
    pub reports: Seq<ReceiverReport>,
    pub byes: Seq<Ssrc>,
}

/// The items of feedback sorted by kind, each kind in its order.
pub open spec fn sorted(fb: Seq<RtcpFb>) -> Pending
    decreases fb.len(),
{
    if fb.len() == 0 {
        Pending { infos: Seq::empty(), reports: Seq::empty(), byes: Seq::empty() }
    } else {
        let p = sorted(fb.drop_last());
        match fb.last() {
            RtcpFb::SenderInfo(i) => Pending { infos: p.infos.push(i), ..p },
            RtcpFb::ReceiverReport(r) => Pending { reports: p.reports.push(r), ..p },
            RtcpFb::Goodbye(s) => Pending { byes: p.byes.push(s), ..p },
        }
    }
}

/// How many blocks of `each` bytes a packet takes that has `fixed` bytes before them, given that
/// there are `n` blocks and `room` bytes.
pub open spec fn fill(room: int, fixed: int, each: int, n: int) -> int {
    min(min(n, MAX_COUNT as int), (room - fixed) / each)
}

impl Pending {
    /// All items: what senders say, then report blocks, then the ends of streams.
    pub open spec fn items(self) -> Seq<RtcpFb> {
        self.infos.map_values(|i: SenderInfo| RtcpFb::SenderInfo(i)) + report_items(self.reports)
            + self.byes.map_values(|s: Ssrc| RtcpFb::Goodbye(s))
    }

    /// How many items there are.
    pub open spec fn len(self) -> nat {
        self.infos.len() + self.reports.len() + self.byes.len()
    }

    /// Each kind of `self`, followed by the same kind of `other`.
    pub open spec fn then_all(self, other: Pending) -> Pending {
        Pending {
            infos: self.infos + other.infos,
            reports: self.reports + other.reports,
            byes: self.byes + other.byes,
        }
    }

    /// The next packet and what it leaves: a sender report, filled up with report blocks, as long
    /// as there is one to send; a receiver report for the blocks that remain; then goodbyes. `None`
    /// if nothing is left or it does not fit.
    pub open spec fn next(self, room: int) -> Option<(Packet, Pending)> {
        if self.infos.len() > 0 {
            let n = fill(room, 28, 24, self.reports.len() as int);
            if room < 28 {
                None
            } else {
                Some(
                    (
                        Packet::Sender(self.infos[0], self.reports.take(n)),
                        Pending {
                            infos: self.infos.skip(1),
                            reports: self.reports.skip(n),
                            ..self
                        },
                    ),
                )
            }
        } else if self.reports.len() > 0 {
            let n = fill(room, 8, 24, self.reports.len() as int);
            if room < 32 {
                None
            } else {
                Some(
                    (
                        Packet::Receiver(self.reports.take(n)),
                        Pending { reports: self.reports.skip(n), ..self },
                    ),
                )
            }
        } else if self.byes.len() > 0 {
            let n = fill(room, 4, 4, self.byes.len() as int);
            if room < 8 {
                None
            } else {
                Some((Packet::Bye(self.byes.take(n)), Pending { byes: self.byes.skip(n), ..self }))
            }
        } else {
            None
        }
    }

    /// The packets that fit in `room` bytes.
    pub open spec fn packets(self, room: int) -> Seq<Packet>
        decreases self.len(),
    {
        match self.next(room) {
            Some((p, rest)) => if rest.len() < self.len() {
                seq![p] + rest.packets(room - p.size())
            } else {
                Seq::empty()
            },
            None => Seq::empty(),
        }
    }

    /// What does not fit in `room` bytes.
    pub open spec fn left(self, room: int) -> Pending
        decreases self.len(),
    {
        match self.next(room) {
            Some((p, rest)) => if rest.len() < self.len() {
                rest.left(room - p.size())
            } else {
                self
            },
            None => self,
        }
    }
}

/// The bytes of packets, one after the other.
pub open spec fn wire(packets: Seq<Packet>) -> Seq<u8>
    decreases packets.len(),
{
    if packets.len() == 0 {
        Seq::empty()
    } else {
        packets[0].bytes() + wire(packets.skip(1))
    }
}

/// The items of feedback in packets.
pub open spec fn contents(packets: Seq<Packet>) -> Seq<RtcpFb>
    decreases packets.len(),
{
    if packets.len() == 0 {
        Seq::empty()
    } else {
        packets[0].items() + contents(packets.skip(1))
    }
}

/// Every packet takes at least one item, holds what its header can count, and fits.
pub(crate) proof fn lemma_next(p: Pending, room: int)
    ensures
        p.next(room) matches Some((packet, rest)) ==> {
            &&& rest.len() < p.len()
            &&& packet.is_countable()
            &&& packet.size() <= room
            &&& packet.size() % 4 == 0
        },
{
}

/// How many blocks a packet takes; see `fill`.
fn count_fitting(room: usize, fixed: usize, each: usize, n: usize) -> (r: usize)
    requires
        fixed <= room,
        0 < each,
    ensures
        r == fill(room as int, fixed as int, each as int, n as int),
        r <= n,
        r <= MAX_COUNT,
{
    let fitting: usize = (room - fixed) / each;
    if n <= MAX_COUNT && n <= fitting {
        n
    } else if fitting <= MAX_COUNT {
        fitting
    } else {
        MAX_COUNT
    }
}

/// A copy of `n` elements from `at` on.
fn copy_range<T: Copy>(v: &Vec<T>, at: usize, n: usize) -> (r: Vec<T>)
    requires
        at + n <= v@.len(),
    ensures
        r@ == v@.skip(at as int).take(n as int),
{
    let mut r: Vec<T> = Vec::new();
    let len: usize = v.len();
    let mut k: usize = 0;
    while k < n
        invariant
            k <= n,
            at + n <= v@.len() == len,
            r@ == v@.skip(at as int).take(k as int),
        decreases n - k,
    {
        r.push(v[at + k]);
        k += 1;
        assert(r@ =~= v@.skip(at as int).take(k as int));
    }
    r
}

/// Items of feedback, sorted by kind, of which the first of each kind have been taken.
struct Sorter {
    infos: Vec<SenderInfo>,
    reports: Vec<ReceiverReport>,
    byes: Vec<Ssrc>,
    info_at: usize,
    report_at: usize,
    bye_at: usize,
}

impl Sorter {
    /// Whether no more has been taken than there is.
    spec fn wf(self) -> bool {
        &&& self.info_at <= self.infos@.len()
        &&& self.report_at <= self.reports@.len()
        &&& self.bye_at <= self.byes@.len()
    }

    /// What has not been taken.
    spec fn pending(self) -> Pending {
        Pending {
            infos: self.infos@.skip(self.info_at as int),
            reports: self.reports@.skip(self.report_at as int),
            byes: self.byes@.skip(self.bye_at as int),
        }
    }

    /// Takes all items from the queue.
    fn drain(feedback: &mut VecDeque<RtcpFb>) -> (r: Sorter)
        ensures
            r.wf(),
            r.pending() == sorted(old(feedback)@),
            final(feedback)@.len() == 0,
    {
        let mut infos: Vec<SenderInfo> = Vec::new();
        let mut reports: Vec<ReceiverReport> = Vec::new();
        let mut byes: Vec<Ssrc> = Vec::new();
        let ghost all = feedback@;
        let ghost mut n: int = 0;
        proof {
            assert(all.take(0) =~= Seq::empty());
            assert(all.skip(0) =~= all);
        }
        loop
            invariant
                0 <= n <= all.len(),
                feedback@ == all.skip(n),
                sorted(all.take(n)) == (Pending {
                    infos: infos@,
                    reports: reports@,
                    byes: byes@,
                }),
            ensures
                n == all.len(),
                feedback@.len() == 0,
            decreases all.len() - n,
        {
            match feedback.pop_front() {
                Some(item) => {
                    proof {
                        assert(item == all[n]);
                        assert(feedback@ =~= all.skip(n + 1));
                        assert(all.take(n + 1).drop_last() =~= all.take(n));
                        assert(all.take(n + 1).last() == item);
                        n = n + 1;
                    }
                    match item {
                        RtcpFb::SenderInfo(i) => infos.push(i),
                        RtcpFb::ReceiverReport(r) => reports.push(r),
                        RtcpFb::Goodbye(s) => byes.push(s),
                    }
                },
                None => break,
            }
        }
        let r = Sorter { infos, reports, byes, info_at: 0, report_at: 0, bye_at: 0 };
        proof {
            assert(all.take(n) =~= all);
            assert(r.pending() =~= sorted(all));
        }
        r
    }

    /// Puts what has not been taken back in the queue.
    fn put_back(&self, feedback: &mut VecDeque<RtcpFb>)
        requires
            self.wf(),
            old(feedback)@.len() == 0,
        ensures
            final(feedback)@ == self.pending().items(),
    {
        let ghost p = self.pending();
        let ghost infos = p.infos.map_values(|i: SenderInfo| RtcpFb::SenderInfo(i));
        let ghost reports = report_items(p.reports);
        let ghost byes = p.byes.map_values(|s: Ssrc| RtcpFb::Goodbye(s));
        let mut k: usize = self.info_at;
        while k < self.infos.len()
            invariant
                self.info_at <= k <= self.infos@.len(),
                p == self.pending(),
                infos == p.infos.map_values(|i: SenderInfo| RtcpFb::SenderInfo(i)),
                feedback@ =~= infos.take(k - self.info_at),
            decreases self.infos@.len() - k,
        {
            feedback.push_back(RtcpFb::SenderInfo(self.infos[k]));
            k += 1;
        }
        k = self.report_at;
        while k < self.reports.len()
            invariant
                self.report_at <= k <= self.reports@.len(),
                p == self.pending(),
                reports == report_items(p.reports),
                feedback@ =~= infos + reports.take(k - self.report_at),
            decreases self.reports@.len() - k,
        {
            feedback.push_back(RtcpFb::ReceiverReport(self.reports[k]));
            k += 1;
        }
        k = self.bye_at;
        while k < self.byes.len()
            invariant
                self.bye_at <= k <= self.byes@.len(),
                p == self.pending(),
                byes == p.byes.map_values(|s: Ssrc| RtcpFb::Goodbye(s)),
                feedback@ =~= infos + reports + byes.take(k - self.bye_at),
            decreases self.byes@.len() - k,
        {
            feedback.push_back(RtcpFb::Goodbye(self.byes[k]));
            k += 1;
        }
        assert(feedback@ =~= p.items());
    }

    /// Appends the next packet, if it fits in `room` bytes. Answers whether it did.
    fn put_next(&mut self, out: &mut Vec<u8>, room: usize) -> (r: bool)
        requires
            old(self).wf(),
        ensures
            final(self).wf(),
            match old(self).pending().next(room as int) {
                Some((packet, rest)) => {
                    &&& r
                    &&& final(self).pending() == rest
                    &&& final(out)@ == old(out)@ + packet.bytes()
                },
                None => {
                    &&& !r
                    &&& final(self).pending() == old(self).pending()
                    &&& final(out)@ == old(out)@
                },
            },
    {
        let ghost before = self.pending();
        if self.info_at < self.infos.len() {
            if room < 28 {
                return false;
            }
            let n: usize = count_fitting(room, 28, 24, self.reports.len() - self.report_at);
            let reports = copy_range(&self.reports, self.report_at, n);
            put_sender(out, &self.infos[self.info_at], &reports);
            self.info_at += 1;
            self.report_at += n;
            assert(self.pending().infos =~= before.infos.skip(1));
            assert(self.pending().reports =~= before.reports.skip(n as int));
            true
        } else if self.report_at < self.reports.len() {
            if room < 32 {
                return false;
            }
            let n: usize = count_fitting(room, 8, 24, self.reports.len() - self.report_at);
            let reports = copy_range(&self.reports, self.report_at, n);
            put_receiver(out, &reports);
            self.report_at += n;
            assert(self.pending().reports =~= before.reports.skip(n as int));
            true
        } else if self.bye_at < self.byes.len() {
            if room < 8 {
                return false;
            }
            let n: usize = count_fitting(room, 4, 4, self.byes.len() - self.bye_at);
            let byes = copy_range(&self.byes, self.bye_at, n);
            put_bye(out, &byes);
            self.bye_at += n;
            assert(self.pending().byes =~= before.byes.skip(n as int));
            true
        } else {
            false
        }
    }
}

impl RtcpFb {
    /// Writes feedback to the start of `buf`, as much of it as fits, and answers how many bytes it
    /// takes. What is written is taken from the queue.
    pub fn build_feedback(feedback: &mut VecDeque<RtcpFb>, buf: &mut Vec<u8>) -> (n: usize)
        ensures
            ({
                let pending = sorted(old(feedback)@);
                let room = old(buf)@.len() as int;
                let bytes = wire(pending.packets(room));
                &&& n == bytes.len() <= room
                &&& final(buf)@ == bytes + old(buf)@.skip(n as int)
                &&& final(feedback)@ == pending.left(room).items()
            }),
    {
        let len: usize = buf.len();
        let ghost room = len as int;
        let mut sorter = Sorter::drain(feedback);
        let ghost pending = sorter.pending();
        let mut out: Vec<u8> = Vec::new();
        loop
            invariant
                sorter.wf(),
                out@.len() <= len == room,
                wire(pending.packets(room)) == out@ + wire(
                    sorter.pending().packets(room - out@.len()),
                ),
                pending.left(room) == sorter.pending().left(room - out@.len()),
            ensures
                sorter.wf(),
                out@.len() <= len,
                wire(pending.packets(room)) == out@,
                pending.left(room) == sorter.pending(),
            decreases sorter.pending().len(),
        {
            let ghost before = sorter.pending();
            let ghost done = out@;
            proof {
                lemma_next(before, room - done.len());
            }
            let left: usize = len - out.len();
            let more = sorter.put_next(&mut out, left);
            if !more {
                assert(out@ + Seq::<u8>::empty() =~= out@);
                break;
            }
            proof {
                let (packet, rest) = before.next(left as int)->0;
                lemma_bytes_len(packet);
                let packets = before.packets(left as int);
                assert(packets == seq![packet] + rest.packets(left - packet.size()));
                assert(packets.skip(1) =~= rest.packets(left - packet.size()));
                assert(done + (packet.bytes() + wire(packets.skip(1))) =~= out@ + wire(
                    packets.skip(1),
                ));
            }
        }
        sorter.put_back(feedback);
        let n: usize = out.len();
        let mut i: usize = 0;
        while i < n
            invariant
                i <= n == out@.len() <= buf@.len() == old(buf)@.len(),
                buf@ =~= out@.take(i as int) + old(buf)@.skip(i as int),
            decreases n - i,
        {
            buf[i] = out[i];
            i += 1;
        }
        assert(out@.take(n as int) =~= out@);
        n
    }
}

} // verus!
