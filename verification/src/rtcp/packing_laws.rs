//! How much feedback goes out at once, told in bytes.

use vstd::prelude::*;

use crate::header::Ssrc;
use crate::rtcp::feedback::{ReceiverReport, RtcpFb, SenderInfo};
use crate::rtcp::laws::lemma_packing_fits;
use crate::rtcp::packing::{contents, lemma_next, sorted, wire, Pending};
use crate::rtcp::wire::{lemma_bytes_len, report_items, Packet};

verus! {

/// Whether one of the items is what a sender says.
pub open spec fn has_info(items: Seq<RtcpFb>) -> bool {
    exists|k: int| 0 <= k < items.len() && (#[trigger] items[k]) is SenderInfo
}

/// Whether one of the items is a report.
pub open spec fn has_report(items: Seq<RtcpFb>) -> bool {
    exists|k: int| 0 <= k < items.len() && (#[trigger] items[k]) is ReceiverReport
}

/// What stays in the queue does not fit, by its own size: for a sender report 28 bytes are missing,
/// else for a receiver report 32, else for a goodbye 8.
pub proof fn law_what_stays_does_not_fit(queue: Seq<RtcpFb>, room: int)
    requires
        room >= 0,
    ensures
        ({
            let n = wire(sorted(queue).packets(room)).len();
            let stays = sorted(queue).left(room).items();
            &&& has_info(stays) ==> room - n < 28
            &&& !has_info(stays) && has_report(stays) ==> room - n < 32
            &&& !has_info(stays) && !has_report(stays) && stays.len() > 0 ==> room - n < 8
        }),
{
    let p = sorted(queue);
    let left = p.left(room);
    let stays = left.items();
    lemma_packing_fits(p, room);
    let infos = left.infos.map_values(|i: SenderInfo| RtcpFb::SenderInfo(i));
    let reports = report_items(left.reports);
    if left.infos.len() > 0 {
        assert(stays[0] == infos[0]);
        assert(has_info(stays));
    } else {
        assert forall|k: int| 0 <= k < stays.len() implies !((#[trigger] stays[k]) is SenderInfo) by {
            if k < reports.len() {
                assert(stays[k] == reports[k]);
            }
        }
        if left.reports.len() > 0 {
            assert(stays[0] == reports[0]);
            assert(has_report(stays));
        }
    }
}

/// Where there is room for it, a sender report goes out first, whatever else is in the queue.
pub proof fn law_sender_reports_go_out(queue: Seq<RtcpFb>, room: int)
    requires
        room >= 28,
        has_info(queue),
    ensures
        wire(sorted(queue).packets(room)).len() >= 28,
        sorted(queue).packets(room).len() > 0,
        sorted(queue).packets(room)[0] matches Packet::Sender(info, _) && queue.contains(
            RtcpFb::SenderInfo(info),
        ),
{
    let p = sorted(queue);
    law_kinds_are_sorted_out(queue);
    let k = choose|k: int| 0 <= k < queue.len() && (#[trigger] queue[k]) is SenderInfo;
    let f = |x: RtcpFb| x is SenderInfo;
    lemma_filter_has(queue, f, k);
    lemma_next(p, room);
    let (packet, rest) = p.next(room)->0;
    lemma_bytes_len(packet);
    let packets = p.packets(room);
    assert(packets == seq![packet] + rest.packets(room - packet.size()));
    let infos = p.infos.map_values(|i: SenderInfo| RtcpFb::SenderInfo(i));
    assert(infos[0] == RtcpFb::SenderInfo(p.infos[0]));
    lemma_filter_from(queue, f, 0);
}

/// What a filter lets through is there.
proof fn lemma_filter_has(s: Seq<RtcpFb>, f: spec_fn(RtcpFb) -> bool, k: int)
    requires
        0 <= k < s.len(),
        f(s[k]),
    ensures
        s.filter(f).len() > 0,
    decreases s.len(),
{
    reveal(Seq::filter);
    if k < s.len() - 1 {
        lemma_filter_has(s.drop_last(), f, k);
    }
}

/// What a filter lets through came from the sequence.
proof fn lemma_filter_from(s: Seq<RtcpFb>, f: spec_fn(RtcpFb) -> bool, k: int)
    requires
        0 <= k < s.filter(f).len(),
    ensures
        s.contains(s.filter(f)[k]),
    decreases s.len(),
{
    reveal(Seq::filter);
    if s.len() > 0 {
        let t = s.drop_last();
        if k < t.filter(f).len() {
            lemma_filter_from(t, f, k);
            let j = choose|j: int| 0 <= j < t.len() && t[j] == t.filter(f)[k];
            assert(s[j] == s.filter(f)[k]);
        } else {
            assert(s[s.len() - 1] == s.filter(f)[k]);
        }
    }
}

/// Sorting picks out each kind of item, and keeps the order within it.
pub proof fn law_kinds_are_sorted_out(queue: Seq<RtcpFb>)
    ensures
        sorted(queue).infos.map_values(|i: SenderInfo| RtcpFb::SenderInfo(i)) == queue.filter(
            |x: RtcpFb| x is SenderInfo,
        ),
        sorted(queue).reports.map_values(|r: ReceiverReport| RtcpFb::ReceiverReport(r))
            == queue.filter(|x: RtcpFb| x is ReceiverReport),
        sorted(queue).byes.map_values(|s: Ssrc| RtcpFb::Goodbye(s)) == queue.filter(
            |x: RtcpFb| x is Goodbye,
        ),
    decreases queue.len(),
{
    reveal(Seq::filter);
    let p = sorted(queue);
    let infos = p.infos.map_values(|i: SenderInfo| RtcpFb::SenderInfo(i));
    let reports = p.reports.map_values(|r: ReceiverReport| RtcpFb::ReceiverReport(r));
    let byes = p.byes.map_values(|s: Ssrc| RtcpFb::Goodbye(s));
    if queue.len() > 0 {
        law_kinds_are_sorted_out(queue.drop_last());
        let o = sorted(queue.drop_last());
        let infos0 = o.infos.map_values(|i: SenderInfo| RtcpFb::SenderInfo(i));
        let reports0 = o.reports.map_values(|r: ReceiverReport| RtcpFb::ReceiverReport(r));
        let byes0 = o.byes.map_values(|s: Ssrc| RtcpFb::Goodbye(s));
        match queue.last() {
            RtcpFb::SenderInfo(_) => {
                assert(infos =~= infos0.push(queue.last()));
            },
            RtcpFb::ReceiverReport(_) => {
                assert(reports =~= reports0.push(queue.last()));
            },
            RtcpFb::Goodbye(_) => {
                assert(byes =~= byes0.push(queue.last()));
            },
        }
    } else {
        assert(infos =~= Seq::empty() && reports =~= Seq::empty() && byes =~= Seq::empty());
    }
}

/// How many packets of up to 31 blocks it takes.
pub open spec fn packets_for(blocks: int) -> int {
    if blocks > 0 {
        (blocks + 30) / 31
    } else {
        0
    }
}

/// The bytes that all feedback takes: 28 for each sender report and 24 for each report block; 8 for
/// each receiver report that is needed for what the sender reports do not hold; 4 for each stream
/// that ends, and 4 for each goodbye that is needed.
pub open spec fn whole_size(infos: int, reports: int, byes: int) -> int {
    28 * infos + 24 * reports + 8 * packets_for(reports - 31 * infos) + 4 * byes + 4 * packets_for(
        byes,
    )
}

/// Feedback goes out in as few packets as possible: where there is room for it, all of it does, in
/// just the bytes that it takes.
pub proof fn law_all_goes_out_in_few_packets(p: Pending, room: int)
    requires
        room >= whole_size(p.infos.len() as int, p.reports.len() as int, p.byes.len() as int),
    ensures
        p.left(room).len() == 0,
        wire(p.packets(room)).len() == whole_size(
            p.infos.len() as int,
            p.reports.len() as int,
            p.byes.len() as int,
        ),
    decreases p.len(),
{
    let (s, r, b) = (p.infos.len() as int, p.reports.len() as int, p.byes.len() as int);
    lemma_next(p, room);
    if p.len() > 0 {
        lemma_room_for_next(p, room);
        let (packet, rest) = p.next(room)->0;
        let more = room - packet.size();
        law_all_goes_out_in_few_packets(rest, more);
        lemma_bytes_len(packet);
        let packets = p.packets(room);
        assert(packets == seq![packet] + rest.packets(more));
        assert(packets.skip(1) =~= rest.packets(more));
        assert(wire(packets) == packet.bytes() + wire(rest.packets(more)));
    }
}

/// Where there is room for all, the next packet is as full as its header can count.
proof fn lemma_room_for_next(p: Pending, room: int)
    requires
        p.len() > 0,
        room >= whole_size(p.infos.len() as int, p.reports.len() as int, p.byes.len() as int),
    ensures
        p.next(room) matches Some((packet, rest)) && whole_size(
            rest.infos.len() as int,
            rest.reports.len() as int,
            rest.byes.len() as int,
        ) + packet.size() == whole_size(
            p.infos.len() as int,
            p.reports.len() as int,
            p.byes.len() as int,
        ),
{
    let (s, r, b) = (p.infos.len() as int, p.reports.len() as int, p.byes.len() as int);
    let few = if r < 31 {
        r
    } else {
        31
    };
    if s > 0 {
        assert(packets_for(r - 31 * s) >= 0);
        assert(room - 28 >= 24 * few);
        assert((room - 28) / 24 >= few);
    } else if r > 0 {
        assert(packets_for(r) >= 1);
        assert((room - 8) / 24 >= few);
    } else {
        assert(packets_for(b) >= 1);
        let few = if b < 31 {
            b
        } else {
            31
        };
        assert((room - 4) / 4 >= few);
    }
}

/// One packet after the other: each takes the first sender report, if there is one, with the first
/// report blocks; else the first report blocks; else the first goodbyes. It takes blocks until none
/// is left, until it has 31, or until the next does not fit. What it leaves is packed in the room
/// that it leaves.
pub proof fn law_packets_are_filled(p: Pending, room: int)
    requires
        p.packets(room).len() > 0,
    ensures
        ({
            let packet = p.packets(room)[0];
            let k = match packet {
                Packet::Sender(_, reports) => reports.len() as int,
                Packet::Receiver(reports) => reports.len() as int,
                Packet::Bye(byes) => byes.len() as int,
            };
            let rest = match packet {
                Packet::Sender(_, _) => Pending {
                    infos: p.infos.skip(1),
                    reports: p.reports.skip(k),
                    ..p
                },
                Packet::Receiver(_) => Pending { reports: p.reports.skip(k), ..p },
                Packet::Bye(_) => Pending { byes: p.byes.skip(k), ..p },
            };
            let fixed = match packet {
                Packet::Sender(_, _) => 28int,
                Packet::Receiver(_) => 8,
                Packet::Bye(_) => 4,
            };
            let each = if packet is Bye {
                4int
            } else {
                24
            };
            let all = if packet is Bye {
                p.byes.len()
            } else {
                p.reports.len()
            };
            &&& packet is Sender <==> p.infos.len() > 0
            &&& packet is Receiver <==> p.infos.len() == 0 && p.reports.len() > 0
            &&& packet matches Packet::Sender(info, reports) ==> info == p.infos[0] && reports
                == p.reports.take(k)
            &&& packet matches Packet::Receiver(reports) ==> reports == p.reports.take(k)
            &&& packet matches Packet::Bye(byes) ==> byes == p.byes.take(k)
            &&& 0 <= k <= all && k <= 31 && packet.bytes().len() == fixed + each * k <= room
            &&& k == all || k == 31 || room - packet.bytes().len() < each
            &&& packet is Sender || k > 0
            &&& p.packets(room).skip(1) == rest.packets(room - packet.bytes().len())
            &&& p.left(room) == rest.left(room - packet.bytes().len())
        }),
{
    lemma_next(p, room);
    let (packet, rest) = p.next(room)->0;
    lemma_bytes_len(packet);
    let packets = p.packets(room);
    assert(packets == seq![packet] + rest.packets(room - packet.size()));
    assert(packets.skip(1) =~= rest.packets(room - packet.size()));
}

/// The bytes of packets that follow each other are those of the first ones, then those of the others,
/// and so are their items; those of one packet are its own.
pub proof fn law_packets_join(a: Seq<Packet>, b: Seq<Packet>, p: Packet)
    ensures
        wire(a + b) == wire(a) + wire(b),
        contents(a + b) == contents(a) + contents(b),
        wire(seq![p]) == p.bytes(),
        contents(seq![p]) == p.items(),
    decreases a.len(),
{
    reveal_with_fuel(wire, 2);
    reveal_with_fuel(contents, 2);
    assert(seq![p].skip(1) =~= Seq::empty());
    assert(wire(seq![p]) =~= p.bytes());
    assert(contents(seq![p]) =~= p.items());
    if a.len() == 0 {
        assert(a + b =~= b);
        assert(wire(a) + wire(b) =~= wire(b));
        assert(contents(a) + contents(b) =~= contents(b));
    } else {
        law_packets_join(a.skip(1), b, p);
        assert((a + b).skip(1) =~= a.skip(1) + b);
        assert(wire(a + b) =~= wire(a) + wire(b));
        assert(contents(a + b) =~= contents(a) + contents(b));
    }
}

} // verus!
