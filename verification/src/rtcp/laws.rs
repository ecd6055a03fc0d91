//! What holds of feedback on its way over the wire.

use vstd::prelude::*;

use crate::header::Ssrc;
use crate::rtcp::feedback::{ReceiverReport, RtcpFb, SenderInfo};
use crate::rtcp::packing::{contents, lemma_next, sorted, wire, Pending};
use crate::rtcp::wire::{
    all_items, be16, be24, be32, block_at, block_bytes, blocks_at, blocks_bytes, byes_at,
    has_packet, info_at, info_bytes, lemma_be_len, lemma_bytes_len, packet_items, report_items,
    ssrcs_bytes, stated_size, u16_at, u24_at, u32_at, Packet, GOODBYE, RECEIVER_REPORT, SENDER_REPORT,
};
use crate::time::{law_ntp_round_trip, MediaTime};

verus! {

/// What a sender says, as it arrives: its time to the nearest microsecond.
pub open spec fn arrived_info(i: SenderInfo) -> SenderInfo {
    SenderInfo {
        ntp_time: MediaTime::spec_from_ntp_64(i.ntp_time.spec_as_ntp_64() as u64),
        ..i
    }
}

/// A report block, as it arrives: its count of lost packets in 24 bits.
pub open spec fn arrived_report(r: ReceiverReport) -> ReceiverReport {
    ReceiverReport { packets_lost: (r.packets_lost % 0x100_0000) as u32, ..r }
}

/// An item of feedback, as it arrives.
pub open spec fn arrived(item: RtcpFb) -> RtcpFb {
    match item {
        RtcpFb::SenderInfo(i) => RtcpFb::SenderInfo(arrived_info(i)),
        RtcpFb::ReceiverReport(r) => RtcpFb::ReceiverReport(arrived_report(r)),
        RtcpFb::Goodbye(s) => RtcpFb::Goodbye(s),
    }
}

/// A 32 bit number is read as it was written.
pub(crate) proof fn lemma_u32(b: Seq<u8>, i: int, v: int)
    requires
        0 <= v < 0x1_0000_0000,
        forall|k: int| 0 <= k < 4 ==> b[i + k] == #[trigger] be32(v)[k],
    ensures
        u32_at(b, i) == v,
{
    reveal(be32);
    reveal(u32_at);
    assert(b[i + 0] == be32(v)[0]);
    assert(b[i + 1] == be32(v)[1]);
    assert(b[i + 2] == be32(v)[2]);
    assert(b[i + 3] == be32(v)[3]);
}

/// The lower 24 bits of a number are read as they were written.
pub(crate) proof fn lemma_u24(b: Seq<u8>, i: int, v: int)
    requires
        0 <= v,
        b[i] == be24(v)[0],
        b[i + 1] == be24(v)[1],
        b[i + 2] == be24(v)[2],
    ensures
        u24_at(b, i) == v % 0x100_0000,
{
    let low = v % 0x100_0000;
    assert(v / 0x1_0000 % 0x100 == low / 0x1_0000);
    assert(v / 0x100 % 0x100 == low / 0x100 % 0x100);
    assert(v % 0x100 == low % 0x100);
    assert(low / 0x1_0000 * 0x1_0000 + low / 0x100 % 0x100 * 0x100 + low % 0x100 == low);
    reveal(be24);
    reveal(u24_at);
}

/// What a sender says is read as it was written.
proof fn lemma_info(b: Seq<u8>, i: int, info: SenderInfo)
    requires
        forall|k: int| 0 <= k < 24 ==> b[i + k] == #[trigger] info_bytes(info)[k],
    ensures
        info_at(b, i) == arrived_info(info),
{
    broadcast use lemma_be_len;

    let w = info_bytes(info);
    let ntp = info.ntp_time.spec_as_ntp_64();
    info.ntp_time.denom.lemma_positive();
    assert(0 <= ntp < 0x1_0000_0000_0000_0000) by {
        if info.ntp_time.numer >= 0 {
            let x = (info.ntp_time.numer * 0x1_0000_0000) / info.ntp_time.denom.hz();
            assert(0 <= x % 0x1_0000_0000_0000_0000 < 0x1_0000_0000_0000_0000);
        }
    }
    assert forall|k: int| 0 <= k < 4 implies b[i + k] == #[trigger] be32(info.ssrc.0 as int)[k] by {
        assert(b[i + k] == w[k]);
    }
    lemma_u32(b, i, info.ssrc.0 as int);
    assert forall|k: int| 0 <= k < 4 implies b[i + 4 + k] == #[trigger] be32(
        ntp / 0x1_0000_0000,
    )[k] by {
        assert(b[i + (4 + k)] == w[4 + k]);
    }
    lemma_u32(b, i + 4, ntp / 0x1_0000_0000);
    assert forall|k: int| 0 <= k < 4 implies b[i + 8 + k] == #[trigger] be32(
        ntp % 0x1_0000_0000,
    )[k] by {
        assert(b[i + (8 + k)] == w[8 + k]);
    }
    lemma_u32(b, i + 8, ntp % 0x1_0000_0000);
    assert forall|k: int| 0 <= k < 4 implies b[i + 12 + k] == #[trigger] be32(
        info.rtp_time as int,
    )[k] by {
        assert(b[i + (12 + k)] == w[12 + k]);
    }
    lemma_u32(b, i + 12, info.rtp_time as int);
    assert forall|k: int| 0 <= k < 4 implies b[i + 16 + k] == #[trigger] be32(
        info.sender_packet_count as int,
    )[k] by {
        assert(b[i + (16 + k)] == w[16 + k]);
    }
    lemma_u32(b, i + 16, info.sender_packet_count as int);
    assert forall|k: int| 0 <= k < 4 implies b[i + 20 + k] == #[trigger] be32(
        info.sender_octet_count as int,
    )[k] by {
        assert(b[i + (20 + k)] == w[20 + k]);
    }
    lemma_u32(b, i + 20, info.sender_octet_count as int);
    assert(ntp / 0x1_0000_0000 * 0x1_0000_0000 + ntp % 0x1_0000_0000 == ntp);
}

/// A report block is read as it was written.
proof fn lemma_block(b: Seq<u8>, i: int, r: ReceiverReport)
    requires
        forall|k: int| 0 <= k < 24 ==> b[i + k] == #[trigger] block_bytes(r)[k],
    ensures
        block_at(b, i) == arrived_report(r),
{
    broadcast use lemma_be_len;

    let w = block_bytes(r);
    assert forall|k: int| 0 <= k < 4 implies b[i + k] == #[trigger] be32(r.ssrc.0 as int)[k] by {
        assert(b[i + k] == w[k]);
    }
    lemma_u32(b, i, r.ssrc.0 as int);
    assert(b[i + 4] == w[4]);
    assert(b[i + 5] == w[5] && w[5] == be24(r.packets_lost as int)[0]);
    assert(b[i + 6] == w[6] && w[6] == be24(r.packets_lost as int)[1]);
    assert(b[i + 7] == w[7] && w[7] == be24(r.packets_lost as int)[2]);
    lemma_u24(b, i + 5, r.packets_lost as int);
    assert forall|k: int| 0 <= k < 4 implies b[i + 8 + k] == #[trigger] be32(r.max_seq as int)[k] by {
        assert(b[i + (8 + k)] == w[8 + k]);
    }
    lemma_u32(b, i + 8, r.max_seq as int);
    assert forall|k: int| 0 <= k < 4 implies b[i + 12 + k] == #[trigger] be32(r.jitter as int)[k] by {
        assert(b[i + (12 + k)] == w[12 + k]);
    }
    lemma_u32(b, i + 12, r.jitter as int);
    assert forall|k: int| 0 <= k < 4 implies b[i + 16 + k] == #[trigger] be32(
        r.last_sr_time as int,
    )[k] by {
        assert(b[i + (16 + k)] == w[16 + k]);
    }
    lemma_u32(b, i + 16, r.last_sr_time as int);
    assert forall|k: int| 0 <= k < 4 implies b[i + 20 + k] == #[trigger] be32(
        r.last_sr_delay as int,
    )[k] by {
        assert(b[i + (20 + k)] == w[20 + k]);
    }
    lemma_u32(b, i + 20, r.last_sr_delay as int);
}

/// Report blocks are read as they were written.
proof fn lemma_blocks(b: Seq<u8>, i: int, reports: Seq<ReceiverReport>)
    requires
        b.len() == i + 24 * reports.len(),
        0 <= i,
        forall|k: int| 0 <= k < 24 * reports.len() ==> b[i + k] == #[trigger] blocks_bytes(reports)[k],
    ensures
        blocks_at(b, i, reports.len() as int) == report_items(reports).map_values(
            |f: RtcpFb| arrived(f),
        ),
{
    let w = blocks_bytes(reports);
    assert forall|n: int| 0 <= n < reports.len() implies block_at(b, i + 24 * n) == arrived_report(
        #[trigger] reports[n],
    ) by {
        assert forall|k: int| 0 <= k < 24 implies b[i + 24 * n + k] == #[trigger] block_bytes(
            reports[n],
        )[k] by {
            let at = 24 * n + k;
            assert(b[i + at] == w[at]);
            assert(at / 24 == n);
            assert(at % 24 == k);
        }
        lemma_block(b, i + 24 * n, reports[n]);
    }
    assert(blocks_at(b, i, reports.len() as int) =~= report_items(reports).map_values(
        |f: RtcpFb| arrived(f),
    ));
}

/// A sender report is read as it was written.
proof fn lemma_sender(info: SenderInfo, reports: Seq<ReceiverReport>)
    requires
        reports.len() <= 31,
    ensures
        packet_items(Packet::Sender(info, reports).bytes()) == Packet::Sender(
            info,
            reports,
        ).items().map_values(|f: RtcpFb| arrived(f)),
{
    broadcast use lemma_be_len;

    let p = Packet::Sender(info, reports);
    let b = p.bytes();
    let n = reports.len() as int;
    assert(info_bytes(info).len() == 24);
    assert(b.len() == 28 + 24 * n);
    assert(b[0] == 0x80 + n && b[1] == SENDER_REPORT);
    assert forall|k: int| 0 <= k < 24 implies b[4 + k] == #[trigger] info_bytes(info)[k] by {}
    lemma_info(b, 4, info);
    assert forall|k: int| 0 <= k < 24 * n implies b[28 + k] == #[trigger] blocks_bytes(
        reports,
    )[k] by {}
    lemma_blocks(b, 28, reports);
    assert(packet_items(b) == seq![RtcpFb::SenderInfo(arrived_info(info))] + report_items(
        reports,
    ).map_values(|f: RtcpFb| arrived(f)));
    assert(packet_items(b) =~= p.items().map_values(|f: RtcpFb| arrived(f)));
}

/// A receiver report is read as it was written.
proof fn lemma_receiver(reports: Seq<ReceiverReport>)
    requires
        reports.len() <= 31,
    ensures
        packet_items(Packet::Receiver(reports).bytes()) == Packet::Receiver(
            reports,
        ).items().map_values(|f: RtcpFb| arrived(f)),
{
    broadcast use lemma_be_len;

    let b = Packet::Receiver(reports).bytes();
    let n = reports.len() as int;
    assert(b.len() == 8 + 24 * n);
    assert(b[0] == 0x80 + n && b[1] == RECEIVER_REPORT);
    assert forall|k: int| 0 <= k < 24 * n implies b[8 + k] == #[trigger] blocks_bytes(
        reports,
    )[k] by {}
    lemma_blocks(b, 8, reports);
}

/// A goodbye is read as it was written.
proof fn lemma_bye(ssrcs: Seq<Ssrc>)
    requires
        ssrcs.len() <= 31,
    ensures
        packet_items(Packet::Bye(ssrcs).bytes()) == Packet::Bye(ssrcs).items().map_values(
            |f: RtcpFb| arrived(f),
        ),
{
    broadcast use lemma_be_len;

    let b = Packet::Bye(ssrcs).bytes();
    let len = ssrcs.len() as int;
    assert(b.len() == 4 + 4 * len);
    assert(b[0] == 0x80 + len && b[1] == GOODBYE);
    assert forall|n: int| 0 <= n < len implies u32_at(b, 4 + 4 * n) == (#[trigger] ssrcs[n]).0 by {
        assert forall|k: int| 0 <= k < 4 implies b[4 + 4 * n + k] == #[trigger] be32(
            ssrcs[n].0 as int,
        )[k] by {
            let at = 4 * n + k;
            assert(b[4 + at] == ssrcs_bytes(ssrcs)[at]);
            assert(at / 4 == n);
            assert(at % 4 == k);
        }
        lemma_u32(b, 4 + 4 * n, ssrcs[n].0 as int);
    }
    assert(packet_items(b) == byes_at(b, 4, len));
    assert(byes_at(b, 4, len) =~= Packet::Bye(ssrcs).items().map_values(|f: RtcpFb| arrived(f)));
}

/// A packet is read as it was written.
pub proof fn law_packet_round_trip(p: Packet)
    requires
        p.is_countable(),
    ensures
        packet_items(p.bytes()) == p.items().map_values(|f: RtcpFb| arrived(f)),
{
    match p {
        Packet::Sender(info, reports) => lemma_sender(info, reports),
        Packet::Receiver(reports) => lemma_receiver(reports),
        Packet::Bye(ssrcs) => lemma_bye(ssrcs),
    }
}

/// A packet at the start of a buffer is found, whatever follows it.
proof fn lemma_first_packet(p: Packet, rest: Seq<u8>)
    requires
        p.is_countable(),
    ensures
        all_items(p.bytes() + rest) == packet_items(p.bytes()) + all_items(rest),
{
    broadcast use lemma_be_len;

    let b = p.bytes() + rest;
    lemma_bytes_len(p);
    assert(u16_at(p.bytes(), 2) == p.size() / 4 - 1) by {
        reveal(be16);
    }
    assert(b[2] == p.bytes()[2] && b[3] == p.bytes()[3]);
    assert(stated_size(b) == p.size());
    assert(has_packet(b));
    assert(b.take(p.size() as int) =~= p.bytes());
    assert(b.skip(p.size() as int) =~= rest);
}

/// Reading gives back what was written: the items of the packets, in their order.
pub proof fn law_wire_round_trip(packets: Seq<Packet>)
    requires
        forall|k: int| 0 <= k < packets.len() ==> (#[trigger] packets[k]).is_countable(),
    ensures
        all_items(wire(packets)) == contents(packets).map_values(|f: RtcpFb| arrived(f)),
    decreases packets.len(),
{
    if packets.len() > 0 {
        let rest = packets.skip(1);
        law_wire_round_trip(rest);
        lemma_first_packet(packets[0], wire(rest));
        law_packet_round_trip(packets[0]);
        assert((packets[0].items() + contents(rest)).map_values(|f: RtcpFb| arrived(f))
            =~= packets[0].items().map_values(|f: RtcpFb| arrived(f)) + contents(rest).map_values(
            |f: RtcpFb| arrived(f),
        ));
    } else {
        assert(contents(packets).map_values(|f: RtcpFb| arrived(f)) =~= Seq::empty());
    }
}

/// Sorting what stands before and what stands behind gives the same as sorting both together.
proof fn lemma_sorted_join(a: Seq<RtcpFb>, b: Seq<RtcpFb>)
    ensures
        sorted(a + b) == sorted(a).then_all(sorted(b)),
    decreases b.len(),
{
    if b.len() == 0 {
        assert(a + b =~= a);
        assert(sorted(a).then_all(sorted(b)) =~= sorted(a));
    } else {
        lemma_sorted_join(a, b.drop_last());
        assert((a + b).drop_last() =~= a + b.drop_last());
        assert((a + b).last() == b.last());
        assert(sorted(a + b) =~= sorted(a).then_all(sorted(b)));
    }
}

/// Sorting what senders say.
proof fn lemma_sorted_infos(infos: Seq<SenderInfo>)
    ensures
        sorted(infos.map_values(|i: SenderInfo| RtcpFb::SenderInfo(i))) == (Pending {
            infos,
            reports: Seq::empty(),
            byes: Seq::empty(),
        }),
    decreases infos.len(),
{
    let m = infos.map_values(|i: SenderInfo| RtcpFb::SenderInfo(i));
    if infos.len() > 0 {
        lemma_sorted_infos(infos.drop_last());
        assert(m.drop_last() =~= infos.drop_last().map_values(
            |i: SenderInfo| RtcpFb::SenderInfo(i),
        ));
        assert(infos.drop_last().push(infos.last()) =~= infos);
    } else {
        assert(infos =~= Seq::empty());
    }
}

/// Sorting report blocks.
proof fn lemma_sorted_reports(reports: Seq<ReceiverReport>)
    ensures
        sorted(report_items(reports)) == (Pending {
            infos: Seq::empty(),
            reports,
            byes: Seq::empty(),
        }),
    decreases reports.len(),
{
    let m = report_items(reports);
    if reports.len() > 0 {
        lemma_sorted_reports(reports.drop_last());
        assert(m.drop_last() =~= report_items(reports.drop_last()));
        assert(reports.drop_last().push(reports.last()) =~= reports);
    } else {
        assert(reports =~= Seq::empty());
    }
}

/// Sorting the ends of streams.
proof fn lemma_sorted_byes(byes: Seq<Ssrc>)
    ensures
        sorted(byes.map_values(|s: Ssrc| RtcpFb::Goodbye(s))) == (Pending {
            infos: Seq::empty(),
            reports: Seq::empty(),
            byes,
        }),
    decreases byes.len(),
{
    let m = byes.map_values(|s: Ssrc| RtcpFb::Goodbye(s));
    if byes.len() > 0 {
        lemma_sorted_byes(byes.drop_last());
        assert(m.drop_last() =~= byes.drop_last().map_values(|s: Ssrc| RtcpFb::Goodbye(s)));
        assert(byes.drop_last().push(byes.last()) =~= byes);
    } else {
        assert(byes =~= Seq::empty());
    }
}

/// Sorting items that are sorted already changes nothing.
pub proof fn law_sorting_is_stable(p: Pending)
    ensures
        sorted(p.items()) == p,
{
    let infos = p.infos.map_values(|i: SenderInfo| RtcpFb::SenderInfo(i));
    let reports = report_items(p.reports);
    let byes = p.byes.map_values(|s: Ssrc| RtcpFb::Goodbye(s));
    lemma_sorted_infos(p.infos);
    lemma_sorted_reports(p.reports);
    lemma_sorted_byes(p.byes);
    lemma_sorted_join(infos, reports);
    lemma_sorted_join(infos + reports, byes);
    assert(sorted(p.items()) =~= p);
}

/// What the next packet holds and what it leaves is what there was.
proof fn lemma_next_keeps(p: Pending, room: int)
    ensures
        p.next(room) matches Some((packet, rest)) ==> sorted(packet.items()).then_all(rest) == p,
{
    if let Some((packet, rest)) = p.next(room) {
        lemma_next(p, room);
        match packet {
            Packet::Sender(info, reports) => {
                let one = seq![info].map_values(|i: SenderInfo| RtcpFb::SenderInfo(i));
                lemma_sorted_infos(seq![info]);
                assert(one =~= seq![RtcpFb::SenderInfo(info)]);
                lemma_sorted_reports(reports);
                lemma_sorted_join(one, report_items(reports));
                assert(seq![info] + p.infos.skip(1) =~= p.infos);
                assert(reports + rest.reports =~= p.reports);
            },
            Packet::Receiver(reports) => {
                lemma_sorted_reports(reports);
                assert(reports + rest.reports =~= p.reports);
            },
            Packet::Bye(ssrcs) => {
                lemma_sorted_byes(ssrcs);
                assert(ssrcs + rest.byes =~= p.byes);
            },
        }
        assert(sorted(packet.items()).then_all(rest) =~= p);
    }
}

/// Of each kind, what the packets hold, followed by what is left, is what there was.
proof fn lemma_packing_keeps(p: Pending, room: int)
    ensures
        sorted(contents(p.packets(room))).then_all(p.left(room)) == p,
    decreases p.len(),
{
    lemma_next(p, room);
    match p.next(room) {
        Some((packet, rest)) => {
            lemma_next_keeps(p, room);
            let more = room - packet.size();
            lemma_packing_keeps(rest, more);
            let packets = p.packets(room);
            assert(packets == seq![packet] + rest.packets(more));
            assert(packets.skip(1) =~= rest.packets(more));
            let held = contents(rest.packets(more));
            assert(contents(packets) == packet.items() + held);
            lemma_sorted_join(packet.items(), held);
            let (a, b, c) = (sorted(packet.items()), sorted(held), rest.left(more));
            assert(a.then_all(b).then_all(c) =~= a.then_all(b.then_all(c)));
        },
        None => {
            assert(p.packets(room) =~= Seq::empty());
            assert(sorted(Seq::<RtcpFb>::empty()).then_all(p) =~= p);
        },
    }
}

/// The packets fit, and what is left does not.
pub(crate) proof fn lemma_packing_fits(p: Pending, room: int)
    requires
        room >= 0,
    ensures
        wire(p.packets(room)).len() <= room,
        wire(p.packets(room)).len() % 4 == 0,
        p.left(room).next(room - wire(p.packets(room)).len()) is None,
    decreases p.len(),
{
    lemma_next(p, room);
    match p.next(room) {
        Some((packet, rest)) => {
            let more = room - packet.size();
            lemma_packing_fits(rest, more);
            lemma_bytes_len(packet);
            let packets = p.packets(room);
            assert(packets == seq![packet] + rest.packets(more));
            assert(packets.skip(1) =~= rest.packets(more));
            assert(wire(packets) == packet.bytes() + wire(rest.packets(more)));
        },
        None => {
            assert(p.packets(room) =~= Seq::empty());
        },
    }
}

/// No packet has more blocks than its header can count.
proof fn lemma_packing_counts(p: Pending, room: int)
    ensures
        forall|k: int|
            0 <= k < p.packets(room).len() ==> (#[trigger] p.packets(room)[k]).is_countable(),
    decreases p.len(),
{
    lemma_next(p, room);
    if let Some((packet, rest)) = p.next(room) {
        let more = room - packet.size();
        lemma_packing_counts(rest, more);
        let packets = p.packets(room);
        assert(packets == seq![packet] + rest.packets(more));
        assert forall|k: int| 0 <= k < packets.len() implies (
        #[trigger] packets[k]).is_countable() by {
            if k > 0 {
                assert(packets[k] == rest.packets(more)[k - 1]);
            }
        }
    }
}

/// Packing loses nothing and makes nothing up: of each kind, what the packets hold, followed by
/// what is left, is what there was, in the same order. The packets fit, each has no more blocks than
/// its header can count, and what is left does not fit in the space that remains.
pub proof fn law_packing(p: Pending, room: int)
    requires
        room >= 0,
    ensures
        sorted(contents(p.packets(room))).then_all(p.left(room)) == p,
        wire(p.packets(room)).len() <= room,
        wire(p.packets(room)).len() % 4 == 0,
        forall|k: int|
            0 <= k < p.packets(room).len() ==> (#[trigger] p.packets(room)[k]).is_countable(),
        p.left(room).next(room - wire(p.packets(room)).len()) is None,
{
    lemma_packing_keeps(p, room);
    lemma_packing_fits(p, room);
    lemma_packing_counts(p, room);
}

/// Feedback that is written and read again is the feedback that was taken from the queue: what the
/// bytes hold is what the packets hold, and that, with what stays in the queue, is what the queue
/// held.
pub proof fn law_feedback_round_trip(queue: Seq<RtcpFb>, room: int)
    requires
        room >= 0,
    ensures
        ({
            let packets = sorted(queue).packets(room);
            let left = sorted(queue).left(room).items();
            &&& all_items(wire(packets)) == contents(packets).map_values(|f: RtcpFb| arrived(f))
            &&& sorted(contents(packets)).then_all(sorted(left)) == sorted(queue)
        }),
{
    law_packing(sorted(queue), room);
    law_wire_round_trip(sorted(queue).packets(room));
    law_sorting_is_stable(sorted(queue).left(room));
}

/// Whether an item can be written without loss: its time is in whole microseconds within the reach
/// of an NTP timestamp, its count of lost packets has no more than 24 bits.
pub open spec fn is_exact(item: RtcpFb) -> bool {
    match item {
        RtcpFb::SenderInfo(i) => i.ntp_time.denom.hz() == 1_000_000 && 0 <= i.ntp_time.numer
            < 0x1_0000_0000 * 1_000_000,
        RtcpFb::ReceiverReport(r) => r.packets_lost < 0x100_0000,
        RtcpFb::Goodbye(_) => true,
    }
}

/// Whether two items are equal, as `==` has it.
pub open spec fn is_equal(a: RtcpFb, b: RtcpFb) -> bool {
    match (a, b) {
        (RtcpFb::SenderInfo(x), RtcpFb::SenderInfo(y)) => x.ntp_time.same(y.ntp_time)
            && SenderInfo { ntp_time: y.ntp_time, ..x } == y,
        _ => a == b,
    }
}

/// An item that can be written without loss arrives as it was.
pub proof fn law_exact_items_arrive_unchanged(item: RtcpFb)
    requires
        is_exact(item),
    ensures
        is_equal(arrived(item), item),
{
    if let RtcpFb::SenderInfo(i) = item {
        law_ntp_round_trip(i.ntp_time);
    }
}

} // verus!
