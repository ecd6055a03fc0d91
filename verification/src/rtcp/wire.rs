//! RTCP packets on the wire.

use vstd::prelude::*;

use vstd::slice::slice_subrange;

use crate::header::Ssrc;
use crate::rtcp::feedback::{ReceiverReport, RtcpFb, SenderInfo};
use crate::time::MediaTime;

verus! {

/// Packet type of a sender report.
pub const SENDER_REPORT: u8 = 200;

/// Packet type of a receiver report.
pub const RECEIVER_REPORT: u8 = 201;

/// Packet type of a goodbye.
pub const GOODBYE: u8 = 203;

/// Most report blocks or streams that a packet can hold.
pub const MAX_COUNT: usize = 31;

/// An RTCP packet.
pub enum Packet {
    /// A sender report, with report blocks.
    Sender(SenderInfo, Seq<ReceiverReport>),
    /// A receiver report.
    Receiver(Seq<ReceiverReport>),
    /// The end of streams.
    Bye(Seq<Ssrc>),
}

impl Packet {
    /// Whether the packet has no more blocks than its header can count.
    pub open spec fn is_countable(self) -> bool {
        match self {
            Packet::Sender(_, reports) => reports.len() <= MAX_COUNT,
            Packet::Receiver(reports) => reports.len() <= MAX_COUNT,
            Packet::Bye(ssrcs) => ssrcs.len() <= MAX_COUNT,
        }
    }

    /// The items of feedback that the packet holds.
    pub open spec fn items(self) -> Seq<RtcpFb> {
        match self {
            Packet::Sender(info, reports) => seq![RtcpFb::SenderInfo(info)] + report_items(reports),
            Packet::Receiver(reports) => report_items(reports),
            Packet::Bye(ssrcs) => ssrcs.map_values(|s: Ssrc| RtcpFb::Goodbye(s)),
        }
    }

    /// Length of the packet in bytes.
    pub open spec fn size(self) -> nat {
        match self {
            Packet::Sender(_, reports) => 28 + 24 * reports.len(),
            Packet::Receiver(reports) => 8 + 24 * reports.len(),
            Packet::Bye(ssrcs) => 4 + 4 * ssrcs.len(),
        }
    }

    /// The bytes of the packet.
    ///
    /// ```text
    ///      +-+-+-+-+-+-+-+-+-+-+-+-+-+-+-+-+-+-+-+-+-+-+-+-+-+-+-+-+-+-+-+-+
    ///      |V=2|P|  COUNT  |     TYPE      |        LENGTH IN WORDS - 1    |
    ///      +-+-+-+-+-+-+-+-+-+-+-+-+-+-+-+-+-+-+-+-+-+-+-+-+-+-+-+-+-+-+-+-+
    /// ```
    pub open spec fn bytes(self) -> Seq<u8> {
        match self {
            Packet::Sender(info, reports) => head(
                reports.len() as int,
                SENDER_REPORT,
                self.size() as int,
            ) + info_bytes(info) + blocks_bytes(reports),
            Packet::Receiver(reports) => head(
                reports.len() as int,
                RECEIVER_REPORT,
                self.size() as int,
            ) + be32(0) + blocks_bytes(reports),
            Packet::Bye(ssrcs) => head(ssrcs.len() as int, GOODBYE, self.size() as int) + ssrcs_bytes(
                ssrcs,
            ),
        }
    }
}

/// Report blocks as items of feedback.
pub open spec fn report_items(reports: Seq<ReceiverReport>) -> Seq<RtcpFb> {
    reports.map_values(|r: ReceiverReport| RtcpFb::ReceiverReport(r))
}

/// A 16 bit number, highest byte first.
#[verifier::opaque]
pub open spec fn be16(v: int) -> Seq<u8> {
    seq![(v / 0x100 % 0x100) as u8, (v % 0x100) as u8]
}

/// A 24 bit number, highest byte first.
#[verifier::opaque]
pub open spec fn be24(v: int) -> Seq<u8> {
    seq![(v / 0x1_0000 % 0x100) as u8, (v / 0x100 % 0x100) as u8, (v % 0x100) as u8]
}

/// A 32 bit number, highest byte first.
#[verifier::opaque]
pub open spec fn be32(v: int) -> Seq<u8> {
    seq![
        (v / 0x100_0000 % 0x100) as u8,
        (v / 0x1_0000 % 0x100) as u8,
        (v / 0x100 % 0x100) as u8,
        (v % 0x100) as u8,
    ]
}

/// The 16 bit number at `i`.
pub open spec fn u16_at(b: Seq<u8>, i: int) -> int {
    b[i] * 0x100 + b[i + 1]
}

/// The 24 bit number at `i`.
#[verifier::opaque]
pub open spec fn u24_at(b: Seq<u8>, i: int) -> int {
    b[i] * 0x1_0000 + b[i + 1] * 0x100 + b[i + 2]
}

/// The 32 bit number at `i`.
#[verifier::opaque]
pub open spec fn u32_at(b: Seq<u8>, i: int) -> int {
    b[i] * 0x100_0000 + b[i + 1] * 0x1_0000 + b[i + 2] * 0x100 + b[i + 3]
}

/// Numbers take the bytes that their width asks for.
pub broadcast proof fn lemma_be_len(v: int)
    ensures
        #![trigger be16(v)]
        #![trigger be24(v)]
        #![trigger be32(v)]
        be16(v).len() == 2,
        be24(v).len() == 3,
        be32(v).len() == 4,
{
    reveal(be16);
    reveal(be24);
    reveal(be32);
}

/// What a packet takes on the wire is its size.
pub(crate) proof fn lemma_bytes_len(p: Packet)
    ensures
        p.bytes().len() == p.size(),
{
    broadcast use lemma_be_len;

}

/// The header of a packet of `size` bytes.
pub open spec fn head(count: int, kind: u8, size: int) -> Seq<u8> {
    seq![(0x80 + count) as u8, kind] + be16(size / 4 - 1)
}

/// What a sender says of its stream, in 24 bytes.
pub open spec fn info_bytes(info: SenderInfo) -> Seq<u8> {
    let ntp = info.ntp_time.spec_as_ntp_64();
    be32(info.ssrc.0 as int) + be32(ntp / 0x1_0000_0000) + be32(ntp % 0x1_0000_0000) + be32(
        info.rtp_time as int,
    ) + be32(info.sender_packet_count as int) + be32(info.sender_octet_count as int)
}

/// A report block, in 24 bytes.
pub open spec fn block_bytes(r: ReceiverReport) -> Seq<u8> {
    be32(r.ssrc.0 as int) + seq![r.fraction_lost] + be24(r.packets_lost as int) + be32(
        r.max_seq as int,
    ) + be32(r.jitter as int) + be32(r.last_sr_time as int) + be32(r.last_sr_delay as int)
}

/// Report blocks, one after the other.
pub open spec fn blocks_bytes(reports: Seq<ReceiverReport>) -> Seq<u8> {
    Seq::new(24 * reports.len(), |i: int| block_bytes(reports[i / 24])[i % 24])
}

/// Streams, one after the other.
pub open spec fn ssrcs_bytes(ssrcs: Seq<Ssrc>) -> Seq<u8> {
    Seq::new(4 * ssrcs.len(), |i: int| be32(ssrcs[i / 4].0 as int)[i % 4])
}

/// What a sender says of its stream, read at `i`.
pub open spec fn info_at(b: Seq<u8>, i: int) -> SenderInfo {
    SenderInfo {
        ssrc: Ssrc(u32_at(b, i) as u32),
        ntp_time: MediaTime::spec_from_ntp_64(
            (u32_at(b, i + 4) * 0x1_0000_0000 + u32_at(b, i + 8)) as u64,
        ),
        rtp_time: u32_at(b, i + 12) as u32,
        sender_packet_count: u32_at(b, i + 16) as u32,
        sender_octet_count: u32_at(b, i + 20) as u32,
    }
}

/// A report block, read at `i`.
pub open spec fn block_at(b: Seq<u8>, i: int) -> ReceiverReport {
    ReceiverReport {
        ssrc: Ssrc(u32_at(b, i) as u32),
        fraction_lost: b[i + 4],
        packets_lost: u24_at(b, i + 5) as u32,
        max_seq: u32_at(b, i + 8) as u32,
        jitter: u32_at(b, i + 12) as u32,
        last_sr_time: u32_at(b, i + 16) as u32,
        last_sr_delay: u32_at(b, i + 20) as u32,
    }
}

/// The `n` report blocks from `i` on, as items of feedback.
pub open spec fn blocks_at(b: Seq<u8>, i: int, n: int) -> Seq<RtcpFb> {
    Seq::new(n as nat, |k: int| RtcpFb::ReceiverReport(block_at(b, i + 24 * k)))
}

/// The `n` streams from `i` on, as items of feedback.
pub open spec fn byes_at(b: Seq<u8>, i: int, n: int) -> Seq<RtcpFb> {
    Seq::new(n as nat, |k: int| RtcpFb::Goodbye(Ssrc(u32_at(b, i + 4 * k) as u32)))
}

/// The items of feedback in a packet. One that is of another kind, or too short for what it counts,
/// holds none.
pub open spec fn packet_items(b: Seq<u8>) -> Seq<RtcpFb> {
    let count = b[0] % 32;
    if b[1] == SENDER_REPORT && b.len() >= 28 + 24 * count {
        seq![RtcpFb::SenderInfo(info_at(b, 4))] + blocks_at(b, 28, count as int)
    } else if b[1] == RECEIVER_REPORT && b.len() >= 8 + 24 * count {
        blocks_at(b, 8, count as int)
    } else if b[1] == GOODBYE && b.len() >= 4 + 4 * count {
        byes_at(b, 4, count as int)
    } else {
        Seq::empty()
    }
}

/// Length in bytes of the packet at the start of `b`, as its header gives it.
pub open spec fn stated_size(b: Seq<u8>) -> int {
    4 * (u16_at(b, 2) + 1)
}

/// Whether `b` starts with a whole packet.
pub open spec fn has_packet(b: Seq<u8>) -> bool {
    b.len() >= 4 && b[0] / 64 == 2 && stated_size(b) <= b.len()
}

/// The items of feedback in the packets that `b` holds one after the other, up to the first place
/// where no whole packet follows.
pub open spec fn all_items(b: Seq<u8>) -> Seq<RtcpFb>
    decreases b.len(),
{
    if has_packet(b) {
        packet_items(b.take(stated_size(b))) + all_items(b.skip(stated_size(b)))
    } else {
        Seq::empty()
    }
}

/// Appends a 16 bit number.
fn put16(out: &mut Vec<u8>, v: u16)
    ensures
        final(out)@ == old(out)@ + be16(v as int),
{
    out.push((v / 0x100 % 0x100) as u8);
    out.push((v % 0x100) as u8);
    proof {
        reveal(be16);
        assert(out@ =~= old(out)@ + be16(v as int));
    }
}

/// Appends the lower 24 bits of a number.
fn put24(out: &mut Vec<u8>, v: u32)
    ensures
        final(out)@ == old(out)@ + be24(v as int),
{
    out.push((v / 0x1_0000 % 0x100) as u8);
    out.push((v / 0x100 % 0x100) as u8);
    out.push((v % 0x100) as u8);
    proof {
        reveal(be24);
        assert(out@ =~= old(out)@ + be24(v as int));
    }
}

/// Appends a 32 bit number.
fn put32(out: &mut Vec<u8>, v: u32)
    ensures
        final(out)@ == old(out)@ + be32(v as int),
{
    out.push((v / 0x100_0000 % 0x100) as u8);
    out.push((v / 0x1_0000 % 0x100) as u8);
    out.push((v / 0x100 % 0x100) as u8);
    out.push((v % 0x100) as u8);
    proof {
        reveal(be32);
        assert(out@ =~= old(out)@ + be32(v as int));
    }
}

/// Appends the header of a packet of `size` bytes.
fn put_head(out: &mut Vec<u8>, count: usize, kind: u8, size: usize)
    requires
        count <= MAX_COUNT,
        4 <= size <= 0x4_0000,
        size % 4 == 0,
    ensures
        final(out)@ == old(out)@ + head(count as int, kind, size as int),
{
    out.push(0x80 + count as u8);
    out.push(kind);
    put16(out, (size / 4 - 1) as u16);
    assert(out@ =~= old(out)@ + head(count as int, kind, size as int));
}

/// Appends what a sender says of its stream.
fn put_info(out: &mut Vec<u8>, info: &SenderInfo)
    ensures
        final(out)@ == old(out)@ + info_bytes(*info),
{
    let ntp: u64 = info.ntp_time.as_ntp_64();
    put32(out, info.ssrc.0);
    put32(out, (ntp / 0x1_0000_0000) as u32);
    put32(out, (ntp % 0x1_0000_0000) as u32);
    put32(out, info.rtp_time);
    put32(out, info.sender_packet_count);
    put32(out, info.sender_octet_count);
    assert(out@ =~= old(out)@ + info_bytes(*info));
}

/// Appends a report block.
fn put_block(out: &mut Vec<u8>, r: &ReceiverReport)
    ensures
        final(out)@ == old(out)@ + block_bytes(*r),
{
    put32(out, r.ssrc.0);
    out.push(r.fraction_lost);
    put24(out, r.packets_lost);
    put32(out, r.max_seq);
    put32(out, r.jitter);
    put32(out, r.last_sr_time);
    put32(out, r.last_sr_delay);
    assert(out@ =~= old(out)@ + block_bytes(*r));
}

/// Appends report blocks.
fn put_blocks(out: &mut Vec<u8>, reports: &Vec<ReceiverReport>)
    ensures
        final(out)@ == old(out)@ + blocks_bytes(reports@),
{
    let mut k: usize = 0;
    assert(out@ =~= old(out)@ + blocks_bytes(reports@.take(0)));
    while k < reports.len()
        invariant
            k <= reports@.len(),
            out@ == old(out)@ + blocks_bytes(reports@.take(k as int)),
        decreases reports@.len() - k,
    {
        put_block(out, &reports[k]);
        proof {
            let a = reports@.take(k as int);
            let b = reports@.take(k + 1);
            lemma_blocks_grow(a, reports@[k as int]);
            assert(b =~= a.push(reports@[k as int]));
            assert(out@ =~= old(out)@ + blocks_bytes(b));
        }
        k += 1;
    }
    assert(reports@.take(k as int) =~= reports@);
}

/// One more report block adds its bytes.
proof fn lemma_blocks_grow(reports: Seq<ReceiverReport>, r: ReceiverReport)
    ensures
        blocks_bytes(reports.push(r)) == blocks_bytes(reports) + block_bytes(r),
{
    broadcast use lemma_be_len;

    let n = reports.len() as int;
    let b = blocks_bytes(reports.push(r));
    let c = blocks_bytes(reports) + block_bytes(r);
    assert(block_bytes(r).len() == 24);
    assert(b.len() == c.len());
    assert forall|i: int| 0 <= i < b.len() implies b[i] == c[i] by {
        if i < 24 * n {
            assert(i / 24 < n);
            assert(reports.push(r)[i / 24] == reports[i / 24]);
        } else {
            assert(i / 24 == n);
            assert(i % 24 == i - 24 * n);
        }
    }
    assert(b =~= c);
}

/// One more stream adds its bytes.
proof fn lemma_ssrcs_grow(ssrcs: Seq<Ssrc>, s: Ssrc)
    ensures
        ssrcs_bytes(ssrcs.push(s)) == ssrcs_bytes(ssrcs) + be32(s.0 as int),
{
    broadcast use lemma_be_len;

    let n = ssrcs.len() as int;
    let b = ssrcs_bytes(ssrcs.push(s));
    let c = ssrcs_bytes(ssrcs) + be32(s.0 as int);
    assert(b.len() == c.len());
    assert forall|i: int| 0 <= i < b.len() implies b[i] == c[i] by {
        if i < 4 * n {
            assert(i / 4 < n);
            assert(ssrcs.push(s)[i / 4] == ssrcs[i / 4]);
        } else {
            assert(i / 4 == n);
            assert(i % 4 == i - 4 * n);
        }
    }
    assert(b =~= c);
}

/// Appends a sender report.
pub(crate) fn put_sender(out: &mut Vec<u8>, info: &SenderInfo, reports: &Vec<ReceiverReport>)
    requires
        reports@.len() <= MAX_COUNT,
    ensures
        final(out)@ == old(out)@ + Packet::Sender(*info, reports@).bytes(),
{
    put_head(out, reports.len(), SENDER_REPORT, 28 + 24 * reports.len());
    put_info(out, info);
    put_blocks(out, reports);
    assert(out@ =~= old(out)@ + Packet::Sender(*info, reports@).bytes());
}

/// Appends a receiver report.
pub(crate) fn put_receiver(out: &mut Vec<u8>, reports: &Vec<ReceiverReport>)
    requires
        reports@.len() <= MAX_COUNT,
    ensures
        final(out)@ == old(out)@ + Packet::Receiver(reports@).bytes(),
{
    put_head(out, reports.len(), RECEIVER_REPORT, 8 + 24 * reports.len());
    put32(out, 0);
    put_blocks(out, reports);
    assert(out@ =~= old(out)@ + Packet::Receiver(reports@).bytes());
}

/// Appends a goodbye.
pub(crate) fn put_bye(out: &mut Vec<u8>, ssrcs: &Vec<Ssrc>)
    requires
        ssrcs@.len() <= MAX_COUNT,
    ensures
        final(out)@ == old(out)@ + Packet::Bye(ssrcs@).bytes(),
{
    put_head(out, ssrcs.len(), GOODBYE, 4 + 4 * ssrcs.len());
    let ghost before = out@;
    let mut k: usize = 0;
    assert(out@ =~= before + ssrcs_bytes(ssrcs@.take(0)));
    while k < ssrcs.len()
        invariant
            k <= ssrcs@.len(),
            out@ == before + ssrcs_bytes(ssrcs@.take(k as int)),
        decreases ssrcs@.len() - k,
    {
        put32(out, ssrcs[k].0);
        proof {
            let a = ssrcs@.take(k as int);
            let b = ssrcs@.take(k + 1);
            lemma_ssrcs_grow(a, ssrcs@[k as int]);
            assert(b =~= a.push(ssrcs@[k as int]));
            assert(out@ =~= before + ssrcs_bytes(b));
        }
        k += 1;
    }
    assert(ssrcs@.take(k as int) =~= ssrcs@);
    assert(out@ =~= old(out)@ + Packet::Bye(ssrcs@).bytes());
}

/// Reads a 16 bit number.
fn get16(b: &[u8], i: usize) -> (r: u16)
    requires
        i + 2 <= b@.len(),
    ensures
        r == u16_at(b@, i as int),
{
    b[i] as u16 * 0x100 + b[i + 1] as u16
}

/// Reads a 24 bit number.
fn get24(b: &[u8], i: usize) -> (r: u32)
    requires
        i + 3 <= b@.len(),
    ensures
        r == u24_at(b@, i as int),
{
    reveal(u24_at);
    b[i] as u32 * 0x1_0000 + b[i + 1] as u32 * 0x100 + b[i + 2] as u32
}

/// Reads a 32 bit number.
fn get32(b: &[u8], i: usize) -> (r: u32)
    requires
        i + 4 <= b@.len(),
    ensures
        r == u32_at(b@, i as int),
{
    reveal(u32_at);
    b[i] as u32 * 0x100_0000 + b[i + 1] as u32 * 0x1_0000 + b[i + 2] as u32 * 0x100 + b[i
        + 3] as u32
}

/// Reads what a sender says of its stream.
fn get_info(b: &[u8], i: usize) -> (r: SenderInfo)
    requires
        i + 24 <= b@.len() <= usize::MAX,
    ensures
        r == info_at(b@, i as int),
{
    let ntp: u64 = get32(b, i + 4) as u64 * 0x1_0000_0000 + get32(b, i + 8) as u64;
    SenderInfo {
        ssrc: Ssrc(get32(b, i)),
        ntp_time: MediaTime::from_ntp_64(ntp),
        rtp_time: get32(b, i + 12),
        sender_packet_count: get32(b, i + 16),
        sender_octet_count: get32(b, i + 20),
    }
}

/// Reads a report block.
fn get_block(b: &[u8], i: usize) -> (r: ReceiverReport)
    requires
        i + 24 <= b@.len() <= usize::MAX,
    ensures
        r == block_at(b@, i as int),
{
    ReceiverReport {
        ssrc: Ssrc(get32(b, i)),
        fraction_lost: b[i + 4],
        packets_lost: get24(b, i + 5),
        max_seq: get32(b, i + 8),
        jitter: get32(b, i + 12),
        last_sr_time: get32(b, i + 16),
        last_sr_delay: get32(b, i + 20),
    }
}

/// Appends the items of feedback in a packet.
fn get_packet(out: &mut Vec<RtcpFb>, b: &[u8])
    requires
        4 <= b@.len() <= usize::MAX,
    ensures
        final(out)@ == old(out)@ + packet_items(b@),
{
    let count: usize = (b[0] % 32) as usize;
    let kind: u8 = b[1];
    let mut k: usize = 0;
    if kind == SENDER_REPORT && b.len() >= 28 + 24 * count {
        out.push(RtcpFb::SenderInfo(get_info(b, 4)));
        let ghost before = out@;
        while k < count
            invariant
                k <= count < 32,
                28 + 24 * count <= b@.len() <= usize::MAX,
                out@ == before + blocks_at(b@, 28, k as int),
            decreases count - k,
        {
            out.push(RtcpFb::ReceiverReport(get_block(b, 28 + 24 * k)));
            k += 1;
            assert(out@ =~= before + blocks_at(b@, 28, k as int));
        }
    } else if kind == RECEIVER_REPORT && b.len() >= 8 + 24 * count {
        while k < count
            invariant
                k <= count < 32,
                8 + 24 * count <= b@.len() <= usize::MAX,
                out@ == old(out)@ + blocks_at(b@, 8, k as int),
            decreases count - k,
        {
            out.push(RtcpFb::ReceiverReport(get_block(b, 8 + 24 * k)));
            k += 1;
            assert(out@ =~= old(out)@ + blocks_at(b@, 8, k as int));
        }
    } else if kind == GOODBYE && b.len() >= 4 + 4 * count {
        while k < count
            invariant
                k <= count < 32,
                4 + 4 * count <= b@.len() <= usize::MAX,
                out@ == old(out)@ + byes_at(b@, 4, k as int),
            decreases count - k,
        {
            out.push(RtcpFb::Goodbye(Ssrc(get32(b, 4 + 4 * k))));
            k += 1;
            assert(out@ =~= old(out)@ + byes_at(b@, 4, k as int));
        }
    }
    assert(out@ =~= old(out)@ + packet_items(b@));
}

impl RtcpFb {
    /// Reads the feedback in the packets that `buf` holds one after the other, up to the first
    /// place where no whole packet follows.
    pub fn feedback(buf: &[u8]) -> (r: Vec<RtcpFb>)
        ensures
            r@ == all_items(buf@),
    {
        let mut out: Vec<RtcpFb> = Vec::new();
        let len: usize = buf.len();
        let mut at: usize = 0;
        assert(buf@.skip(0) =~= buf@);
        while len - at >= 4
            invariant
                at <= len == buf@.len(),
                out@ + all_items(buf@.skip(at as int)) == all_items(buf@),
            ensures
                !has_packet(buf@.skip(at as int)),
                at <= buf@.len(),
                out@ + all_items(buf@.skip(at as int)) == all_items(buf@),
            decreases buf@.len() - at,
        {
            let ghost rest = buf@.skip(at as int);
            let size: usize = 4 * (get16(buf, at + 2) as usize + 1);
            if buf[at] / 64 != 2 || size > len - at {
                break;
            }
            let packet = slice_subrange(buf, at, at + size);
            let ghost before = out@;
            get_packet(&mut out, packet);
            proof {
                assert(packet@ =~= rest.take(size as int));
                assert(rest.skip(size as int) =~= buf@.skip(at + size));
                assert(before + (packet_items(packet@) + all_items(buf@.skip(at + size)))
                    =~= out@ + all_items(buf@.skip(at + size)));
            }
            at += size;
        }
        assert(out@ + Seq::<RtcpFb>::empty() =~= out@);
        out
    }
}

} // verus!
