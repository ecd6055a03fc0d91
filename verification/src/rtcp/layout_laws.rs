//! How feedback stands in bytes, written and read, told in numbers.

use vstd::prelude::*;

use crate::header::Ssrc;
use crate::rtcp::feedback::{ReceiverReport, RtcpFb, SenderInfo};
use crate::rtcp::laws::{lemma_u24, lemma_u32};
use crate::rtcp::wire::{
    all_items, be16, be24, be32, block_at, block_bytes, blocks_at, blocks_bytes, info_at, info_bytes,
    lemma_be_len, lemma_bytes_len, packet_items, ssrcs_bytes, u24_at, u32_at, Packet,
};
use crate::time::law_ntp_names_the_nearest_microsecond;

verus! {

/// The number that `n` bytes from `i` on make up, highest first.
pub open spec fn number(b: Seq<u8>, i: int, n: int) -> int
    decreases n,
{
    if n <= 0 {
        0
    } else {
        256 * number(b, i, n - 1) + b[i + n - 1]
    }
}

/// Four bytes make up a number of 32 bits.
proof fn lemma_number4(b: Seq<u8>, i: int)
    ensures
        number(b, i, 4) == u32_at(b, i),
        0 <= number(b, i, 4) < 0x1_0000_0000,
{
    reveal(u32_at);
    reveal_with_fuel(number, 5);
    assert(i + 4 - 1 == i + 3 && i + 3 - 1 == i + 2 && i + 2 - 1 == i + 1 && i + 1 - 1 == i);
}

/// Three bytes make up a number of 24 bits.
proof fn lemma_number3(b: Seq<u8>, i: int)
    ensures
        number(b, i, 3) == u24_at(b, i),
        0 <= number(b, i, 3) < 0x100_0000,
{
    reveal(u24_at);
    reveal_with_fuel(number, 4);
    assert(i + 3 - 1 == i + 2 && i + 2 - 1 == i + 1 && i + 1 - 1 == i);
}

/// Eight bytes make up a number of two halves.
proof fn lemma_number8(b: Seq<u8>, i: int)
    ensures
        number(b, i, 8) == number(b, i, 4) * 0x1_0000_0000 + number(b, i + 4, 4),
{
    reveal_with_fuel(number, 9);
    assert(i + 8 - 1 == i + 4 + 4 - 1);
    assert(i + 7 - 1 == i + 4 + 3 - 1);
    assert(i + 6 - 1 == i + 4 + 2 - 1);
    assert(i + 5 - 1 == i + 4 + 1 - 1);
}

/// Whether a report block stands at `i`: the stream in four bytes, the fraction lost in one, the
/// packets lost in three, then the highest sequence number, the jitter, and time and delay of the
/// last sender report in four each.
pub open spec fn has_block(b: Seq<u8>, i: int, r: ReceiverReport) -> bool {
    &&& number(b, i, 4) == r.ssrc.0
    &&& b[i + 4] == r.fraction_lost
    &&& number(b, i + 5, 3) == r.packets_lost % 0x100_0000
    &&& number(b, i + 8, 4) == r.max_seq
    &&& number(b, i + 12, 4) == r.jitter
    &&& number(b, i + 16, 4) == r.last_sr_time
    &&& number(b, i + 20, 4) == r.last_sr_delay
}

/// Whether what a sender says stands at `i`, but for the time: the stream in four bytes, then, after
/// eight for the time, the time on the clock of the stream, the packets and the bytes sent.
pub open spec fn has_info(b: Seq<u8>, i: int, s: SenderInfo) -> bool {
    &&& number(b, i, 4) == s.ssrc.0
    &&& number(b, i + 12, 4) == s.rtp_time
    &&& number(b, i + 16, 4) == s.sender_packet_count
    &&& number(b, i + 20, 4) == s.sender_octet_count
}

/// A report block is what stands in its bytes.
proof fn lemma_block_at(b: Seq<u8>, i: int)
    ensures
        has_block(b, i, block_at(b, i)),
        block_at(b, i).packets_lost < 0x100_0000,
{
    lemma_number4(b, i);
    lemma_number3(b, i + 5);
    lemma_number4(b, i + 8);
    lemma_number4(b, i + 12);
    lemma_number4(b, i + 16);
    lemma_number4(b, i + 20);
}

/// What a sender says is what stands in its bytes, its time to the nearest microsecond.
proof fn lemma_info_at(b: Seq<u8>, i: int)
    ensures
        has_info(b, i, info_at(b, i)),
        info_at(b, i).ntp_time.denom.hz() == 1_000_000,
        -0x8000_0000 <= info_at(b, i).ntp_time.numer * 0x1_0000_0000 - number(b, i + 4, 8)
            * 1_000_000 <= 0x8000_0000,
{
    lemma_number4(b, i);
    lemma_number4(b, i + 4);
    lemma_number4(b, i + 8);
    lemma_number8(b, i + 4);
    assert(i + 4 + 4 == i + 8);
    lemma_number4(b, i + 12);
    lemma_number4(b, i + 16);
    lemma_number4(b, i + 20);
    law_ntp_names_the_nearest_microsecond(number(b, i + 4, 8) as u64);
}

/// What a packet is read as. The first byte counts blocks in its lower five bits, the second one
/// tells the kind. A sender report has what the sender says at byte 4, and its blocks of 24 bytes
/// from byte 28 on; a receiver report has blocks from byte 8 on; a goodbye has streams of four bytes
/// from byte 4 on. All that is counted is read, in order. One that is too short for that, or of
/// another kind, holds nothing.
pub proof fn law_packets_are_read(b: Seq<u8>)
    requires
        b.len() >= 4,
    ensures
        ({
            let items = packet_items(b);
            let n = b[0] % 32;
            &&& b[1] == 200 && b.len() >= 28 + 24 * n ==> {
                &&& items.len() == 1 + n
                &&& items[0] matches RtcpFb::SenderInfo(s) && has_info(b, 4, s)
                    && s.ntp_time.denom.hz() == 1_000_000 && -0x8000_0000 <= s.ntp_time.numer
                    * 0x1_0000_0000 - number(b, 8, 8) * 1_000_000 <= 0x8000_0000
                &&& forall|k: int|
                    0 < k < 1 + n ==> (#[trigger] items[k] matches RtcpFb::ReceiverReport(r)
                        && has_block(b, 4 + 24 * k, r) && r.packets_lost < 0x100_0000)
            }
            &&& b[1] == 201 && b.len() >= 8 + 24 * n ==> {
                &&& items.len() == n
                &&& forall|k: int|
                    0 <= k < n ==> (#[trigger] items[k] matches RtcpFb::ReceiverReport(r)
                        && has_block(b, 8 + 24 * k, r) && r.packets_lost < 0x100_0000)
            }
            &&& b[1] == 203 && b.len() >= 4 + 4 * n ==> {
                &&& items.len() == n
                &&& forall|k: int|
                    0 <= k < n ==> (#[trigger] items[k] matches RtcpFb::Goodbye(s) && s.0 == number(
                        b,
                        4 + 4 * k,
                        4,
                    ))
            }
            &&& b[1] != 200 && b[1] != 201 && b[1] != 203 ==> items.len() == 0
            &&& b[1] == 200 && b.len() < 28 + 24 * n ==> items.len() == 0
            &&& b[1] == 201 && b.len() < 8 + 24 * n ==> items.len() == 0
            &&& b[1] == 203 && b.len() < 4 + 4 * n ==> items.len() == 0
        }),
{
    let items = packet_items(b);
    let n = (b[0] % 32) as int;
    lemma_info_at(b, 4);
    if b[1] == 200 && b.len() >= 28 + 24 * n {
        assert forall|k: int| 0 < k < 1 + n implies (
        #[trigger] items[k] matches RtcpFb::ReceiverReport(r) && has_block(b, 4 + 24 * k, r)
            && r.packets_lost < 0x100_0000) by {
            assert(items[k] == blocks_at(b, 28, n)[k - 1]);
            assert(28 + 24 * (k - 1) == 4 + 24 * k);
            lemma_block_at(b, 4 + 24 * k);
        }
    }
    if b[1] == 201 && b.len() >= 8 + 24 * n {
        assert forall|k: int| 0 <= k < n implies (
        #[trigger] items[k] matches RtcpFb::ReceiverReport(r) && has_block(b, 8 + 24 * k, r)
            && r.packets_lost < 0x100_0000) by {
            lemma_block_at(b, 8 + 24 * k);
        }
    }
    if b[1] == 203 && b.len() >= 4 + 4 * n {
        assert forall|k: int| 0 <= k < n implies (#[trigger] items[k] matches RtcpFb::Goodbye(s)
            && s.0 == number(b, 4 + 4 * k, 4)) by {
            lemma_number4(b, 4 + 4 * k);
        }
    }
}

/// Packets are read one after the other. A packet has the bits 1 and 0 highest in its first byte, and
/// its length in words of four bytes, less one, in the bytes 2 and 3. Reading ends where no whole
/// packet follows.
pub proof fn law_reading_goes_on(b: Seq<u8>)
    ensures
        ({
            let size = 4 * (number(b, 2, 2) + 1);
            if b.len() >= 4 && b[0] / 128 == 1 && b[0] / 64 % 2 == 0 && size <= b.len() {
                all_items(b) == packet_items(b.subrange(0, size)) + all_items(
                    b.subrange(size, b.len() as int),
                )
            } else {
                all_items(b).len() == 0
            }
        }),
{
    reveal_with_fuel(number, 3);
    let size = 4 * (number(b, 2, 2) + 1);
    if b.len() >= 4 && size <= b.len() {
        assert(b.subrange(0, size) =~= b.take(size));
        assert(b.subrange(size, b.len() as int) =~= b.skip(size));
    }
}

/// A number of 32 bits stands where its bytes stand.
proof fn lemma_stands(b: Seq<u8>, i: int, w: Seq<u8>, at: int, v: int)
    requires
        0 <= v < 0x1_0000_0000,
        forall|k: int| at <= k < at + 4 ==> b[i + k] == #[trigger] w[k],
        forall|k: int| 0 <= k < 4 ==> w[at + k] == #[trigger] be32(v)[k],
    ensures
        number(b, i + at, 4) == v,
{
    assert forall|k: int| 0 <= k < 4 implies b[i + at + k] == #[trigger] be32(v)[k] by {
        assert(b[i + (at + k)] == w[at + k]);
    }
    lemma_u32(b, i + at, v);
    lemma_number4(b, i + at);
}

/// A report block stands where its bytes stand.
proof fn lemma_block_stands(b: Seq<u8>, i: int, r: ReceiverReport)
    requires
        forall|k: int| 0 <= k < 24 ==> b[i + k] == #[trigger] block_bytes(r)[k],
    ensures
        has_block(b, i, r),
{
    broadcast use lemma_be_len;

    let w = block_bytes(r);
    lemma_stands(b, i, w, 0, r.ssrc.0 as int);
    assert(b[i + 4] == w[4]);
    assert(b[i + 5] == w[5] && w[5] == be24(r.packets_lost as int)[0]);
    assert(b[i + 6] == w[6] && w[6] == be24(r.packets_lost as int)[1]);
    assert(b[i + 7] == w[7] && w[7] == be24(r.packets_lost as int)[2]);
    lemma_u24(b, i + 5, r.packets_lost as int);
    lemma_number3(b, i + 5);
    lemma_stands(b, i, w, 8, r.max_seq as int);
    lemma_stands(b, i, w, 12, r.jitter as int);
    lemma_stands(b, i, w, 16, r.last_sr_time as int);
    lemma_stands(b, i, w, 20, r.last_sr_delay as int);
}

/// What a sender says stands where its bytes stand.
proof fn lemma_info_stands(b: Seq<u8>, i: int, s: SenderInfo)
    requires
        forall|k: int| 0 <= k < 24 ==> b[i + k] == #[trigger] info_bytes(s)[k],
    ensures
        has_info(b, i, s),
        number(b, i + 4, 8) == s.ntp_time.spec_as_ntp_64(),
{
    broadcast use lemma_be_len;

    let w = info_bytes(s);
    let ntp = s.ntp_time.spec_as_ntp_64();
    s.ntp_time.denom.lemma_positive();
    assert(0 <= ntp < 0x1_0000_0000_0000_0000) by {
        if s.ntp_time.numer >= 0 {
            let x = (s.ntp_time.numer * 0x1_0000_0000) / s.ntp_time.denom.hz();
            assert(0 <= x % 0x1_0000_0000_0000_0000 < 0x1_0000_0000_0000_0000);
        }
    }
    lemma_stands(b, i, w, 0, s.ssrc.0 as int);
    lemma_stands(b, i, w, 4, ntp / 0x1_0000_0000);
    lemma_stands(b, i, w, 8, ntp % 0x1_0000_0000);
    lemma_stands(b, i, w, 12, s.rtp_time as int);
    lemma_stands(b, i, w, 16, s.sender_packet_count as int);
    lemma_stands(b, i, w, 20, s.sender_octet_count as int);
    lemma_number8(b, i + 4);
    assert(i + 4 + 4 == i + 8);
}

/// The block `k` stands 24 bytes behind the one before.
proof fn lemma_blocks_stand(b: Seq<u8>, i: int, reports: Seq<ReceiverReport>, k: int)
    requires
        0 <= k < reports.len(),
        forall|j: int| 0 <= j < 24 * reports.len() ==> b[i + j] == #[trigger] blocks_bytes(reports)[j],
    ensures
        has_block(b, i + 24 * k, reports[k]),
{
    assert forall|j: int| 0 <= j < 24 implies b[i + 24 * k + j] == #[trigger] block_bytes(
        reports[k],
    )[j] by {
        let at = 24 * k + j;
        assert(b[i + at] == blocks_bytes(reports)[at]);
        assert(at / 24 == k && at % 24 == j);
    }
    lemma_block_stands(b, i + 24 * k, reports[k]);
}

/// How every packet begins: the bits 1 and 0, five bits that count its blocks, its kind, and its
/// length in words of four bytes, less one.
pub proof fn law_packets_begin_with_a_header(p: Packet)
    requires
        p.is_countable(),
    ensures
        ({
            let b = p.bytes();
            let (kind, n, size) = match p {
                Packet::Sender(_, reports) => (200u8, reports.len(), 28 + 24 * reports.len()),
                Packet::Receiver(reports) => (201u8, reports.len(), 8 + 24 * reports.len()),
                Packet::Bye(ssrcs) => (203u8, ssrcs.len(), 4 + 4 * ssrcs.len()),
            };
            &&& b.len() == size
            &&& b[0] == 128 + n && n <= 31
            &&& b[1] == kind
            &&& 4 * (number(b, 2, 2) + 1) == size
        }),
{
    broadcast use lemma_be_len;

    lemma_bytes_len(p);
    reveal_with_fuel(number, 3);
    let b = p.bytes();
    let v = p.size() / 4 - 1;
    assert(b[2] == be16(v as int)[0] && b[3] == be16(v as int)[1]);
    reveal(be16);
}

/// What a sender report holds stands in its bytes: what the sender says at byte 4, the time as an
/// NTP timestamp, and the report blocks from byte 28 on.
pub proof fn law_sender_reports_in_bytes(info: SenderInfo, reports: Seq<ReceiverReport>, k: int)
    requires
        reports.len() <= 31,
    ensures
        has_info(Packet::Sender(info, reports).bytes(), 4, info),
        number(Packet::Sender(info, reports).bytes(), 8, 8) == info.ntp_time.spec_as_ntp_64(),
        0 <= k < reports.len() ==> has_block(
            Packet::Sender(info, reports).bytes(),
            28 + 24 * k,
            reports[k],
        ),
{
    broadcast use lemma_be_len;

    let b = Packet::Sender(info, reports).bytes();
    assert forall|j: int| 0 <= j < 24 implies b[4 + j] == #[trigger] info_bytes(info)[j] by {}
    lemma_info_stands(b, 4, info);
    if 0 <= k < reports.len() {
        assert forall|j: int| 0 <= j < 24 * reports.len() implies b[28 + j]
            == #[trigger] blocks_bytes(reports)[j] by {}
        lemma_blocks_stand(b, 28, reports, k);
    }
}

/// What a receiver report holds stands in its bytes: no reporter, and the report blocks from byte 8
/// on.
pub proof fn law_receiver_reports_in_bytes(reports: Seq<ReceiverReport>, k: int)
    requires
        reports.len() <= 31,
    ensures
        number(Packet::Receiver(reports).bytes(), 4, 4) == 0,
        0 <= k < reports.len() ==> has_block(
            Packet::Receiver(reports).bytes(),
            8 + 24 * k,
            reports[k],
        ),
{
    broadcast use lemma_be_len;

    let b = Packet::Receiver(reports).bytes();
    assert forall|j: int| 0 <= j < 4 implies b[4 + j] == #[trigger] be32(0)[j] by {}
    lemma_u32(b, 4, 0);
    lemma_number4(b, 4);
    if 0 <= k < reports.len() {
        assert forall|j: int| 0 <= j < 24 * reports.len() implies b[8 + j]
            == #[trigger] blocks_bytes(reports)[j] by {}
        lemma_blocks_stand(b, 8, reports, k);
    }
}

/// The streams of a goodbye stand in its bytes, from byte 4 on.
pub proof fn law_goodbyes_in_bytes(ssrcs: Seq<Ssrc>, k: int)
    requires
        0 <= k < ssrcs.len() <= 31,
    ensures
        number(Packet::Bye(ssrcs).bytes(), 4 + 4 * k, 4) == ssrcs[k].0,
{
    broadcast use lemma_be_len;

    let b = Packet::Bye(ssrcs).bytes();
    assert forall|j: int| 0 <= j < 4 implies b[4 + 4 * k + j] == #[trigger] be32(
        ssrcs[k].0 as int,
    )[j] by {
        let at = 4 * k + j;
        assert(b[4 + at] == ssrcs_bytes(ssrcs)[at]);
        assert(at / 4 == k && at % 4 == j);
    }
    lemma_u32(b, 4 + 4 * k, ssrcs[k].0 as int);
    lemma_number4(b, 4 + 4 * k);
}

} // verus!
