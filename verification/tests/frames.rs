use str0m::header::{ExtensionValues, RtpHeader, SeqNo, VideoOrientation};
use str0m::packet::buffer_rx::DepacketizingBuffer;
use str0m::packet::codec::{
    CodecExtra, Depacketizer, PacketError, SeqContiguity, Vp8CodecExtra, Vp8Contiguity,
};
use str0m::packet::meta::{Depacketized, RtpMeta};
use str0m::rtcp::feedback::SenderInfo;
use str0m::time::{Instant, MediaTime};

fn packet(seq: u64, time: i64) -> RtpMeta {
    RtpMeta {
        received: Instant { nanos: seq },
        time: MediaTime::from_90khz(time),
        seq_no: seq.into(),
        header: RtpHeader {
            sequence_number: seq as u16,
            ..Default::default()
        },
        last_sender_info: None,
    }
}

fn info(ssrc: u32) -> SenderInfo {
    SenderInfo {
        ssrc: ssrc.into(),
        ntp_time: MediaTime::from_micros(1),
        rtp_time: 2,
        sender_packet_count: 3,
        sender_octet_count: 4,
    }
}

fn frame(meta: Vec<RtpMeta>) -> Depacketized {
    Depacketized {
        time: meta[0].time,
        contiguous: true,
        meta,
        data: vec![],
        codec_extra: CodecExtra::Nothing,
    }
}

#[test]
fn what_is_shown() {
    let mut m = packet(7, 1);
    m.last_sender_info = Some(info(1));
    let text = format!(
        "RtpMeta {{ received: {:?}, time: {:?}, seq_no: {:?}, header: {:?} }}",
        m.received, m.time, m.seq_no, m.header
    );
    assert_eq!(format!("{:?}", m), text);
    assert_eq!(m.shown().seq_no, SeqNo(7));

    let mut d = frame(vec![m]);
    d.data = vec![1, 2, 3];
    assert_eq!(
        format!("{:?}", d),
        format!("Depacketized {{ time: {:?}, meta: [{}], data: 3 }}", m.time, text)
    );
    assert_eq!(d.shown().data, 3);
    assert_eq!(d.shown().meta, [m.shown()]);
}

#[test]
fn first_packet_by_arrival() {
    let mut meta = vec![packet(1, 1), packet(2, 1), packet(3, 1), packet(4, 1)];
    for (m, nanos) in meta.iter_mut().zip([50, 20, 20, 30]) {
        m.received = Instant { nanos };
    }
    meta[0].last_sender_info = Some(info(1));
    meta[1].last_sender_info = Some(info(2));
    meta[2].last_sender_info = Some(info(3));
    let d = frame(meta);

    assert_eq!(d.first_network_time(), Instant { nanos: 20 });
    // Of those that came in at the same time, the first.
    assert_eq!(d.first_sender_info(), Some(info(2)));
    assert_eq!(d.seq_range(), SeqNo(1)..=SeqNo(4));
}

#[test]
fn single_packet() {
    let d = frame(vec![packet(7, 1)]);
    assert_eq!(d.first_network_time(), Instant { nanos: 7 });
    assert_eq!(d.first_sender_info(), None);
    assert_eq!(d.seq_range(), SeqNo(7)..=SeqNo(7));
    assert_eq!(*d.ext_vals(), ExtensionValues::default());
}

#[test]
fn extensions_of_the_last_packet() {
    let mut meta = vec![packet(1, 1), packet(2, 1)];
    meta[0].header.ext_vals.transport_cc = Some(1);
    meta[1].header.ext_vals.transport_cc = Some(2);
    meta[1].header.ext_vals.video_orientation = Some(VideoOrientation::Deg90);
    let d = frame(meta);
    assert_eq!(d.ext_vals().transport_cc, Some(2));
    assert_eq!(d.ext_vals().video_orientation, Some(VideoOrientation::Deg90));
}

/// Takes 1 for a head, 9 for a tail, 13 for an error, and 8 for a VP8 frame.
struct Numbers {
    unpacked: usize,
}

impl Depacketizer for Numbers {
    fn depacketize(
        &mut self,
        packet: &[u8],
        out: &mut Vec<u8>,
        extra: &mut CodecExtra,
    ) -> Result<(), PacketError> {
        self.unpacked += 1;
        if packet.contains(&13) {
            return Err(PacketError::ErrShortPacket);
        }
        if packet.contains(&8) {
            *extra = CodecExtra::Vp8(Vp8CodecExtra {
                discardable: packet.contains(&7),
                sync: false,
                layer_index: 0,
                picture_id: None,
                tl0_picture_id: None,
            });
        }
        out.push(self.unpacked as u8);
        out.extend_from_slice(packet);
        Ok(())
    }

    fn is_partition_head(&self, packet: &[u8]) -> bool {
        packet.first() == Some(&1)
    }

    fn is_partition_tail(&self, marker: bool, packet: &[u8]) -> bool {
        marker || packet.last() == Some(&9)
    }
}

/// Drops discardable frames, and says the opposite of what the sequence numbers say.
struct Contrary;

impl Vp8Contiguity for Contrary {
    fn new() -> Self {
        Contrary
    }

    fn check(&mut self, next: &Vp8CodecExtra, contiguous_seq: bool) -> (bool, bool) {
        (!next.discardable, !contiguous_seq)
    }
}

type Buffer = DepacketizingBuffer<Numbers, Contrary>;

fn buffer(hold_back: usize) -> Buffer {
    DepacketizingBuffer::new(Numbers { unpacked: 0 }, hold_back)
}

fn next(b: &mut Buffer) -> Option<(u64, u64, bool, Vec<u8>)> {
    let d = b.pop()?.unwrap();
    let range = d.seq_range();
    Some((range.start().0, range.end().0, d.contiguous, d.data))
}

#[test]
fn duplicates() {
    let mut b = buffer(3);
    b.push(packet(1, 1), vec![1]);
    b.push(packet(1, 1), vec![1, 2]);
    b.push(packet(2, 1), vec![9]);
    b.push(packet(2, 1), vec![5, 9]);
    assert_eq!(next(&mut b), Some((1, 2, true, vec![1, 1, 2, 9])));
    assert_eq!(next(&mut b), None);
}

#[test]
fn late_packets() {
    let mut b = buffer(3);
    b.push(packet(5, 1), vec![1, 9]);
    assert_eq!(next(&mut b), Some((5, 5, true, vec![1, 1, 9])));
    b.push(packet(5, 8), vec![1, 9]);
    b.push(packet(4, 9), vec![1, 9]);
    assert_eq!(next(&mut b), None);
    // What is dropped does not count for the time either.
    assert_eq!(b.max_time().unwrap().numer(), 1);
    b.push(packet(6, 2), vec![1, 9]);
    assert_eq!(next(&mut b), Some((6, 6, true, vec![2, 1, 9])));
}

#[test]
fn any_order_of_arrival() {
    let orders = [[1, 2, 3, 4], [4, 3, 2, 1], [2, 4, 1, 3], [3, 1, 4, 2]];
    for order in orders {
        let mut b = buffer(3);
        for seq in order {
            let (time, data) = match seq {
                1 => (1, vec![1]),
                2 => (1, vec![9]),
                3 => (2, vec![1]),
                _ => (2, vec![9]),
            };
            b.push(packet(seq, time), data);
        }
        assert_eq!(b.max_time(), Some(MediaTime::from_90khz(2)));
        assert_eq!(next(&mut b), Some((1, 2, true, vec![1, 1, 2, 9])));
        assert_eq!(next(&mut b), Some((3, 4, true, vec![3, 1, 4, 9])));
        assert_eq!(next(&mut b), None);
    }
}

#[test]
fn waiting_goes_on_until_a_packet_comes_in() {
    let mut b = buffer(3);
    b.push(packet(1, 1), vec![1, 9]);
    assert_eq!(next(&mut b), Some((1, 1, true, vec![1, 1, 9])));
    b.push(packet(3, 3), vec![1, 9]);
    for _ in 0..5 {
        assert_eq!(next(&mut b), None);
    }
    b.push(packet(2, 2), vec![1, 9]);
    assert_eq!(next(&mut b), Some((2, 2, true, vec![3, 1, 9])));
    assert_eq!(next(&mut b), Some((3, 3, true, vec![4, 1, 9])));
}

#[test]
fn waiting_ends_with_enough_frames() {
    let mut b = buffer(2);
    b.push(packet(1, 1), vec![1, 9]);
    assert_eq!(next(&mut b), Some((1, 1, true, vec![1, 1, 9])));
    b.push(packet(3, 3), vec![1, 9]);
    assert_eq!(next(&mut b), None);
    b.push(packet(4, 4), vec![1, 9]);
    // Unpacked while it waited, and not again.
    assert_eq!(next(&mut b), Some((3, 3, false, vec![2, 1, 9])));
    assert_eq!(next(&mut b), Some((4, 4, true, vec![3, 1, 9])));
}

#[test]
fn first_frame_does_not_wait() {
    let mut b = buffer(100);
    b.push(packet(40, 1), vec![1, 9]);
    assert_eq!(next(&mut b), Some((40, 40, true, vec![1, 1, 9])));
}

#[test]
fn gaps_within_a_frame() {
    let mut b = buffer(1);
    b.push(packet(1, 1), vec![1]);
    b.push(packet(3, 1), vec![9]);
    assert_eq!(next(&mut b), None);
    b.push(packet(2, 1), vec![2]);
    assert_eq!(next(&mut b), Some((1, 3, true, vec![1, 1, 2, 2, 3, 9])));
}

#[test]
fn markers_end_frames() {
    let mut b = buffer(3);
    let mut meta = packet(2, 1);
    meta.header.marker = true;
    b.push(packet(1, 1), vec![1]);
    b.push(meta, vec![2]);
    assert_eq!(next(&mut b), Some((1, 2, true, vec![1, 1, 2, 2])));
}

#[test]
fn errors_come_out() {
    let mut b = buffer(3);
    b.push(packet(1, 1), vec![1]);
    b.push(packet(2, 1), vec![13]);
    b.push(packet(3, 1), vec![9]);
    b.push(packet(4, 2), vec![1, 9]);
    assert_eq!(b.pop().unwrap().unwrap_err(), PacketError::ErrShortPacket);
    // The next frame follows the one that failed.
    assert_eq!(next(&mut b), Some((4, 4, true, vec![3, 1, 9])));
    b.push(packet(3, 1), vec![1, 9]);
    assert_eq!(next(&mut b), None);
}

#[test]
fn vp8_frames_are_judged() {
    let mut b = buffer(3);
    b.push(packet(1, 1), vec![1, 8, 9]);
    assert_eq!(next(&mut b), Some((1, 1, false, vec![1, 1, 8, 9])));
    // Dropped, and with it its place in the sequence.
    b.push(packet(2, 2), vec![1, 8, 7, 9]);
    assert_eq!(next(&mut b), None);
    b.push(packet(3, 3), vec![1, 9]);
    assert_eq!(next(&mut b), None);
    b.push(packet(4, 4), vec![1, 8, 9]);
    b.push(packet(5, 5), vec![1, 9]);
    assert_eq!(next(&mut b), Some((3, 3, false, vec![3, 1, 9])));
    assert_eq!(next(&mut b), Some((4, 4, false, vec![4, 1, 8, 9])));
    assert_eq!(next(&mut b), Some((5, 5, true, vec![5, 1, 9])));
}

#[test]
fn judging_by_sequence_numbers() {
    let mut b: DepacketizingBuffer<Numbers, SeqContiguity> =
        DepacketizingBuffer::new(Numbers { unpacked: 0 }, 0);
    b.push(packet(1, 1), vec![1, 8, 7, 9]);
    assert!(b.pop().unwrap().unwrap().contiguous);
    b.push(packet(3, 1), vec![1, 8, 9]);
    assert!(!b.pop().unwrap().unwrap().contiguous);
}

#[test]
fn packets_already_told_apart() {
    let mut b = buffer(3);
    b.push_classified(packet(1, 1), vec![5], true, false);
    b.push_classified(packet(2, 1), vec![6], false, true);
    assert_eq!(next(&mut b), Some((1, 2, true, vec![1, 5, 2, 6])));
}

#[test]
fn deciding_on_given_results() {
    let mut b = buffer(3);
    b.push(packet(1, 1), vec![1, 9]);
    b.push(packet(2, 2), vec![1, 9]);
    let r = b.settle(0, 0, 2, Err(PacketError::ErrTooManySpatialLayers));
    assert_eq!(r.unwrap().unwrap_err(), PacketError::ErrTooManySpatialLayers);

    let mut d = frame(vec![packet(2, 2)]);
    d.data = vec![42];
    let r = b.settle(0, 0, 1, Ok(d)).unwrap().unwrap();
    assert_eq!((r.data, r.contiguous), (vec![42], true));
    assert_eq!(next(&mut b), None);

    b.push(packet(3, 3), vec![1, 9]);
    assert!(b.release(0, frame(vec![packet(3, 3)]), (false, true)).is_none());
    b.push(packet(4, 4), vec![1, 9]);
    let r = b.release(0, frame(vec![packet(4, 4)]), (true, false));
    assert!(!r.unwrap().unwrap().contiguous);
}

#[test]
fn latest_time() {
    let mut b = buffer(3);
    assert_eq!(b.max_time(), None);
    b.push(packet(1, 100), vec![]);
    b.push(packet(2, 50), vec![]);
    assert_eq!(b.max_time().unwrap().numer(), 100);
    // A packet that the queue already holds counts.
    b.push(packet(2, 200), vec![]);
    assert_eq!(b.max_time().unwrap().numer(), 200);
}
