use str0m::time::{Frequency, MediaTime};

fn at(numer: i64, hz: u32) -> MediaTime {
    MediaTime::new(numer, Frequency::new(hz).unwrap())
}

#[test]
fn rates() {
    assert_eq!(Frequency::new(0), None);
    assert_eq!(Frequency::new(48_000).unwrap().get(), 48_000);
    assert_eq!(Frequency::new(u32::MAX).unwrap().get(), u32::MAX as u64);
    assert_eq!(Frequency::micros().get(), 1_000_000);
    assert_eq!(MediaTime::from_90khz(7).denom().get(), 90_000);
    assert_eq!(MediaTime::from_90khz(-7).numer(), -7);
}

#[test]
fn same_point_at_different_rates() {
    assert_eq!(at(90_000, 90_000), at(48_000, 48_000));
    assert_eq!(at(1, 2), MediaTime::from_micros(500_000));
    assert_ne!(at(90_001, 90_000), at(48_000, 48_000));
    assert_eq!(at(0, 1), at(0, u32::MAX));
    assert_ne!(at(i64::MAX, 1), at(i64::MIN, u32::MAX));
}

#[test]
fn later_point() {
    assert_eq!(at(1, 2).max(at(2, 3)).numer(), 2);
    assert_eq!(at(2, 3).max(at(1, 2)).numer(), 2);
    assert_eq!(at(-1, 2).max(at(-2, 3)).numer(), -1);
    // Of the same point, the second.
    let m = at(1, 2).max(at(2, 4));
    assert_eq!((m.numer(), m.denom().get()), (2, 4));
}

#[test]
fn ntp_timestamps() {
    assert_eq!(MediaTime::from_micros(1_500_000).as_ntp_64(), 0x1_8000_0000);
    assert_eq!(at(3, 4).as_ntp_64(), 0xc000_0000);
    assert_eq!(at(-5, 1).as_ntp_64(), 0);
    // The seconds wrap.
    assert_eq!(at(0x1_0000_0002, 1).as_ntp_64(), 2 << 32);
    assert_eq!(MediaTime::from_ntp_64(0x2_4000_0000).numer(), 2_250_000);
    assert_eq!(MediaTime::from_ntp_64(u64::MAX).numer(), 0x1_0000_0000 * 1_000_000);
}

#[test]
fn microseconds_survive_ntp() {
    for micros in [0, 1, 2, 999_999, 1_000_001, 0x1_0000_0000 * 1_000_000 - 1] {
        let t = MediaTime::from_micros(micros);
        assert_eq!(MediaTime::from_ntp_64(t.as_ntp_64()).numer(), micros);
    }
}
