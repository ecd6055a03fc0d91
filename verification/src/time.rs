//! Points in media time, and the clock that stamps received packets.

use vstd::prelude::*;

verus! {

/// A clock rate in ticks per second, never zero.
///
/// The rate is stored less one, so that every value of the type is a valid rate.
#[derive(Clone, Copy, Debug, PartialEq, Eq, Structural)]
pub struct Frequency {
    less_one: u32,
}

impl Frequency {
    /// The rate in ticks per second.
    pub closed spec fn hz(&self) -> int {
        self.less_one + 1
    }

    /// A million ticks per second.
    pub closed spec fn spec_micros() -> Frequency {
        Frequency { less_one: 999_999 }
    }

    /// A million ticks per second.
    pub fn micros() -> (r: Frequency)
        ensures
            r == Self::spec_micros(),
            r.hz() == 1_000_000,
    {
        Frequency { less_one: 999_999 }
    }

    /// A rate of `hz` ticks per second; `None` for zero.
    pub fn new(hz: u32) -> (r: Option<Frequency>)
        ensures
            r is None <==> hz == 0,
            r matches Some(f) ==> f.hz() == hz,
    {
        if hz == 0 {
            None
        } else {
            Some(Frequency { less_one: hz - 1 })
        }
    }

    /// The rate in ticks per second.
    pub fn get(&self) -> (r: u64)
        ensures
            r == self.hz(),
            1 <= r <= 0x1_0000_0000,
    {
        self.less_one as u64 + 1
    }

    /// Every rate is positive.
    pub proof fn lemma_positive(&self)
        ensures
            1 <= self.hz() <= 0x1_0000_0000,
    {
    }
}

/// A point in media time: `numer / denom` seconds.
#[derive(Clone, Copy, Debug)]
pub struct MediaTime {
    /// Ticks since the start of the time line.
    pub numer: i64,
    /// Ticks per second.
    pub denom: Frequency,
}

impl MediaTime {
    /// Whether both values name the same point in time, whatever their clock rates.
    pub open spec fn same(self, other: MediaTime) -> bool {
        self.numer * other.denom.hz() == other.numer * self.denom.hz()
    }

    /// Whether `self` names an earlier point in time than `other`.
    pub open spec fn before(self, other: MediaTime) -> bool {
        self.numer * other.denom.hz() < other.numer * self.denom.hz()
    }

    /// The later of two points; `other` where both are the same point.
    pub open spec fn later_of(self, other: MediaTime) -> MediaTime {
        if other.before(self) {
            self
        } else {
            other
        }
    }

    /// The point `numer / denom` seconds.
    pub fn new(numer: i64, denom: Frequency) -> (r: MediaTime)
        ensures
            r == (MediaTime { numer, denom }),
    {
        MediaTime { numer, denom }
    }

    /// A point on the 90 kHz clock of video streams.
    pub fn from_90khz(numer: i64) -> (r: MediaTime)
        ensures
            r.numer == numer,
            r.denom.hz() == 90_000,
    {
        MediaTime { numer, denom: Frequency { less_one: 89_999 } }
    }

    /// A point in microseconds.
    pub fn from_micros(numer: i64) -> (r: MediaTime)
        ensures
            r == (MediaTime { numer, denom: Frequency::spec_micros() }),
            r.denom.hz() == 1_000_000,
    {
        MediaTime { numer, denom: Frequency::micros() }
    }

    /// Ticks since the start of the time line.
    pub fn numer(&self) -> (r: i64)
        ensures
            r == self.numer,
    {
        self.numer
    }

    /// Ticks per second.
    pub fn denom(&self) -> (r: Frequency)
        ensures
            r == self.denom,
    {
        self.denom
    }

    /// The point as an NTP timestamp: seconds in 32.32 fixed point, rounded down. The seconds wrap
    /// after 32 bits; a point before the start of the time line counts as the start.
    pub open spec fn spec_as_ntp_64(self) -> int {
        if self.numer < 0 {
            0
        } else {
            (self.numer * 0x1_0000_0000) / self.denom.hz() % 0x1_0000_0000_0000_0000
        }
    }

    /// The point that an NTP timestamp names, to the nearest microsecond.
    pub open spec fn spec_from_ntp_64(v: u64) -> MediaTime {
        MediaTime {
            numer: ((v * 1_000_000 + 0x8000_0000) / 0x1_0000_0000) as i64,
            denom: Frequency::spec_micros(),
        }
    }

    /// The point as an NTP timestamp.
    pub fn as_ntp_64(self) -> (r: u64)
        ensures
            r == self.spec_as_ntp_64(),
    {
        if self.numer < 0 {
            return 0;
        }
        let hz: u64 = self.denom.get();
        let ticks: u128 = self.numer as u128 * 0x1_0000_0000;
        let fixed: u128 = ticks / hz as u128 % 0x1_0000_0000_0000_0000;
        fixed as u64
    }

    /// The point that an NTP timestamp names.
    pub fn from_ntp_64(v: u64) -> (r: MediaTime)
        ensures
            r == Self::spec_from_ntp_64(v),
            r.numer == (v * 1_000_000 + 0x8000_0000) / 0x1_0000_0000,
    {
        let micros: u128 = (v as u128 * 1_000_000 + 0x8000_0000) / 0x1_0000_0000;
        MediaTime { numer: micros as i64, denom: Frequency::micros() }
    }

    /// `numer * hz`, the left or right side of a comparison of two points.
    fn scaled(numer: i64, hz: u64) -> (r: i128)
        requires
            hz <= 0x1_0000_0000,
        ensures
            r == numer * hz,
    {
        proof {
            assert(-0x8000_0000_0000_0000 * 0x1_0000_0000 <= numer * hz
                <= 0x7fff_ffff_ffff_ffff * 0x1_0000_0000) by (nonlinear_arith)
                requires
                    -0x8000_0000_0000_0000 <= numer <= 0x7fff_ffff_ffff_ffff,
                    0 <= hz <= 0x1_0000_0000,
            ;
        }
        numer as i128 * hz as i128
    }

    /// The later of two points; `other` where both are the same point.
    pub fn max(self, other: MediaTime) -> (r: MediaTime)
        ensures
            r == self.later_of(other),
    {
        let mine: i128 = Self::scaled(self.numer, other.denom.get());
        let theirs: i128 = Self::scaled(other.numer, self.denom.get());
        if theirs < mine {
            self
        } else {
            other
        }
    }
}

impl PartialEq for MediaTime {
    fn eq(&self, other: &MediaTime) -> (r: bool) {
        let mine: i128 = Self::scaled(self.numer, other.denom.get());
        let theirs: i128 = Self::scaled(other.numer, self.denom.get());
        mine == theirs
    }
}

impl vstd::std_specs::cmp::PartialEqSpecImpl for MediaTime {
    open spec fn obeys_eq_spec() -> bool {
        true
    }

    open spec fn eq_spec(&self, other: &MediaTime) -> bool {
        self.same(*other)
    }
}

impl Eq for MediaTime {

}

/// Naming the same point in time is an equivalence.
pub proof fn lemma_same_is_equivalence(a: MediaTime, b: MediaTime, c: MediaTime)
    ensures
        a.same(a),
        a.same(b) ==> b.same(a),
        a.same(b) && b.same(c) ==> a.same(c),
{
    if a.same(b) && b.same(c) {
        a.denom.lemma_positive();
        b.denom.lemma_positive();
        c.denom.lemma_positive();
        let (x, p) = (a.numer as int, a.denom.hz());
        let (y, q) = (b.numer as int, b.denom.hz());
        let (z, w) = (c.numer as int, c.denom.hz());
        assert(x * w == z * p) by (nonlinear_arith)
            requires
                x * q == y * p,
                y * w == z * q,
                q > 0,
        {
            assert(q * (x * w) == (x * q) * w) by (nonlinear_arith);
            assert((y * p) * w == (y * w) * p) by (nonlinear_arith);
            assert((z * q) * p == q * (z * p)) by (nonlinear_arith);
            assert(q * (x * w) == q * (z * p));
            assert(x * w == z * p) by (nonlinear_arith)
                requires
                    q * (x * w) == q * (z * p),
                    q > 0,
            ;
        }
    }
}

/// Points in time are totally ordered: of two, one is before the other or they are the same.
pub proof fn lemma_before_is_total(a: MediaTime, b: MediaTime)
    ensures
        a.before(b) || b.before(a) || a.same(b),
        !(a.before(b) && b.before(a)),
        a.same(b) ==> !a.before(b) && !b.before(a),
{
}

/// A point that is not before a second one, which is not before a third, is not before the third.
pub proof fn lemma_before_is_transitive(a: MediaTime, b: MediaTime, c: MediaTime)
    requires
        !a.before(b),
        !b.before(c),
    ensures
        !a.before(c),
{
    a.denom.lemma_positive();
    b.denom.lemma_positive();
    c.denom.lemma_positive();
    let (x, p) = (a.numer as int, a.denom.hz());
    let (y, q) = (b.numer as int, b.denom.hz());
    let (z, w) = (c.numer as int, c.denom.hz());
    assert(x * w >= z * p) by (nonlinear_arith)
        requires
            x * q >= y * p,
            y * w >= z * q,
            p > 0,
            q > 0,
            w > 0,
    {
        assert((x * q) * w >= (y * p) * w) by (nonlinear_arith)
            requires
                x * q >= y * p,
                w > 0,
        ;
        assert((y * w) * p >= (z * q) * p) by (nonlinear_arith)
            requires
                y * w >= z * q,
                p > 0,
        ;
        assert((x * q) * w == q * (x * w)) by (nonlinear_arith);
        assert((y * p) * w == (y * w) * p) by (nonlinear_arith);
        assert((z * q) * p == q * (z * p)) by (nonlinear_arith);
        assert(x * w >= z * p) by (nonlinear_arith)
            requires
                q * (x * w) >= q * (z * p),
                q > 0,
        ;
    }
}

/// A point in whole microseconds, within the 136 years that an NTP timestamp can name, survives the
/// way through an NTP timestamp.
pub proof fn law_ntp_round_trip(t: MediaTime)
    requires
        t.denom.hz() == 1_000_000,
        0 <= t.numer < 0x1_0000_0000 * 1_000_000,
    ensures
        MediaTime::spec_from_ntp_64(t.spec_as_ntp_64() as u64).numer == t.numer,
        MediaTime::spec_from_ntp_64(t.spec_as_ntp_64() as u64).same(t),
{
    let v = t.spec_as_ntp_64();
    let n = t.numer as int;
    assert(v == n * 0x1_0000_0000 / 1_000_000);
    assert((v * 1_000_000 + 0x8000_0000) / 0x1_0000_0000 == n);
    assert(Frequency::spec_micros().hz() == 1_000_000);
}

/// An NTP timestamp names the point to the nearest microsecond: what it is off by, in the ticks of
/// both clocks, is no more than half a microsecond.
pub proof fn law_ntp_names_the_nearest_microsecond(v: u64)
    ensures
        MediaTime::spec_from_ntp_64(v).denom.hz() == 1_000_000,
        -0x8000_0000 <= MediaTime::spec_from_ntp_64(v).numer * 0x1_0000_0000 - v * 1_000_000
            <= 0x8000_0000,
{
    let micros = (v * 1_000_000 + 0x8000_0000) / 0x1_0000_0000;
    assert(0 <= micros <= 0x7fff_ffff_ffff_ffff);
}

/// An NTP timestamp counts the parts of a second of which there are 2 to the power of 32, rounded
/// down: as many as have passed, and one more would be too many. It wraps after 2 to the power of 32
/// seconds, which have passed `wraps` times. A point before the start counts as the start.
pub proof fn law_ntp_counts_parts_of_seconds(t: MediaTime) -> (wraps: int)
    ensures
        t.numer < 0 ==> t.spec_as_ntp_64() == 0,
        t.numer >= 0 ==> {
            let parts = t.spec_as_ntp_64() + wraps * 0x1_0000_0000_0000_0000;
            parts * t.denom.hz() <= t.numer * 0x1_0000_0000 < (parts + 1) * t.denom.hz()
        },
        0 <= t.spec_as_ntp_64() < 0x1_0000_0000_0000_0000,
        wraps >= 0,
        0 <= t.numer < 0x1_0000_0000 * t.denom.hz() ==> wraps == 0,
{
    t.denom.lemma_positive();
    if t.numer >= 0 {
        let hz = t.denom.hz();
        let ticks = t.numer * 0x1_0000_0000;
        let q = ticks / hz;
        assert(q * hz <= ticks < (q + 1) * hz) by (nonlinear_arith)
            requires
                hz > 0,
                q == ticks / hz,
        ;
        assert(0 <= q) by (nonlinear_arith)
            requires
                hz > 0,
                ticks < (q + 1) * hz,
                0 <= ticks,
        ;
        if t.numer < 0x1_0000_0000 * hz {
            assert(q < 0x1_0000_0000_0000_0000) by (nonlinear_arith)
                requires
                    hz > 0,
                    q * hz <= ticks,
                    ticks < 0x1_0000_0000_0000_0000 * hz,
            ;
        }
        q / 0x1_0000_0000_0000_0000
    } else {
        0
    }
}

/// Points on one clock are compared by their ticks. A point on a clock that is `k` times as fast is
/// the same if it has `k` times the ticks, later if it has more, and earlier if it has fewer.
pub proof fn law_ticks_tell_the_order(a: MediaTime, b: MediaTime, k: int)
    requires
        k > 0,
        a.denom.hz() == k * b.denom.hz(),
    ensures
        a.same(b) <==> a.numer == k * b.numer,
        a.before(b) <==> a.numer < k * b.numer,
        b.before(a) <==> a.numer > k * b.numer,
        a.later_of(b) == (if a.numer > k * b.numer {
            a
        } else {
            b
        }),
{
    b.denom.lemma_positive();
    let (x, y, q) = (a.numer as int, b.numer as int, b.denom.hz());
    assert(y * (k * q) == (k * y) * q) by (nonlinear_arith);
    assert((x < k * y ==> x * q < (k * y) * q) && (x > k * y ==> x * q > (k * y) * q))
        by (nonlinear_arith)
        requires
            q > 0,
    ;
}

/// Points on any two clocks are compared by the ticks of a third one that is `k` times as fast as
/// the first and `l` times as fast as the second.
pub proof fn law_common_ticks_tell_the_order(a: MediaTime, b: MediaTime, k: int, l: int)
    requires
        k > 0,
        l > 0,
        k * a.denom.hz() == l * b.denom.hz(),
    ensures
        a.same(b) <==> k * a.numer == l * b.numer,
        a.before(b) <==> k * a.numer < l * b.numer,
        a.later_of(b) == (if k * a.numer > l * b.numer {
            a
        } else {
            b
        }),
{
    a.denom.lemma_positive();
    b.denom.lemma_positive();
    let (x, p) = (a.numer as int, a.denom.hz());
    let (y, q) = (b.numer as int, b.denom.hz());
    // Both sides of the comparison, times `k`.
    assert(k * (x * q) == (k * x) * q) by (nonlinear_arith);
    assert(k * (y * p) == (l * y) * q) by (nonlinear_arith)
        requires
            k * p == l * q,
    ;
    assert((x * q < y * p <==> k * (x * q) < k * (y * p)) && (x * q == y * p <==> k * (x * q) == k
        * (y * p))) by (nonlinear_arith)
        requires
            k > 0,
    ;
    assert((k * x < l * y <==> (k * x) * q < (l * y) * q) && (k * x == l * y <==> (k * x) * q == (l
        * y) * q)) by (nonlinear_arith)
        requires
            q > 0,
    ;
}

/// When a packet was received, in nanoseconds on a monotonic clock.
#[derive(Clone, Copy, Debug, PartialEq, Eq, PartialOrd, Ord, Structural)]
pub struct Instant {
    /// Nanoseconds since the clock's starting point.
    pub nanos: u64,
}

} // verus!
