//! Virtual time. The peer logic never reads a clock; drivers supply `Instant`s.
use vstd::prelude::*;

verus! {

/// A point in time, microseconds since the driver's epoch.
#[derive(Debug, Clone, Copy, PartialEq, Eq, Structural, Hash, PartialOrd, Ord)]
pub struct Instant(pub u64);

/// A span of time in microseconds.
#[derive(Debug, Clone, Copy, PartialEq, Eq, Structural, Hash, PartialOrd, Ord)]
pub struct Duration(pub u64);

/// `a - b` floored at zero.
pub open spec fn sat_sub(a: int, b: int) -> int {
    if a >= b { a - b } else { 0 }
}

/// `a + b` capped at `u64::MAX`.
pub open spec fn sat_add_u64(a: int, b: int) -> int {
    if a + b > u64::MAX { u64::MAX as int } else { a + b }
}

impl Instant {
    /// The epoch.
    pub fn zero() -> (r: Instant)
        ensures r.0 == 0,
    {
        Instant(0)
    }

    /// Microseconds since epoch.
    pub fn as_micros(self) -> (r: u64)
        ensures r == self.0,
    {
        self.0
    }

    /// `self - earlier`, saturating at zero.
    pub fn duration_since(self, earlier: Instant) -> (r: Duration)
        ensures r.0 == sat_sub(self.0 as int, earlier.0 as int),
    {
        Duration(self.0.saturating_sub(earlier.0))
    }

    /// Checked addition: `None` exactly when the sum leaves the `u64` range.
    pub fn checked_add(self, d: Duration) -> (r: Option<Instant>)
        ensures
            self.0 + d.0 <= u64::MAX ==> r == Some(Instant((self.0 + d.0) as u64)),
            self.0 + d.0 > u64::MAX ==> r.is_none(),
    {
        match self.0.checked_add(d.0) {
            Some(v) => Some(Instant(v)),
            None => None,
        }
    }

    /// `self + d`, saturating at the end of time.
    pub fn plus(self, d: Duration) -> (r: Instant)
        ensures r.0 == sat_add_u64(self.0 as int, d.0 as int),
    {
        if self.0 > u64::MAX - d.0 { Instant(u64::MAX) } else { Instant(self.0 + d.0) }
    }

    /// The earlier of two instants.
    pub fn earliest(self, other: Instant) -> (r: Instant)
        ensures r.0 == if self.0 <= other.0 { self.0 } else { other.0 },
    {
        if self.0 <= other.0 { self } else { other }
    }
}

impl Duration {
    /// Zero.
    pub fn zero() -> (r: Duration)
        ensures r.0 == 0,
    {
        Duration(0)
    }

    /// From milliseconds.
    pub fn from_millis(ms: u64) -> (r: Duration)
        requires ms * 1000 <= u64::MAX,
        ensures r.0 == ms * 1000,
    {
        Duration(ms * 1000)
    }

    /// From seconds.
    pub fn from_secs(s: u64) -> (r: Duration)
        requires s * 1_000_000 <= u64::MAX,
        ensures r.0 == s * 1_000_000,
    {
        Duration(s * 1_000_000)
    }

    /// From microseconds.
    pub fn from_micros(us: u64) -> (r: Duration)
        ensures r.0 == us,
    {
        Duration(us)
    }

    /// Microseconds.
    pub fn as_micros(self) -> (r: u64)
        ensures r == self.0,
    {
        self.0
    }

    /// Milliseconds, truncating.
    pub fn as_millis(self) -> (r: u64)
        ensures r == self.0 / 1000,
    {
        self.0 / 1000
    }

    /// Clamp into `[lo, hi]`.
    pub fn clamp(self, lo: Duration, hi: Duration) -> (r: Duration)
        requires lo.0 <= hi.0,
        ensures
            r.0 == if self.0 < lo.0 { lo.0 } else if self.0 > hi.0 { hi.0 } else { self.0 },
    {
        if self.0 < lo.0 {
            lo
        } else if self.0 > hi.0 {
            hi
        } else {
            self
        }
    }

    /// Integer division; a divisor of zero divides by one.
    pub fn div_by(self, n: u64) -> (r: Duration)
        ensures r.0 == if n == 0 { self.0 } else { self.0 / n },
    {
        let d: u64 = if n == 0 { 1 } else { n };
        Duration(self.0 / d)
    }

    /// `self + o`, saturating.
    pub fn plus(self, o: Duration) -> (r: Duration)
        ensures r.0 == sat_add_u64(self.0 as int, o.0 as int),
    {
        if self.0 > u64::MAX - o.0 { Duration(u64::MAX) } else { Duration(self.0 + o.0) }
    }

    /// `self - o`, saturating at zero.
    pub fn minus(self, o: Duration) -> (r: Duration)
        ensures r.0 == sat_sub(self.0 as int, o.0 as int),
    {
        Duration(self.0.saturating_sub(o.0))
    }

    /// `self * n`, saturating.
    pub fn times(self, n: u64) -> (r: Duration)
        ensures r.0 == if self.0 * n > u64::MAX { u64::MAX as int } else { self.0 * n },
    {
        match self.0.checked_mul(n) {
            Some(v) => Duration(v),
            None => Duration(u64::MAX),
        }
    }
}

} // verus!
