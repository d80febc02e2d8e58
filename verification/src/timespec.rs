//! Wall-clock timestamps and the day arithmetic of the schedule window.

use vstd::prelude::*;

verus! {

/// Seconds in one day.
pub const DAY: i64 = 86_400;

/// Nanoseconds in one second.
pub const BILLION: u64 = 1_000_000_000;

/// Largest distance from the epoch, in seconds, that the day arithmetic
/// accepts: far beyond any calendar date, and small enough that a few days
/// and a zone offset can be added without leaving `i64`.
pub const HORIZON: i64 = 4_000_000_000_000_000_000;

/// A moment in UTC: seconds since the Unix epoch and nanoseconds within the
/// second. Moments are ordered by seconds first, then by nanoseconds.
#[derive(Clone, Copy, Debug, PartialEq, Eq, Structural)]
pub struct Timespec {
    pub sec: i64,
    pub nsec: i32,
}

impl Timespec {
    /// `self` lies strictly before `other`.
    pub open spec fn before(self, other: Timespec) -> bool {
        self.sec < other.sec || (self.sec == other.sec && self.nsec < other.nsec)
    }

    /// `self` lies before `other` or is the same moment.
    pub open spec fn not_after(self, other: Timespec) -> bool {
        self.before(other) || self == other
    }

    /// The epoch, which also serves as "no moment yet".
    pub open spec fn zero() -> Timespec {
        Timespec { sec: 0, nsec: 0 }
    }

    /// The latest moment that can be represented.
    pub open spec fn latest() -> Timespec {
        Timespec { sec: i64::MAX, nsec: i32::MAX }
    }

    /// The seconds are within `HORIZON` of the epoch.
    pub open spec fn in_range(self) -> bool {
        self.within(0)
    }

    /// The seconds are within `HORIZON + margin` of the epoch.
    pub open spec fn within(self, margin: int) -> bool {
        -HORIZON - margin <= self.sec <= HORIZON + margin
    }

    /// The nanoseconds are less than a second and not negative.
    pub open spec fn normal(self) -> bool {
        0 <= self.nsec < 1_000_000_000
    }

    /// The start (00:00:00.0 UTC) of the day that holds `self`.
    pub open spec fn day_start(self) -> Timespec {
        Timespec { sec: (self.sec - self.sec % DAY) as i64, nsec: 0 }
    }

    /// The moment lies in the years 1970 to 9999, which every calendar
    /// prints, and prints alike.
    pub open spec fn printable(self) -> bool {
        0 <= self.sec <= 253_402_300_799
    }

    /// The nanoseconds from the epoch to `self`.
    pub open spec fn nanos(self) -> int {
        self.sec * 1_000_000_000 + self.nsec
    }

    /// `self` moved by `seconds`, nanoseconds unchanged.
    pub open spec fn shifted(self, seconds: int) -> Timespec {
        Timespec { sec: (self.sec + seconds) as i64, nsec: self.nsec }
    }

    pub fn new(sec: i64, nsec: i32) -> (t: Timespec)
        ensures
            t == (Timespec { sec, nsec }),
    {
        Timespec { sec, nsec }
    }

    pub fn epoch() -> (t: Timespec)
        ensures
            t == Timespec::zero(),
    {
        Timespec { sec: 0, nsec: 0 }
    }

    pub fn far_future() -> (t: Timespec)
        ensures
            t == Timespec::latest(),
            forall|o: Timespec| o.not_after(t),
    {
        Timespec { sec: i64::MAX, nsec: i32::MAX }
    }

    pub fn is_in_range(&self) -> (r: bool)
        ensures
            r == self.in_range(),
    {
        -HORIZON <= self.sec && self.sec <= HORIZON
    }

    pub fn is_printable(&self) -> (r: bool)
        ensures
            r == self.printable(),
    {
        0 <= self.sec && self.sec <= 253_402_300_799
    }

    pub fn is_normal(&self) -> (r: bool)
        ensures
            r == self.normal(),
    {
        0 <= self.nsec && self.nsec < 1_000_000_000
    }

    pub fn is_before(&self, other: &Timespec) -> (r: bool)
        ensures
            r == self.before(*other),
    {
        self.sec < other.sec || (self.sec == other.sec && self.nsec < other.nsec)
    }

    pub fn is_not_after(&self, other: &Timespec) -> (r: bool)
        ensures
            r == self.not_after(*other),
    {
        self.sec < other.sec || (self.sec == other.sec && self.nsec <= other.nsec)
    }

    /// Snaps a moment to the start of its UTC day.
    pub fn start_of_day(&self) -> (d: Timespec)
        requires
            self.in_range(),
        ensures
            d == self.day_start(),
            d.sec % DAY == 0,
            d.sec <= self.sec < d.sec + DAY,
    {
        let sec: i64 = self.sec;
        let start: i64 = if sec >= 0 {
            sec - sec % DAY
        } else {
            let below: i64 = -(sec + 1);
            let days: i64 = below / DAY;
            assert(sec % DAY == (DAY - 1) - below % DAY) by {
                lemma_negative_remainder(sec as int, DAY as int);
            }
            -(days + 1) * DAY
        };
        Timespec { sec: start, nsec: 0 }
    }

    /// Moves a moment forward by a number of nanoseconds.
    pub fn add_nanos(&self, ns: u64) -> (t: Timespec)
        requires
            self.in_range(),
            self.normal(),
        ensures
            t.normal(),
            t.nanos() == self.nanos() + ns,
    {
        let secs: u64 = ns / BILLION;
        let rest: u64 = ns % BILLION;
        let mut sec: i64 = self.sec + secs as i64;
        let mut nsec: i64 = self.nsec as i64 + rest as i64;
        if nsec >= 1_000_000_000 {
            nsec -= 1_000_000_000;
            sec += 1;
        }
        Timespec { sec, nsec: nsec as i32 }
    }

    /// Moves a moment by a number of seconds.
    pub fn add_seconds(&self, seconds: i64) -> (t: Timespec)
        requires
            i64::MIN <= self.sec + seconds <= i64::MAX,
        ensures
            t == self.shifted(seconds as int),
    {
        Timespec { sec: self.sec + seconds, nsec: self.nsec }
    }
}

/// Among moments with normal nanoseconds, the earlier moment is the one with
/// fewer nanoseconds from the epoch.
pub proof fn lemma_order_by_nanos(a: Timespec, b: Timespec)
    requires
        a.normal(),
        b.normal(),
    ensures
        a.before(b) <==> a.nanos() < b.nanos(),
        a.not_after(b) <==> a.nanos() <= b.nanos(),
{
}

/// For a negative `x`, the remainder of `x` is the mirror image of the
/// remainder of `-(x + 1)`.
pub proof fn lemma_negative_remainder(x: int, d: int)
    requires
        x < 0,
        d > 0,
    ensures
        x % d == (d - 1) - (-(x + 1)) % d,
        x - x % d == -((-(x + 1)) / d + 1) * d,
{
    let y = -(x + 1);
    let q = y / d;
    let r = y % d;
    assert(y == q * d + r && 0 <= r < d) by {
        vstd::arithmetic::div_mod::lemma_fundamental_div_mod(y, d);
        vstd::arithmetic::div_mod::lemma_mod_bound(y, d);
    }
    assert(x == (-(q + 1)) * d + (d - 1 - r)) by (nonlinear_arith)
        requires
            y == q * d + r,
            y == -(x + 1),
    ;
    vstd::arithmetic::div_mod::lemma_fundamental_div_mod_converse(x, d, -(q + 1), d - 1 - r);
    assert(-(q + 1) * d == (-(q + 1)) * d) by (nonlinear_arith);
}

} // verus!
