//! Points in time and spans of time, both counted in microseconds.
use core::cmp::Ordering;
use vstd::prelude::*;
use vstd::std_specs::cmp::PartialOrdSpecImpl;
use vstd::std_specs::ops::{AddSpecImpl, SubSpecImpl};

verus! {

/// A point in time, in microseconds since an arbitrary origin.
#[derive(Debug, Clone, Copy, PartialEq, Eq, Structural)]
pub struct Instant {
    pub micros: i64,
}

/// A span of time, in microseconds.
#[derive(Debug, Clone, Copy, PartialEq, Eq, Structural)]
pub struct Duration {
    pub micros: u64,
}

/// `x` brought into the range of `i64`.
pub open spec fn clamp_i64(x: int) -> int {
    if x > i64::MAX {
        i64::MAX as int
    } else if x < i64::MIN {
        i64::MIN as int
    } else {
        x
    }
}

/// `x / d` rounded towards zero.
pub open spec fn div_to_zero(x: int, d: int) -> int {
    if x >= 0 {
        x / d
    } else {
        -((-x) / d)
    }
}

impl Instant {
    /// The instant `delay` later; the end of time stands for "never".
    pub open spec fn after(self, delay: Duration) -> Instant {
        Instant { micros: clamp_i64(self.micros + delay.micros) as i64 }
    }

    /// The length of the span between two instants, whichever comes first.
    pub open spec fn span(self, other: Instant) -> Duration {
        Duration {
            micros: (if self.micros >= other.micros {
                self.micros - other.micros
            } else {
                other.micros - self.micros
            }) as u64,
        }
    }

    /// The origin of time.
    pub fn zero() -> (r: Instant)
        ensures
            r.micros == 0,
    {
        Instant { micros: 0 }
    }

    /// The beginning of time: a deadline that has passed at every instant.
    pub fn min_value() -> (r: Instant)
        ensures
            r.micros == i64::MIN,
    {
        Instant { micros: i64::MIN }
    }

    /// The end of time: a deadline that stands for "never".
    pub fn max_value() -> (r: Instant)
        ensures
            r.micros == i64::MAX,
    {
        Instant { micros: i64::MAX }
    }

    /// The instant `millis` milliseconds after the origin.
    pub fn from_millis(millis: i64) -> (r: Instant)
        requires
            i64::MIN <= millis * 1000 <= i64::MAX,
        ensures
            r.micros == millis * 1000,
    {
        Instant { micros: millis * 1000 }
    }

    /// The instant `secs` seconds after the origin.
    pub fn from_secs(secs: i64) -> (r: Instant)
        requires
            i64::MIN <= secs * 1_000_000 <= i64::MAX,
        ensures
            r.micros == secs * 1_000_000,
    {
        Instant { micros: secs * 1_000_000 }
    }

    /// The whole milliseconds since the origin, rounded towards it.
    pub fn total_millis(&self) -> (r: i64)
        ensures
            r == div_to_zero(self.micros as int, 1000),
    {
        if self.micros >= 0 {
            self.micros / 1000
        } else if self.micros == i64::MIN {
            -9_223_372_036_854_775
        } else {
            -((-self.micros) / 1000)
        }
    }

    /// The earlier of two instants.
    pub fn earlier(self, other: Instant) -> (r: Instant)
        ensures
            r == if other.micros < self.micros { other } else { self },
    {
        if other.micros < self.micros {
            other
        } else {
            self
        }
    }
}

impl Duration {
    /// A span of `millis` milliseconds.
    pub fn from_millis(millis: u64) -> (r: Duration)
        requires
            millis * 1000 <= u64::MAX,
        ensures
            r.micros == millis * 1000,
    {
        Duration { micros: millis * 1000 }
    }

    /// A span of `secs` seconds.
    pub fn from_secs(secs: u64) -> (r: Duration)
        requires
            secs * 1_000_000 <= u64::MAX,
        ensures
            r.micros == secs * 1_000_000,
    {
        Duration { micros: secs * 1_000_000 }
    }

    /// The whole milliseconds in the span.
    pub fn total_millis(&self) -> (r: u64)
        ensures
            r == self.micros / 1000,
    {
        self.micros / 1000
    }
}

impl PartialOrd for Instant {
    fn partial_cmp(&self, other: &Instant) -> (r: Option<Ordering>) {
        if self.micros < other.micros {
            Some(Ordering::Less)
        } else if self.micros == other.micros {
            Some(Ordering::Equal)
        } else {
            Some(Ordering::Greater)
        }
    }
}

impl PartialOrdSpecImpl for Instant {
    open spec fn obeys_partial_cmp_spec() -> bool {
        true
    }

    open spec fn partial_cmp_spec(&self, other: &Instant) -> Option<Ordering> {
        if self.micros < other.micros {
            Some(Ordering::Less)
        } else if self.micros == other.micros {
            Some(Ordering::Equal)
        } else {
            Some(Ordering::Greater)
        }
    }
}

impl PartialOrd for Duration {
    fn partial_cmp(&self, other: &Duration) -> (r: Option<Ordering>) {
        if self.micros < other.micros {
            Some(Ordering::Less)
        } else if self.micros == other.micros {
            Some(Ordering::Equal)
        } else {
            Some(Ordering::Greater)
        }
    }
}

impl PartialOrdSpecImpl for Duration {
    open spec fn obeys_partial_cmp_spec() -> bool {
        true
    }

    open spec fn partial_cmp_spec(&self, other: &Duration) -> Option<Ordering> {
        if self.micros < other.micros {
            Some(Ordering::Less)
        } else if self.micros == other.micros {
            Some(Ordering::Equal)
        } else {
            Some(Ordering::Greater)
        }
    }
}

impl core::ops::Add<Duration> for Instant {
    type Output = Instant;

    fn add(self, delay: Duration) -> (r: Instant) {
        let sum: i128 = self.micros as i128 + delay.micros as i128;
        if sum > i64::MAX as i128 {
            Instant { micros: i64::MAX }
        } else {
            Instant { micros: sum as i64 }
        }
    }
}

impl AddSpecImpl<Duration> for Instant {
    open spec fn obeys_add_spec() -> bool {
        true
    }

    open spec fn add_req(self, delay: Duration) -> bool {
        true
    }

    open spec fn add_spec(self, delay: Duration) -> Instant {
        self.after(delay)
    }
}

impl core::ops::Sub<Instant> for Instant {
    type Output = Duration;

    fn sub(self, other: Instant) -> (r: Duration) {
        let gap: i128 = self.micros as i128 - other.micros as i128;
        if gap >= 0 {
            Duration { micros: gap as u64 }
        } else {
            Duration { micros: (-gap) as u64 }
        }
    }
}

impl SubSpecImpl<Instant> for Instant {
    open spec fn obeys_sub_spec() -> bool {
        true
    }

    open spec fn sub_req(self, other: Instant) -> bool {
        true
    }

    open spec fn sub_spec(self, other: Instant) -> Duration {
        self.span(other)
    }
}

/// Adding a span to an instant and measuring the way back gives the span, whichever way
/// it is measured, as long as the end of time is not reached. What would lie behind it is
/// the end of time itself.
pub proof fn law_span_is_measured_back(a: Instant, d: Duration)
    ensures
        a.micros + d.micros <= i64::MAX ==> {
            &&& a.after(d).micros == a.micros + d.micros
            &&& a.after(d).span(a) == d
            &&& a.span(a.after(d)) == d
        },
        a.micros + d.micros > i64::MAX ==> a.after(d).micros == i64::MAX,
{
}

/// The distance between two instants is how much later the later one is.
pub proof fn law_span_is_the_distance(a: Instant, b: Instant)
    ensures
        a.micros >= b.micros ==> a.span(b).micros == a.micros - b.micros,
        a.span(b) == b.span(a),
{
}

/// A number of whole units is rounded towards zero, alike on both sides of it.
pub proof fn law_units_are_rounded_to_zero(x: int, d: int)
    requires
        d > 0,
    ensures
        ({
            let q = div_to_zero(x, d);
            &&& x >= 0 ==> d * q <= x < d * q + d
            &&& x <= 0 ==> d * q - d < x <= d * q
            &&& div_to_zero(-x, d) == -q
        }),
{
    let m = if x >= 0 {
        x
    } else {
        -x
    };
    vstd::arithmetic::div_mod::lemma_fundamental_div_mod(m, d);
    vstd::arithmetic::div_mod::lemma_mod_bound(m, d);
    let q = m / d;
    assert(d * (-q) == -(d * q)) by (nonlinear_arith);
    if x == 0 {
        vstd::arithmetic::div_mod::lemma_div_basics(d);
    }
}

} // verus!
