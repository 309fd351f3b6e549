//! TCP sequence numbers: points on a circle of `2^32` positions.
use core::cmp::Ordering;
use vstd::prelude::*;
use vstd::std_specs::cmp::PartialOrdSpecImpl;
use vstd::std_specs::ops::{AddSpecImpl, SubSpecImpl};

verus! {

/// A TCP sequence number. Arithmetic wraps round; comparison looks at which of
/// the two numbers comes first along the shorter way between them.
#[derive(Debug, Clone, Copy, PartialEq, Eq, Structural)]
pub struct TcpSeqNumber(pub i32);

impl TcpSeqNumber {
    /// The sequence number `n` positions further on.
    pub open spec fn plus(self, n: int) -> TcpSeqNumber {
        let s = self.0 + n;
        if s > i32::MAX {
            TcpSeqNumber((s - 0x1_0000_0000) as i32)
        } else if s < i32::MIN {
            TcpSeqNumber((s + 0x1_0000_0000) as i32)
        } else {
            TcpSeqNumber(s as i32)
        }
    }

    /// How far `self` lies ahead of `other` (behind it, if negative) along the
    /// shorter way.
    pub open spec fn diff(self, other: TcpSeqNumber) -> int {
        let d = self.0 - other.0;
        if d > i32::MAX {
            d - 0x1_0000_0000
        } else if d < i32::MIN {
            d + 0x1_0000_0000
        } else {
            d
        }
    }

    /// The one of two sequence numbers that lies ahead of the other.
    pub open spec fn later(self, other: TcpSeqNumber) -> TcpSeqNumber {
        if self.diff(other) > 0 {
            self
        } else {
            other
        }
    }

    /// The one of two sequence numbers that lies behind the other.
    pub open spec fn sooner(self, other: TcpSeqNumber) -> TcpSeqNumber {
        if self.diff(other) < 0 {
            self
        } else {
            other
        }
    }
}

/// Going forward by less than half the circle and measuring the way back gives
/// the same distance again.
pub proof fn law_add_then_diff(a: TcpSeqNumber, n: int)
    requires
        0 <= n <= i32::MAX,
    ensures
        a.plus(n).diff(a) == n,
{
}

/// Going from `b` by the distance from `b` to `a` leads to `a`.
pub proof fn law_diff_then_add(a: TcpSeqNumber, b: TcpSeqNumber)
    ensures
        b.plus(a.diff(b)) == a,
{
}

impl Default for TcpSeqNumber {
    fn default() -> (r: TcpSeqNumber)
        ensures
            r == TcpSeqNumber(0),
    {
        TcpSeqNumber(0)
    }
}

impl TcpSeqNumber {
    /// The one of the two that lies ahead.
    pub fn max(self, other: TcpSeqNumber) -> (r: TcpSeqNumber)
        ensures
            r == self.later(other),
    {
        if self > other {
            self
        } else {
            other
        }
    }

    /// The one of the two that lies behind.
    pub fn min(self, other: TcpSeqNumber) -> (r: TcpSeqNumber)
        ensures
            r == self.sooner(other),
    {
        if self < other {
            self
        } else {
            other
        }
    }
}

impl PartialOrd for TcpSeqNumber {
    fn partial_cmp(&self, other: &TcpSeqNumber) -> (r: Option<Ordering>) {
        let d: i32 = self.0.wrapping_sub(other.0);
        if d < 0 {
            Some(Ordering::Less)
        } else if d == 0 {
            Some(Ordering::Equal)
        } else {
            Some(Ordering::Greater)
        }
    }
}

impl PartialOrdSpecImpl for TcpSeqNumber {
    open spec fn obeys_partial_cmp_spec() -> bool {
        true
    }

    open spec fn partial_cmp_spec(&self, other: &TcpSeqNumber) -> Option<Ordering> {
        let d = self.diff(*other);
        if d < 0 {
            Some(Ordering::Less)
        } else if d == 0 {
            Some(Ordering::Equal)
        } else {
            Some(Ordering::Greater)
        }
    }
}

impl core::ops::Add<usize> for TcpSeqNumber {
    type Output = TcpSeqNumber;

    fn add(self, n: usize) -> (r: TcpSeqNumber) {
        TcpSeqNumber(self.0.wrapping_add(n as i32))
    }
}

impl AddSpecImpl<usize> for TcpSeqNumber {
    open spec fn obeys_add_spec() -> bool {
        true
    }

    open spec fn add_req(self, n: usize) -> bool {
        n <= i32::MAX
    }

    open spec fn add_spec(self, n: usize) -> TcpSeqNumber {
        self.plus(n as int)
    }
}

impl core::ops::Sub<usize> for TcpSeqNumber {
    type Output = TcpSeqNumber;

    fn sub(self, n: usize) -> (r: TcpSeqNumber) {
        TcpSeqNumber(self.0.wrapping_sub(n as i32))
    }
}

impl SubSpecImpl<usize> for TcpSeqNumber {
    open spec fn obeys_sub_spec() -> bool {
        true
    }

    open spec fn sub_req(self, n: usize) -> bool {
        n <= i32::MAX
    }

    open spec fn sub_spec(self, n: usize) -> TcpSeqNumber {
        self.plus(-(n as int))
    }
}

impl core::ops::Sub<TcpSeqNumber> for TcpSeqNumber {
    type Output = usize;

    fn sub(self, other: TcpSeqNumber) -> (r: usize) {
        self.0.wrapping_sub(other.0) as usize
    }
}

impl SubSpecImpl<TcpSeqNumber> for TcpSeqNumber {
    open spec fn obeys_sub_spec() -> bool {
        true
    }

    open spec fn sub_req(self, other: TcpSeqNumber) -> bool {
        self.diff(other) >= 0
    }

    open spec fn sub_spec(self, other: TcpSeqNumber) -> usize {
        self.diff(other) as usize
    }
}

/// Sequence numbers are counted modulo `2^32`: going on by `n` adds `n`, and the distance
/// between two is their difference, the shorter way round.
pub proof fn law_numbers_lie_on_a_circle(a: TcpSeqNumber, b: TcpSeqNumber, n: int)
    requires
        -0x8000_0000 <= n <= 0x7fff_ffff,
    ensures
        (a.plus(n).0 - a.0 - n) % 0x1_0000_0000 == 0,
        (a.diff(b) - (a.0 - b.0)) % 0x1_0000_0000 == 0,
        -0x8000_0000 <= a.diff(b) <= 0x7fff_ffff,
{
}

/// Of two sequence numbers, the later one is ahead of the other along the shorter way, and
/// the sooner one is the other of the two.
pub proof fn law_later_is_ahead(a: TcpSeqNumber, b: TcpSeqNumber)
    requires
        a.diff(b) != -0x8000_0000,
    ensures
        a.later(b).diff(a.sooner(b)) >= 0,
        a.later(b) == a && a.sooner(b) == b || a.later(b) == b && a.sooner(b) == a,
        a.diff(b) > 0 ==> a.later(b) == a,
        a.diff(b) < 0 ==> a.sooner(b) == a,
{
}

/// Going on by less than half the circle leads to a greater number, a number is equal to
/// itself only, and of two numbers that are not opposite each other exactly one is less.
pub proof fn law_order_follows_the_circle(a: TcpSeqNumber, b: TcpSeqNumber, n: int)
    requires
        0 < n <= 0x7fff_ffff,
        a.diff(b) != -0x8000_0000,
    ensures
        vstd::std_specs::cmp::PartialOrdSpec::partial_cmp_spec(&a.plus(n), &a) == Some(
            Ordering::Greater,
        ),
        vstd::std_specs::cmp::PartialOrdSpec::partial_cmp_spec(&a, &a.plus(n)) == Some(
            Ordering::Less,
        ),
        vstd::std_specs::cmp::PartialOrdSpec::partial_cmp_spec(&a, &b) == Some(Ordering::Equal)
            <==> a == b,
        vstd::std_specs::cmp::PartialOrdSpec::partial_cmp_spec(&a, &b) == Some(Ordering::Less)
            <==> vstd::std_specs::cmp::PartialOrdSpec::partial_cmp_spec(&b, &a) == Some(
            Ordering::Greater,
        ),
{
}

/// A number that is added can be taken away again, and the distance to what it led to is
/// the number.
pub proof fn law_addition_is_undone(a: TcpSeqNumber, n: usize)
    requires
        n <= 0x7fff_ffff,
    ensures
        ({
            let sum = vstd::std_specs::ops::AddSpec::add_spec(a, n);
            &&& sum == a.plus(n as int)
            &&& vstd::std_specs::ops::SubSpec::sub_spec(sum, n) == a
            &&& vstd::std_specs::ops::SubSpec::sub_spec(sum, a) == n
        }),
{
}

} // verus!
