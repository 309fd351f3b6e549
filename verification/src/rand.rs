//! A source of numbers that are hard to predict from outside.
use vstd::prelude::*;

verus! {

/// A linear congruential generator.
#[derive(Debug, Clone, Copy, PartialEq, Eq, Structural)]
pub struct Rand {
    pub state: u64,
}

impl Rand {
    /// The state that follows.
    pub open spec fn next(self) -> Rand {
        Rand {
            state: vstd::wrapping::u64_specs::wrapping_add(
                vstd::wrapping::u64_specs::wrapping_mul(self.state, 6_364_136_223_846_793_005),
                1_442_695_040_888_963_407,
            ),
        }
    }

    /// The number that a state stands for.
    pub open spec fn value(self) -> u32 {
        (self.state >> 32) as u32
    }

    pub fn new(seed: u64) -> (r: Rand)
        ensures
            r.state == seed,
    {
        Rand { state: seed }
    }

    /// The next number.
    pub fn rand_u32(&mut self) -> (r: u32)
        ensures
            *final(self) == old(self).next(),
            r == old(self).next().value(),
    {
        self.state = self.state.wrapping_mul(6_364_136_223_846_793_005).wrapping_add(
            1_442_695_040_888_963_407,
        );
        (self.state >> 32) as u32
    }
}

/// Each state follows from the one before by the recurrence `a * x + c` modulo `2^64`, and
/// the number it stands for is its upper half.
pub proof fn law_numbers_follow_the_recurrence(r: Rand)
    ensures
        r.next().state as int == (r.state * 6_364_136_223_846_793_005 + 1_442_695_040_888_963_407)
            % 0x1_0000_0000_0000_0000,
        r.value() as int == r.state as int / 0x1_0000_0000,
{
    let x = r.state;
    let m = r.state * 6_364_136_223_846_793_005;
    let n = 0x1_0000_0000_0000_0000;
    assert((m % n + 1_442_695_040_888_963_407) % n == (m + 1_442_695_040_888_963_407) % n);
    assert((x >> 32) as u32 == x / 0x1_0000_0000) by (bit_vector);
}

} // verus!
