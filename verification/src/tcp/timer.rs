//! The timers of a TCP socket.
use super::rtt::RTTE_MAX_RTO;
use crate::time::{Duration, Instant};
use vstd::prelude::*;

verus! {

/// How long an acknowledgement is held back by default, in milliseconds.
pub const ACK_DELAY_DEFAULT_MS: u64 = 10;

/// How long a socket stays in the TIME-WAIT state, in milliseconds.
pub const CLOSE_DELAY_MS: u64 = 10_000;

/// What a socket is waiting for.
#[derive(Debug, Clone, Copy, PartialEq, Eq, Structural)]
pub enum Timer {
    Idle { keep_alive_at: Option<Instant> },
    Retransmit { expires_at: Instant },
    FastRetransmit,
    ZeroWindowProbe { expires_at: Instant, delay: Duration },
    Close { expires_at: Instant },
}

/// Whether an acknowledgement is being held back.
#[derive(Debug, Clone, Copy, PartialEq, Eq, Structural)]
pub enum AckDelayTimer {
    Idle,
    Waiting(Instant),
    Immediate,
}

/// The instant one interval after `timestamp`, if there is an interval.
pub open spec fn after_interval(timestamp: Instant, interval: Option<Duration>) -> Option<Instant> {
    match interval {
        Some(d) => Some(timestamp.after(d)),
        None => None,
    }
}

impl Timer {
    pub open spec fn keeps_alive(self, now: Instant) -> bool {
        self matches Timer::Idle { keep_alive_at: Some(at) } && now.micros >= at.micros
    }

    pub open spec fn retransmits(self, now: Instant) -> bool {
        match self {
            Timer::Retransmit { expires_at } => now.micros >= expires_at.micros,
            Timer::FastRetransmit => true,
            _ => false,
        }
    }

    pub open spec fn closes(self, now: Instant) -> bool {
        self matches Timer::Close { expires_at } && now.micros >= expires_at.micros
    }

    pub open spec fn probes(self, now: Instant) -> bool {
        self matches Timer::ZeroWindowProbe { expires_at, .. } && now.micros >= expires_at.micros
    }

    /// The instant at which the timer wants attention next.
    pub open spec fn deadline(self) -> Instant {
        match self {
            Timer::Idle { keep_alive_at: Some(at) } => at,
            Timer::Idle { keep_alive_at: None } => Instant { micros: i64::MAX },
            Timer::ZeroWindowProbe { expires_at, .. } => expires_at,
            Timer::Retransmit { expires_at } => expires_at,
            Timer::FastRetransmit => Instant { micros: i64::MIN },
            Timer::Close { expires_at } => expires_at,
        }
    }

    pub open spec fn idle(now: Instant, interval: Option<Duration>) -> Timer {
        Timer::Idle { keep_alive_at: after_interval(now, interval) }
    }

    /// An idle timer without a keep-alive starts one at once.
    pub open spec fn with_keep_alive(self) -> Timer {
        match self {
            Timer::Idle { keep_alive_at: None } => Timer::Idle {
                keep_alive_at: Some(Instant { micros: 0 }),
            },
            _ => self,
        }
    }

    pub open spec fn keep_alive_rewound(self, now: Instant, interval: Option<Duration>) -> Timer {
        match self {
            Timer::Idle { .. } => Timer::idle(now, interval),
            _ => self,
        }
    }

    /// The retransmission timer takes the place of every timer but that of the
    /// TIME-WAIT state.
    pub open spec fn retransmitting(self, now: Instant, delay: Duration) -> Timer {
        match self {
            Timer::Close { .. } => self,
            _ => Timer::Retransmit { expires_at: now.after(delay) },
        }
    }

    pub open spec fn closing(now: Instant) -> Timer {
        Timer::Close { expires_at: now.after(Duration { micros: (CLOSE_DELAY_MS * 1000) as u64 }) }
    }

    pub open spec fn probing(now: Instant, delay: Duration) -> Timer {
        Timer::ZeroWindowProbe { expires_at: now.after(delay), delay }
    }

    /// The delay until the next probe: twice the last, at most a minute.
    pub open spec fn next_probe_delay(delay: Duration) -> Duration {
        if delay.micros * 2 < RTTE_MAX_RTO * 1000 {
            Duration { micros: (delay.micros * 2) as u64 }
        } else {
            Duration { micros: (RTTE_MAX_RTO * 1000) as u64 }
        }
    }

    pub open spec fn probe_rewound(self, now: Instant) -> Timer {
        match self {
            Timer::ZeroWindowProbe { delay, .. } => Timer::probing(
                now,
                Timer::next_probe_delay(delay),
            ),
            _ => self,
        }
    }

    /// A timer that waits for nothing.
    pub fn new() -> (r: Timer)
        ensures
            r == (Timer::Idle { keep_alive_at: None }),
    {
        Timer::Idle { keep_alive_at: None }
    }

    pub fn should_keep_alive(&self, timestamp: Instant) -> (r: bool)
        ensures
            r == self.keeps_alive(timestamp),
    {
        match *self {
            Timer::Idle { keep_alive_at: Some(at) } => timestamp >= at,
            _ => false,
        }
    }

    pub fn should_retransmit(&self, timestamp: Instant) -> (r: bool)
        ensures
            r == self.retransmits(timestamp),
    {
        match *self {
            Timer::Retransmit { expires_at } => timestamp >= expires_at,
            Timer::FastRetransmit => true,
            _ => false,
        }
    }

    pub fn should_close(&self, timestamp: Instant) -> (r: bool)
        ensures
            r == self.closes(timestamp),
    {
        match *self {
            Timer::Close { expires_at } => timestamp >= expires_at,
            _ => false,
        }
    }

    pub fn should_zero_window_probe(&self, timestamp: Instant) -> (r: bool)
        ensures
            r == self.probes(timestamp),
    {
        match *self {
            Timer::ZeroWindowProbe { expires_at, .. } => timestamp >= expires_at,
            _ => false,
        }
    }

    /// The instant at which the timer wants attention next.
    pub fn poll_at(&self) -> (r: Instant)
        ensures
            r == self.deadline(),
    {
        match *self {
            Timer::Idle { keep_alive_at: Some(at) } => at,
            Timer::Idle { keep_alive_at: None } => Instant::max_value(),
            Timer::ZeroWindowProbe { expires_at, .. } => expires_at,
            Timer::Retransmit { expires_at } => expires_at,
            Timer::FastRetransmit => Instant::min_value(),
            Timer::Close { expires_at } => expires_at,
        }
    }

    pub fn set_for_idle(&mut self, timestamp: Instant, interval: Option<Duration>)
        ensures
            *final(self) == Timer::idle(timestamp, interval),
    {
        let keep_alive_at = match interval {
            Some(interval) => Some(timestamp + interval),
            None => None,
        };
        *self = Timer::Idle { keep_alive_at };
    }

    pub fn set_keep_alive(&mut self)
        ensures
            *final(self) == old(self).with_keep_alive(),
    {
        if let Timer::Idle { keep_alive_at: None } = *self {
            *self = Timer::Idle { keep_alive_at: Some(Instant::zero()) };
        }
    }

    pub fn rewind_keep_alive(&mut self, timestamp: Instant, interval: Option<Duration>)
        ensures
            *final(self) == old(self).keep_alive_rewound(timestamp, interval),
    {
        if self.is_idle() {
            self.set_for_idle(timestamp, interval);
        }
    }

    pub fn set_for_retransmit(&mut self, timestamp: Instant, delay: Duration)
        ensures
            *final(self) == old(self).retransmitting(timestamp, delay),
    {
        match *self {
            Timer::Close { .. } => {},
            _ => {
                *self = Timer::Retransmit { expires_at: timestamp + delay };
            },
        }
    }

    pub fn set_for_fast_retransmit(&mut self)
        ensures
            *final(self) == Timer::FastRetransmit,
    {
        *self = Timer::FastRetransmit;
    }

    pub fn set_for_close(&mut self, timestamp: Instant)
        ensures
            *final(self) == Timer::closing(timestamp),
    {
        *self = Timer::Close { expires_at: timestamp + Duration::from_millis(CLOSE_DELAY_MS) };
    }

    pub fn set_for_zero_window_probe(&mut self, timestamp: Instant, delay: Duration)
        ensures
            *final(self) == Timer::probing(timestamp, delay),
    {
        *self = Timer::ZeroWindowProbe { expires_at: timestamp + delay, delay };
    }

    pub fn rewind_zero_window_probe(&mut self, timestamp: Instant)
        ensures
            *final(self) == old(self).probe_rewound(timestamp),
    {
        if let Timer::ZeroWindowProbe { delay, .. } = *self {
            let cap: u64 = RTTE_MAX_RTO as u64 * 1000;
            let next: u64 = if delay.micros < cap && delay.micros * 2 < cap {
                delay.micros * 2
            } else {
                cap
            };
            self.set_for_zero_window_probe(timestamp, Duration { micros: next });
        }
    }

    pub fn is_idle(&self) -> (r: bool)
        ensures
            r == (self is Idle),
    {
        matches!(self, Timer::Idle { .. })
    }

    pub fn is_zero_window_probe(&self) -> (r: bool)
        ensures
            r == (self is ZeroWindowProbe),
    {
        matches!(self, Timer::ZeroWindowProbe { .. })
    }

    pub fn is_retransmit(&self) -> (r: bool)
        ensures
            r == (self is Retransmit || self is FastRetransmit),
    {
        matches!(self, Timer::Retransmit { .. } | Timer::FastRetransmit)
    }
}

/// A timer never fires before its deadline, and one whose deadline has come
/// fires. (Waiting for nothing has a deadline at the end of time.)
pub proof fn law_timer_fires_at_deadline(t: Timer, now: Instant)
    requires
        now.micros < i64::MAX,
    ensures
        (t.keeps_alive(now) || t.retransmits(now) || t.closes(now) || t.probes(now))
            <==> now.micros >= t.deadline().micros,
{
}

/// The delay between two probes doubles each time, until it reaches a minute.
pub proof fn law_probe_backs_off(now: Instant, delay: Duration)
    requires
        delay.micros <= RTTE_MAX_RTO * 1000,
    ensures
        Timer::next_probe_delay(delay).micros >= delay.micros,
        Timer::next_probe_delay(delay).micros <= RTTE_MAX_RTO * 1000,
        delay.micros * 2 <= RTTE_MAX_RTO * 1000 ==> Timer::next_probe_delay(delay).micros
            == delay.micros * 2,
{
}

/// Turning keep-alives on makes one due at once, by any clock that has started, on a
/// connection that waits for nothing, and leaves any other timer alone.
pub proof fn law_keep_alive_starts_at_once(t: Timer, now: Instant)
    requires
        now.micros >= 0,
    ensures
        t == (Timer::Idle { keep_alive_at: None }) ==> t.with_keep_alive().keeps_alive(now),
        t != (Timer::Idle { keep_alive_at: None }) ==> t.with_keep_alive() == t,
{
}

/// The timer of a connection that is over is not replaced by a retransmission, and any other
/// timer is.
pub proof fn law_retransmission_replaces_other_timers(t: Timer, now: Instant, delay: Duration)
    requires
        now.micros + delay.micros <= i64::MAX,
    ensures
        t is Close ==> t.retransmitting(now, delay) == t,
        t !is Close ==> (t.retransmitting(now, delay) matches Timer::Retransmit { expires_at }
            && expires_at.micros == now.micros + delay.micros),
{
}

} // verus!
