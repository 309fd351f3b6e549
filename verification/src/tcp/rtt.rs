//! Estimation of the round-trip time, and the retransmission timeout that
//! follows from it (RFC 6298).
use crate::time::{Duration, Instant};
use crate::wire::TcpSeqNumber;
use vstd::prelude::*;

verus! {

/// The timeout in milliseconds until the first measurement has been made.
pub const RTTE_INITIAL_RTO: u32 = 1000;

/// The margin in milliseconds that the timeout keeps above the smoothed
/// round-trip time when the variance is very low.
pub const RTTE_MIN_MARGIN: u32 = 5;

/// The weight of the variance in the timeout.
pub const RTTE_K: u32 = 4;

/// The least timeout in milliseconds.
pub const RTTE_MIN_RTO: u32 = 1000;

/// The greatest timeout in milliseconds.
pub const RTTE_MAX_RTO: u32 = 60_000;

/// The state of the estimation. Times are in milliseconds.
#[derive(Debug, Clone, Copy, PartialEq, Eq)]
pub struct RttEstimator {
    /// Whether at least one measurement has been made.
    pub have_measurement: bool,
    /// The smoothed round-trip time.
    pub srtt: u32,
    /// The variance of the round-trip time.
    pub rttvar: u32,
    /// The retransmission timeout.
    pub rto: u32,
    /// When the segment that is being measured was sent, and the sequence number
    /// whose acknowledgement ends the measurement.
    pub timestamp: Option<(Instant, TcpSeqNumber)>,
    /// The highest sequence number sent.
    pub max_seq_sent: Option<TcpSeqNumber>,
    /// How often the timeout has expired since the last measurement.
    pub rto_count: u8,
}

/// `x / d` rounded up.
pub open spec fn div_up(x: int, d: int) -> int {
    (x + d - 1) / d
}

/// `x` brought into the range from `lo` to `hi`.
pub open spec fn clamp(x: int, lo: int, hi: int) -> int {
    if x < lo {
        lo
    } else if x > hi {
        hi
    } else {
        x
    }
}

/// The magnitude of `x`.
pub open spec fn magnitude(x: int) -> int {
    if x < 0 {
        -x
    } else {
        x
    }
}

impl RttEstimator {
    /// The state before anything has been sent.
    pub open spec fn initial() -> RttEstimator {
        RttEstimator {
            have_measurement: false,
            srtt: 0,
            rttvar: 0,
            rto: RTTE_INITIAL_RTO,
            timestamp: None,
            max_seq_sent: None,
            rto_count: 0,
        }
    }

    pub open spec fn inv(self) -> bool {
        &&& RTTE_MIN_RTO <= self.rto <= RTTE_MAX_RTO
        &&& self.rto_count < 3
    }

    /// The smoothed round-trip time once `new_rtt` has been measured.
    pub open spec fn next_srtt(self, new_rtt: u32) -> int {
        if self.have_measurement {
            div_up(self.srtt * 7 + new_rtt, 8)
        } else {
            new_rtt as int
        }
    }

    /// The variance once `new_rtt` has been measured.
    pub open spec fn next_rttvar(self, new_rtt: u32) -> int {
        if self.have_measurement {
            div_up(
                self.rttvar * 3 + magnitude((self.srtt as i32) - (new_rtt as i32)),
                4,
            )
        } else {
            new_rtt as int / 2
        }
    }

    /// The margin once `new_rtt` has been measured.
    pub open spec fn next_margin(self, new_rtt: u32) -> int {
        if self.next_rttvar(new_rtt) * RTTE_K < RTTE_MIN_MARGIN {
            RTTE_MIN_MARGIN as int
        } else {
            self.next_rttvar(new_rtt) * RTTE_K
        }
    }

    /// Taking the sample `new_rtt` into account stays within 32-bit numbers.
    pub open spec fn sample_in_range(self, new_rtt: u32) -> bool {
        &&& self.have_measurement ==> {
            &&& i32::MIN <= (self.srtt as i32) - (new_rtt as i32) <= i32::MAX
            &&& self.rttvar * 3 + magnitude((self.srtt as i32) - (new_rtt as i32)) <= u32::MAX
            &&& self.srtt * 7 + new_rtt <= u32::MAX
        }
        &&& self.next_rttvar(new_rtt) * RTTE_K <= u32::MAX
        &&& self.next_srtt(new_rtt) + self.next_margin(new_rtt) <= u32::MAX
    }

    /// The state once `new_rtt` has been measured.
    pub open spec fn sampled(self, new_rtt: u32) -> RttEstimator {
        RttEstimator {
            have_measurement: true,
            srtt: self.next_srtt(new_rtt) as u32,
            rttvar: self.next_rttvar(new_rtt) as u32,
            rto: clamp(
                self.next_srtt(new_rtt) + self.next_margin(new_rtt),
                RTTE_MIN_RTO as int,
                RTTE_MAX_RTO as int,
            ) as u32,
            rto_count: 0,
            ..self
        }
    }

    /// The state once a segment up to `seq` has been sent: only a new highest
    /// sequence number counts, and starts a measurement unless one is under way.
    pub open spec fn sent(self, timestamp: Instant, seq: TcpSeqNumber) -> RttEstimator {
        let is_new = match self.max_seq_sent {
            Some(max) => seq.diff(max) > 0,
            None => true,
        };
        if is_new {
            RttEstimator {
                max_seq_sent: Some(seq),
                timestamp: if self.timestamp is None {
                    Some((timestamp, seq))
                } else {
                    self.timestamp
                },
                ..self
            }
        } else {
            self
        }
    }

    /// The length in milliseconds of a measurement that ends now.
    pub open spec fn elapsed_ms(self, timestamp: Instant, start: Instant) -> u32 {
        (timestamp.span(start).micros / 1000) as u32
    }

    /// The measurement that an acknowledgement up to `seq` ends, if any, stays
    /// within range.
    pub open spec fn ack_in_range(self, timestamp: Instant, seq: TcpSeqNumber) -> bool {
        match self.timestamp {
            Some((start, sent_seq)) => seq.diff(sent_seq) >= 0 ==> self.sample_in_range(
                self.elapsed_ms(timestamp, start),
            ),
            None => true,
        }
    }

    /// The state once everything up to `seq` has been acknowledged.
    pub open spec fn acked(self, timestamp: Instant, seq: TcpSeqNumber) -> RttEstimator {
        match self.timestamp {
            Some((start, sent_seq)) => if seq.diff(sent_seq) >= 0 {
                RttEstimator {
                    timestamp: None,
                    ..self.sampled(self.elapsed_ms(timestamp, start))
                }
            } else {
                self
            },
            None => self,
        }
    }

    /// The state once the timeout has expired: it doubles, and the third time in
    /// a row the measurements are forgotten.
    pub open spec fn timed_out(self) -> RttEstimator {
        let rto = if self.rto * 2 < RTTE_MAX_RTO {
            (self.rto * 2) as u32
        } else {
            RTTE_MAX_RTO
        };
        if self.rto_count >= 2 {
            RttEstimator { rto, rto_count: 0, have_measurement: false, ..self }
        } else {
            RttEstimator { rto, rto_count: (self.rto_count + 1) as u8, ..self }
        }
    }

    /// The retransmission timeout as a span of time.
    pub open spec fn timeout(self) -> Duration {
        Duration { micros: (self.rto * 1000) as u64 }
    }
}

/// As long as no sample exceeds some six days, and none has before, a sample
/// stays within range, and the estimate stays below the greatest sample.
pub proof fn law_samples_stay_in_range(e: RttEstimator, new_rtt: u32)
    requires
        e.srtt <= 536_870_911,
        e.rttvar <= 536_870_911,
        new_rtt <= 536_870_911,
    ensures
        e.sample_in_range(new_rtt),
        e.sampled(new_rtt).srtt <= 536_870_911,
        e.sampled(new_rtt).rttvar <= 536_870_911,
{
    assert(e.srtt as i32 == e.srtt);
    assert(new_rtt as i32 == new_rtt);
}

/// Whatever is measured and however often the timeout expires, the timeout
/// stays between one second and one minute.
pub proof fn law_timeout_is_bounded(e: RttEstimator, new_rtt: u32)
    requires
        e.inv(),
    ensures
        e.sampled(new_rtt).inv(),
        e.timed_out().inv(),
        e.timed_out().rto >= e.rto,
{
}

/// The first measurement is taken as it is, with half of it as the variance.
pub proof fn law_first_sample_is_the_estimate(e: RttEstimator, new_rtt: u32)
    requires
        !e.have_measurement,
    ensures
        e.sampled(new_rtt).srtt == new_rtt,
        2 * e.sampled(new_rtt).rttvar <= new_rtt < 2 * e.sampled(new_rtt).rttvar + 2,
        e.sampled(new_rtt).have_measurement,
{
}

/// A further measurement moves the smoothed round-trip time an eighth of the way from
/// the old estimate to the new sample, rounded up, and the variance a quarter of the way
/// to the distance between the two. The estimate stays between the old one and the
/// sample.
pub proof fn law_estimate_moves_an_eighth(e: RttEstimator, new_rtt: u32)
    requires
        e.have_measurement,
        e.sample_in_range(new_rtt),
    ensures
        ({
            let f = e.sampled(new_rtt);
            let gap = if e.srtt > new_rtt {
                e.srtt - new_rtt
            } else {
                new_rtt - e.srtt
            };
            &&& 7 * e.srtt + new_rtt <= 8 * f.srtt < 7 * e.srtt + new_rtt + 8
            &&& e.srtt <= new_rtt ==> e.srtt <= f.srtt <= new_rtt
            &&& new_rtt <= e.srtt ==> new_rtt <= f.srtt <= e.srtt
            &&& new_rtt <= i32::MAX ==> 3 * e.rttvar + gap <= 4 * f.rttvar < 3 * e.rttvar + gap + 4
            &&& f.have_measurement
        }),
{
    assert(e.srtt as i32 == e.srtt);
    if new_rtt <= i32::MAX {
        assert(new_rtt as i32 == new_rtt);
    }
}

/// The timeout follows the estimate: it is the smoothed round-trip time and four times
/// the variance, or five milliseconds if that is less, but at least a second and at most
/// a minute. A measurement ends the backing off, and leaves the one under way and what
/// has been sent alone.
pub proof fn law_timeout_follows_the_estimate(e: RttEstimator, new_rtt: u32)
    requires
        e.sample_in_range(new_rtt),
    ensures
        ({
            let f = e.sampled(new_rtt);
            let margin = if 4 * f.rttvar < 5 {
                5
            } else {
                4 * f.rttvar
            };
            &&& f.srtt + margin <= 1000 ==> f.rto == 1000
            &&& 1000 <= f.srtt + margin <= 60_000 ==> f.rto == f.srtt + margin
            &&& 60_000 <= f.srtt + margin ==> f.rto == 60_000
            &&& f.rto_count == 0
            &&& f.timestamp == e.timestamp
            &&& f.max_seq_sent == e.max_seq_sent
            &&& f.timeout().micros == f.rto * 1000
        }),
{
}

/// The state after the same sample `n` times.
pub open spec fn sampled_times(e: RttEstimator, new_rtt: u32, n: nat) -> RttEstimator
    decreases n,
{
    if n == 0 {
        e
    } else {
        sampled_times(e, new_rtt, (n - 1) as nat).sampled(new_rtt)
    }
}

/// Whatever has been measured before, the estimate converges to a sample that stays the
/// same: it never moves away from it, and ends no more than seven milliseconds above it.
pub proof fn law_estimate_converges(e: RttEstimator, new_rtt: u32, n: nat)
    requires
        e.have_measurement,
        e.srtt <= 536_870_911,
        e.rttvar <= 536_870_911,
        new_rtt <= 536_870_911,
    ensures
        ({
            let f = sampled_times(e, new_rtt, n);
            &&& f.have_measurement
            &&& f.srtt <= 536_870_911
            &&& f.rttvar <= 536_870_911
            &&& e.srtt <= new_rtt ==> e.srtt <= f.srtt <= new_rtt && (f.srtt == new_rtt || f.srtt
                >= e.srtt + n)
            &&& new_rtt <= e.srtt ==> new_rtt <= f.srtt <= e.srtt && (f.srtt <= new_rtt + 7
                || f.srtt <= e.srtt - n)
            &&& n >= e.srtt && n >= new_rtt ==> new_rtt <= f.srtt <= new_rtt + 7
        }),
    decreases n,
{
    if n > 0 {
        law_estimate_converges(e, new_rtt, (n - 1) as nat);
        let f = sampled_times(e, new_rtt, (n - 1) as nat);
        law_samples_stay_in_range(f, new_rtt);
        law_estimate_moves_an_eighth(f, new_rtt);
    }
}

/// When the timeout expires it doubles, up to a minute. The third time in a row the
/// measurements are forgotten, so that the next sample is taken as it is; before that
/// the estimate stays.
pub proof fn law_timeout_doubles(e: RttEstimator)
    requires
        e.inv(),
    ensures
        e.rto <= 30_000 ==> e.timed_out().rto == 2 * e.rto,
        e.rto >= 30_000 ==> e.timed_out().rto == 60_000,
        e.timed_out().srtt == e.srtt,
        e.timed_out().rttvar == e.rttvar,
        e.timed_out().timestamp == e.timestamp,
        e.rto_count < 2 ==> e.timed_out().have_measurement == e.have_measurement,
        e.rto_count == 0 ==> !e.timed_out().timed_out().timed_out().have_measurement,
        e.rto_count == 0 ==> e.timed_out().timed_out().have_measurement == e.have_measurement,
{
}

/// A measurement starts when something is sent that has never been sent before, and only
/// if none is under way. It ends with the first acknowledgement of what was sent then,
/// and the time between, in whole milliseconds, is the sample. An acknowledgement of
/// less, or without a measurement under way, changes nothing.
pub proof fn law_round_trip_is_measured(
    e: RttEstimator,
    start: Instant,
    seq: TcpSeqNumber,
    now: Instant,
    ack: TcpSeqNumber,
    millis: u32,
)
    requires
        e.timestamp is None,
        e.max_seq_sent matches Some(max) ==> seq.diff(max) > 0,
        start.micros + millis * 1000 <= now.micros < start.micros + millis * 1000 + 1000,
    ensures
        ({
            let f = e.sent(start, seq);
            &&& f.timestamp == Some((start, seq))
            &&& f.max_seq_sent == Some(seq)
            &&& f.sent(now, ack).timestamp == Some((start, seq))
            &&& f.sent(now, seq) == f
            &&& seq.diff(ack) > 0 ==> f.sent(now, ack) == f
            &&& ack.diff(seq) >= 0 ==> f.acked(now, ack) == (RttEstimator {
                timestamp: None,
                ..f.sampled(millis)
            })
            &&& ack.diff(seq) < 0 ==> f.acked(now, ack) == f
            &&& e.acked(now, ack) == e
        }),
{
    let span = now.micros - start.micros;
    assert(span / 1000 == millis);
    assert(now.span(start).micros == span);
}

impl Default for RttEstimator {
    fn default() -> (r: RttEstimator)
        ensures
            r == RttEstimator::initial(),
            r.inv(),
    {
        RttEstimator {
            have_measurement: false,
            srtt: 0,
            rttvar: 0,
            rto: RTTE_INITIAL_RTO,
            timestamp: None,
            max_seq_sent: None,
            rto_count: 0,
        }
    }
}

fn div_ceil(x: u32, d: u32) -> (r: u32)
    requires
        d > 1,
    ensures
        r == div_up(x as int, d as int),
{
    let q: u32 = x / d;
    let m: u32 = x % d;
    proof {
        vstd::arithmetic::div_mod::lemma_fundamental_div_mod(x as int, d as int);
        assert(d * q == q * d) by (nonlinear_arith);
        if m == 0 {
            vstd::arithmetic::div_mod::lemma_fundamental_div_mod_converse(
                x + d - 1,
                d as int,
                q as int,
                d - 1,
            );
        } else {
            assert((q + 1) * d == d * q + d) by (nonlinear_arith);
            vstd::arithmetic::div_mod::lemma_fundamental_div_mod_converse(
                x + d - 1,
                d as int,
                q + 1,
                m - 1,
            );
            assert(q < u32::MAX) by (nonlinear_arith)
                requires
                    x == d * q + m,
                    d > 1,
                    m > 0,
                    x <= u32::MAX,
            ;
        }
    }
    if m == 0 {
        q
    } else {
        q + 1
    }
}

impl RttEstimator {
    /// The retransmission timeout.
    pub fn retransmission_timeout(&self) -> (r: Duration)
        ensures
            r == self.timeout(),
    {
        Duration { micros: self.rto as u64 * 1000 }
    }

    /// Takes a measured round-trip time into account.
    pub fn sample(&mut self, new_rtt: u32)
        requires
            old(self).sample_in_range(new_rtt),
        ensures
            *final(self) == old(self).sampled(new_rtt),
    {
        if self.have_measurement {
            let gap: i32 = self.srtt as i32 - new_rtt as i32;
            let diff: u32 = if gap < 0 {
                (-(gap as i64)) as u32
            } else {
                gap as u32
            };
            self.rttvar = div_ceil(self.rttvar * 3 + diff, 4);
            self.srtt = div_ceil(self.srtt * 7 + new_rtt, 8);
        } else {
            self.have_measurement = true;
            self.srtt = new_rtt;
            self.rttvar = new_rtt / 2;
        }
        let scaled: u32 = self.rttvar * RTTE_K;
        let margin: u32 = if scaled < RTTE_MIN_MARGIN {
            RTTE_MIN_MARGIN
        } else {
            scaled
        };
        let sum: u32 = self.srtt + margin;
        self.rto = if sum < RTTE_MIN_RTO {
            RTTE_MIN_RTO
        } else if sum > RTTE_MAX_RTO {
            RTTE_MAX_RTO
        } else {
            sum
        };
        self.rto_count = 0;
    }

    /// A segment up to `seq` has been sent.
    pub fn on_send(&mut self, timestamp: Instant, seq: TcpSeqNumber)
        ensures
            *final(self) == old(self).sent(timestamp, seq),
    {
        let is_new: bool = match self.max_seq_sent {
            Some(max) => seq > max,
            None => true,
        };
        if is_new {
            self.max_seq_sent = Some(seq);
            if self.timestamp.is_none() {
                self.timestamp = Some((timestamp, seq));
            }
        }
    }

    /// Everything up to `seq` has been acknowledged.
    pub fn on_ack(&mut self, timestamp: Instant, seq: TcpSeqNumber)
        requires
            old(self).ack_in_range(timestamp, seq),
        ensures
            *final(self) == old(self).acked(timestamp, seq),
    {
        if let Some((start, sent_seq)) = self.timestamp {
            if seq >= sent_seq {
                let elapsed: u64 = (timestamp - start).total_millis();
                self.sample(
                    #[verifier::truncate]
                    (elapsed as u32),
                );
                self.timestamp = None;
            }
        }
    }

    /// The retransmission timeout has expired.
    pub fn on_rto(&mut self)
        requires
            old(self).inv(),
        ensures
            *final(self) == old(self).timed_out(),
            final(self).inv(),
    {
        self.rto = if self.rto * 2 < RTTE_MAX_RTO {
            self.rto * 2
        } else {
            RTTE_MAX_RTO
        };
        self.rto_count = self.rto_count + 1;
        if self.rto_count >= 3 {
            self.rto_count = 0;
            self.have_measurement = false;
        }
    }

    /// A segment is about to be sent again, so that a measurement of it would be
    /// ambiguous.
    pub fn on_retransmit(&mut self)
        ensures
            *final(self) == (RttEstimator { timestamp: None, ..*old(self) }),
    {
        self.timestamp = None;
    }
}

} // verus!
