//! What a TCP socket sends, as a function of what it is.
use super::congestion::Congestion;
use super::model;
use super::model::TcpView;
use super::repr;
use super::repr::{Segment, TcpControl, TCP_HEADER_LEN};
use super::rtt::RttEstimator;
use super::sack;
use super::timer::{AckDelayTimer, Timer};
use super::{State, DEFAULT_IP_MTU, DEFAULT_MSS, MAX_OWN_WIN_SHIFT, MAX_RX_CAPACITY};
use crate::storage::RingView;
use crate::time::{Duration, Instant};
use crate::wire::TcpSeqNumber;
use vstd::prelude::*;

verus! {

/// A segment that a socket wants to send.
#[verifier::ext_equal]
pub struct Plan {
    pub segment: Segment,
    /// It is a keep-alive, whose payload is not part of the stream.
    pub is_keep_alive: bool,
    /// It probes a closed window.
    pub is_zero_window_probe: bool,
}

impl Plan {
    /// A segment that occupies no sequence numbers when a keep-alive is due
    /// becomes one: it carries an octet from before what has been sent, which
    /// calls for an answer.
    pub open spec fn kept_alive(self, due: bool) -> Plan {
        if due && self.segment.payload.len() == 0 && (self.segment.control == TcpControl::Plain
            || self.segment.control == TcpControl::Psh) {
            Plan {
                segment: Segment {
                    seq_number: self.segment.seq_number.plus(-1),
                    payload: seq![0u8],
                    ..self.segment
                },
                is_keep_alive: true,
                ..self
            }
        } else {
            self
        }
    }
}

pub open spec fn min(a: int, b: int) -> int {
    if a < b {
        a
    } else {
        b
    }
}

pub open spec fn at_least_zero(a: int) -> int {
    if a < 0 {
        0
    } else {
        a
    }
}

/// The window scale that fits a receive buffer.
pub open spec fn own_shift(cap: int) -> u8 {
    model::shift_for(cap as nat) as u8
}

impl TcpView {
    /// A socket that has not been used.
    pub open spec fn initial(rx: RingView<u8>, tx: RingView<u8>) -> TcpView {
        TcpView {
            state: State::Closed,
            timer: Timer::Idle { keep_alive_at: None },
            rtte: RttEstimator::initial(),
            assembler: Seq::empty(),
            rx,
            rx_fin_received: false,
            tx,
            timeout: None,
            keep_alive: None,
            hop_limit: None,
            tuple: None,
            icmp_error: None,
            local_seq_no: TcpSeqNumber(0),
            remote_seq_no: TcpSeqNumber(0),
            remote_last_seq: TcpSeqNumber(0),
            remote_last_ack: None,
            remote_last_win: 0,
            remote_win_shift: own_shift(rx.cap()),
            remote_win_len: 0,
            remote_win_scale: None,
            remote_has_sack: false,
            remote_mss: DEFAULT_MSS,
            ip_mtu: DEFAULT_IP_MTU,
            remote_last_ts: None,
            local_rx_last_seq: None,
            local_rx_last_ack: None,
            local_rx_dup_acks: 0,
            pending_fast_retransmit: false,
            ack_delay: Some(Duration { micros: 10_000 }),
            ack_delay_timer: AckDelayTimer::Idle,
            challenge_ack_timer: Instant { micros: 0 },
            nagle: true,
            local_sack_history: seq![None, None, None],
            congestion_controller: Congestion::NoControl,
            timestamps: false,
            last_remote_tsval: 0,
            tsval_offset: 0,
            rx_waker: None,
            tx_waker: None,
        }
    }

    /// The socket after it has given up its connection: as if it had not been
    /// used, but for what the user has configured.
    pub open spec fn reset(self) -> TcpView {
        TcpView {
            timeout: self.timeout,
            keep_alive: self.keep_alive,
            hop_limit: self.hop_limit,
            ack_delay: self.ack_delay,
            nagle: self.nagle,
            congestion_controller: self.congestion_controller.restarted(),
            ..TcpView::initial(self.rx.cleared(), self.tx.cleared())
        }
    }

    // ------------------------------------------------------------------
    // Timers
    // ------------------------------------------------------------------
    /// The instant at which the connection is given up, if nothing arrives.
    pub open spec fn timeout_at(self) -> Option<Instant> {
        match (self.remote_last_ts, self.timeout) {
            (Some(last), Some(timeout)) => Some(last.after(timeout)),
            _ => None,
        }
    }

    /// Nothing has arrived for too long.
    pub open spec fn timed_out(self, now: Instant) -> bool {
        self.timeout_at() matches Some(at) && now.micros >= at.micros
    }

    /// The connection is given up with a reset: it has been aborted, or nothing has
    /// arrived for too long.
    pub open spec fn gives_up(self, now: Instant) -> bool {
        self.tuple is Some && (self.state == State::Closed || self.timed_out(now))
    }

    /// A retransmission is due: everything unacknowledged is sent again, or only
    /// its first segment if it was not a timeout that called for it.
    pub open spec fn retransmission_started(self, now: Instant) -> TcpView {
        let v = if self.timer is Retransmit {
            TcpView {
                congestion_controller: self.congestion_controller.timed_out(),
                remote_last_seq: self.local_seq_no,
                rtte: self.rtte.timed_out(),
                ..self
            }
        } else {
            TcpView {
                congestion_controller: self.congestion_controller.lost(),
                pending_fast_retransmit: true,
                ..self
            }
        };
        TcpView {
            timer: Timer::idle(now, self.keep_alive),
            rtte: RttEstimator { timestamp: None, ..v.rtte },
            ..v
        }
    }

    /// What the passing of time does. A socket that has been quiet starts counting
    /// its timeout now.
    pub open spec fn ticked(self, now: Instant) -> TcpView {
        let v = TcpView {
            remote_last_ts: if self.remote_last_ts is None {
                Some(now)
            } else {
                self.remote_last_ts
            },
            ..self
        };
        if v.timed_out(now) {
            v.with_state(State::Closed)
        } else if v.timer.retransmits(now) {
            v.retransmission_started(now)
        } else {
            v
        }
    }

    /// The MTU of the route, if there is one.
    pub open spec fn with_mtu(self, mtu: Option<usize>) -> TcpView {
        TcpView {
            ip_mtu: match mtu {
                Some(mtu) => mtu,
                None => self.ip_mtu,
            },
            ..self
        }
    }

    // ------------------------------------------------------------------
    // Is there anything to send?
    // ------------------------------------------------------------------
    /// The number of blocks in the next selective acknowledgement.
    pub open spec fn sack_range_count(self) -> int {
        if self.remote_has_sack {
            min(self.assembler.len() as int, 3)
        } else {
            0
        }
    }

    /// The length of the options of a segment with data.
    pub open spec fn data_options_len(self) -> int {
        repr::padded(
            (if self.timestamps {
                10int
            } else {
                0
            }) + (if self.sack_range_count() > 0 {
                self.sack_range_count() * 8 + 2
            } else {
                0
            }),
        )
    }

    /// The most octets that fit into a segment, before options.
    pub open spec fn local_mss(self) -> int {
        self.ip_mtu - self.tuple->0.local.addr.header_len() - TCP_HEADER_LEN
    }

    /// The most octets of data in a segment.
    pub open spec fn effective_mss(self) -> int {
        at_least_zero(min(self.local_mss(), self.remote_mss as int) - self.data_options_len())
    }

    /// The number of octets that congestion control lets be sent.
    pub open spec fn cwnd_remaining(self) -> int {
        at_least_zero(self.congestion_controller.spec_window() - self.flight_size())
    }

    /// The number of octets that can be sent: they are in the transmit buffer,
    /// and within the window of the remote and the congestion window.
    pub open spec fn max_send(self) -> int {
        min(
            at_least_zero(min(self.remote_win_len as int, self.tx.length) - self.flight_size()),
            self.cwnd_remaining(),
        )
    }

    /// There is a SYN, data or a FIN to send. By Nagle's algorithm, a segment that
    /// is not full waits until nothing is in flight.
    pub open spec fn seq_to_transmit(self) -> bool {
        let in_flight = self.flight_size() != 0;
        let can_send = self.max_send() != 0 && !(self.nagle && in_flight && self.max_send()
            < self.effective_mss() && !self.sent_fin());
        ||| self.pending_fast_retransmit && self.tx.length > 0
        ||| self.sent_syn() && !in_flight
        ||| can_send
        ||| self.sent_fin() && self.flight_size() == self.tx.length
    }

    pub open spec fn delayed_ack_expired(self, now: Instant) -> bool {
        self.ack_delay_timer matches AckDelayTimer::Waiting(at) ==> at.micros <= now.micros
    }

    /// What is left of the window announced last, as the header of a segment
    /// would have it.
    pub open spec fn last_scaled_window(self) -> Option<u16> {
        match self.remote_last_ack {
            Some(last_ack) => Some(
                model::scale_down(
                    at_least_zero(
                        model::scale_up(self.remote_last_win, self.remote_win_shift)
                            - self.next_ack().diff(last_ack),
                    ),
                    self.remote_win_shift,
                ),
            ),
            None => None,
        }
    }

    /// The window has at least doubled since it was announced.
    pub open spec fn window_to_update(self) -> bool {
        &&& self.has_window()
        &&& self.last_scaled_window() matches Some(last) && self.scaled_window() > 0
            && self.scaled_window() / 2 >= last
    }

    /// There is a reason to send a segment.
    #[verifier::opaque]
    pub open spec fn wants_to_send(self, now: Instant) -> bool {
        ||| self.seq_to_transmit()
        ||| self.ack_to_transmit() && self.delayed_ack_expired(now)
        ||| self.window_to_update()
        ||| self.state == State::Closed
        ||| self.timer.keeps_alive(now)
        ||| self.timer.probes(now)
    }

    // ------------------------------------------------------------------
    // The segment
    // ------------------------------------------------------------------
    /// Whether a segment carries a selective acknowledgement in this state.
    pub open spec fn reports_sack(self) -> bool {
        self.remote_has_sack && self.state != State::Closed && !self.sent_syn()
    }

    /// A plain acknowledgement.
    pub open spec fn plain_segment(self, now: Instant) -> Segment {
        Segment {
            src_port: self.tuple->0.local.port,
            dst_port: self.tuple->0.remote.port,
            control: TcpControl::Plain,
            seq_number: self.remote_last_seq,
            ack_number: Some(self.next_ack()),
            window_len: self.scaled_window(),
            window_scale: None,
            max_seg_size: None,
            sack_permitted: false,
            sack_ranges: if self.reports_sack() {
                sack::on_wire(self.sack_blocks(self.next_ack()))
            } else {
                seq![None, None, None]
            },
            timestamp: self.timestamp_option(now, self.last_remote_tsval),
            payload: Seq::empty(),
        }
    }

    /// A SYN, which offers our options, or a SYN|ACK, which answers those offered.
    pub open spec fn syn_segment(self, now: Instant) -> Segment {
        let s = Segment {
            control: TcpControl::Syn,
            seq_number: self.local_seq_no,
            window_len: model::scale_down(self.rx.window(), 0),
            max_seg_size: Some(self.local_mss() as u16),
            ..self.plain_segment(now)
        };
        if self.state == State::SynSent {
            Segment {
                ack_number: None,
                window_scale: Some(self.remote_win_shift),
                sack_permitted: true,
                ..s
            }
        } else {
            Segment {
                window_scale: match self.remote_win_scale {
                    Some(_) => Some(self.remote_win_shift),
                    None => None,
                },
                sack_permitted: self.remote_has_sack,
                ..s
            }
        }
    }

    /// The number of octets that the window of the remote has room for.
    pub open spec fn win_limit(self) -> int {
        at_least_zero(self.remote_win_len - self.flight_size())
    }

    /// A closed window is probed with one octet.
    pub open spec fn probes_window(self, now: Instant) -> bool {
        !self.pending_fast_retransmit && self.win_limit() == 0 && self.timer.probes(now)
    }

    /// The offset in the transmit buffer of the data to send.
    pub open spec fn send_offset(self) -> int {
        if self.pending_fast_retransmit {
            0
        } else {
            self.flight_size()
        }
    }

    /// The number of octets allowed in the segment.
    pub open spec fn send_size(self, now: Instant) -> int {
        if self.pending_fast_retransmit {
            min(self.effective_mss(), self.tx.length)
        } else if self.probes_window(now) {
            min(1, self.effective_mss())
        } else {
            min(min(self.win_limit(), self.effective_mss()), self.cwnd_remaining())
        }
    }

    /// The data to send.
    pub open spec fn send_payload(self, now: Instant) -> Seq<u8> {
        self.tx.data().skip(self.send_offset()).take(
            self.tx.readable(self.send_offset(), self.send_size(now)),
        )
    }

    /// A segment with data. The last data in the buffer is followed by PSH, or by
    /// the FIN once the transmit half is closed.
    pub open spec fn data_segment(self, now: Instant) -> Segment {
        let payload = self.send_payload(now);
        Segment {
            seq_number: if self.pending_fast_retransmit {
                self.local_seq_no
            } else {
                self.remote_last_seq
            },
            payload,
            control: if self.send_offset() + payload.len() == self.tx.length {
                if self.sent_fin() {
                    TcpControl::Fin
                } else if payload.len() > 0 {
                    TcpControl::Psh
                } else {
                    TcpControl::Plain
                }
            } else {
                TcpControl::Plain
            },
            ..self.plain_segment(now)
        }
    }

    /// A state in which data may be sent.
    pub open spec fn sends_data(self) -> bool {
        self.state == State::Established || self.state == State::CloseWait || self.sent_fin()
    }

    /// The segment without regard to keep-alives.
    #[verifier::opaque]
    pub open spec fn next_segment(self, now: Instant) -> Segment {
        if self.state == State::Closed {
            Segment { control: TcpControl::Rst, ..self.plain_segment(now) }
        } else if self.sent_syn() {
            self.syn_segment(now)
        } else if self.sends_data() {
            self.data_segment(now)
        } else {
            self.plain_segment(now)
        }
    }

    /// The segment to send.
    pub open spec fn plan(self, now: Instant) -> Plan {
        Plan {
            segment: self.next_segment(now),
            is_keep_alive: false,
            is_zero_window_probe: self.sends_data() && self.probes_window(now),
        }.kept_alive(self.timer.keeps_alive(now))
    }

    /// The socket once its segment has got away: the blocks that it reported are
    /// remembered, and data that was to be sent again has been.
    pub open spec fn segment_away(self) -> TcpView {
        let v = if self.reports_sack() {
            self.sack_reported(self.next_ack())
        } else {
            self
        };
        TcpView {
            pending_fast_retransmit: if self.sends_data() {
                false
            } else {
                self.pending_fast_retransmit
            },
            ..v
        }
    }

    /// What a socket that is given the chance wants to send, and the socket as
    /// long as that is not sent. `mtu` is that of the route to the remote, if there is one.
    #[verifier::opaque]
    pub open spec fn prepared(self, now: Instant, mtu: Option<usize>) -> (TcpView, Option<Plan>) {
        if self.tuple is None {
            (self, None)
        } else {
            let v = self.ticked(now).with_mtu(mtu);
            if v.wants_to_send(now) {
                (v, Some(v.plan(now)))
            } else if v.timer.closes(now) {
                (v.reset(), None)
            } else {
                (v, None)
            }
        }
    }

    /// The socket after it has sent a segment.
    #[verifier::opaque]
    pub open spec fn sent(self, now: Instant, plan: Plan) -> TcpView {
        let v = TcpView {
            timer: self.timer.keep_alive_rewound(now, self.keep_alive),
            ack_delay_timer: AckDelayTimer::Idle,
            ..self.segment_away()
        };
        if plan.is_zero_window_probe {
            TcpView { timer: v.timer.probe_rewound(now), ..v }
        } else if plan.is_keep_alive {
            v
        } else {
            let end = plan.segment.seq_number.plus(plan.segment.seq_len());
            let rtte = if plan.segment.seq_len() > 0 {
                v.rtte.sent(now, end)
            } else {
                v.rtte
            };
            TcpView {
                remote_last_seq: v.remote_last_seq.later(end),
                remote_last_ack: plan.segment.ack_number,
                remote_last_win: plan.segment.window_len,
                rtte,
                timer: if plan.segment.seq_len() > 0 && !(v.timer is Retransmit
                    || v.timer is FastRetransmit) {
                    v.timer.retransmitting(now, rtte.timeout())
                } else {
                    v.timer
                },
                tuple: if v.state == State::Closed {
                    None
                } else {
                    v.tuple
                },
                tx_waker: if v.state == State::Closed {
                    None
                } else {
                    v.tx_waker
                },
                ..v
            }
        }
    }

    /// When the socket wants to be given the chance to send.
    pub open spec fn next_poll(self) -> Instant {
        let soonest = Instant { micros: i64::MIN };
        let never = Instant { micros: i64::MAX };
        if self.tuple is None {
            never
        } else if self.remote_last_ts is None || self.state == State::Closed
            || self.seq_to_transmit() || self.window_to_update() {
            soonest
        } else {
            let ack_at = if !self.ack_to_transmit() {
                never
            } else {
                match self.ack_delay_timer {
                    AckDelayTimer::Waiting(at) => at,
                    _ => soonest,
                }
            };
            let timeout_at = match self.timeout_at() {
                Some(at) => at,
                None => never,
            };
            Instant {
                micros: min(
                    min(self.timer.deadline().micros as int, timeout_at.micros as int),
                    ack_at.micros as int,
                ) as i64,
            }
        }
    }
}

/// The shift for the window of a buffer that is not too large.
pub proof fn lemma_shift_for(cap: int)
    requires
        0 <= cap <= MAX_RX_CAPACITY,
    ensures
        model::shift_for(cap as nat) <= MAX_OWN_WIN_SHIFT,
{
    reveal_with_fuel(model::shift_for, 17);
}

/// Giving up a connection establishes the invariant.
pub proof fn lemma_reset_inv(v: TcpView)
    requires
        v.core_inv(),
    ensures
        v.reset().inv(),
{
    lemma_shift_for(v.rx.cap());
}

/// The passing of time keeps the invariant.
pub proof fn lemma_ticked_inv(v: TcpView, now: Instant, mtu: Option<usize>)
    requires
        v.inv(),
        mtu matches Some(mtu) ==> v.mtu_fits(mtu),
    ensures
        v.ticked(now).inv(),
        v.ticked(now).with_mtu(mtu).inv(),
        v.ticked(now).tuple == v.tuple,
{
}

/// Whatever is sent, the invariant is kept.
pub proof fn lemma_sent_inv(v: TcpView, made_at: Instant, now: Instant)
    requires
        v.inv(),
        v.tuple is Some,
    ensures
        v.sent(now, v.plan(made_at)).inv(),
        v.plan(made_at).segment.payload.len() <= i32::MAX - 1,
{
    reveal(TcpView::next_segment);
    reveal(TcpView::sent);
    let v1 = v.segment_away();
    let plan = v.plan(made_at);
    lemma_scale_facts(v);
    assert(v1.inv());
    assert(0 <= v.tx.readable(v.send_offset(), v.send_size(made_at)));
    assert(v.tx.data().len() == v.tx.length);
    assert(v.sent(now, plan).inv());
}

proof fn lemma_scale_facts(v: TcpView)
    requires
        v.inv(),
    ensures
        model::scale_up(v.scaled_window(), v.remote_win_shift) >= 0,
        model::scale_up(model::scale_down(v.rx.window(), 0), v.remote_win_shift) >= 0,
{
    model::lemma_scale_up(v.scaled_window(), v.remote_win_shift);
    model::lemma_scale_up(model::scale_down(v.rx.window(), 0), v.remote_win_shift);
}

proof fn lemma_block_count(blocks: Seq<sack::Block>)
    requires
        blocks.len() <= 3,
    ensures
        repr::block_count(sack::on_wire(blocks)) == blocks.len(),
{
    let w = sack::on_wire(blocks);
    reveal_with_fuel(repr::block_count, 4);
    assert(w.drop_last().drop_last().drop_last() =~= Seq::<Option<(u32, u32)>>::empty());
    assert(w.last() == w[2]);
    assert(w.drop_last().last() == w[1]);
    assert(w.drop_last().drop_last().last() == w[0]);
}

/// The room for options that the decision to send reckons with is the length of
/// the options in the segment that is then sent.
pub proof fn law_options_are_sized_right(v: TcpView, now: Instant)
    requires
        v.inv(),
        v.sends_data(),
    ensures
        v.plain_segment(now).options_len() == v.data_options_len(),
        v.data_segment(now).options_len() == v.data_options_len(),
{
    let s = v.plain_segment(now);
    if v.reports_sack() && v.assembler.len() > 0 {
        model::lemma_held_in_reach(v);
        sack::law_sack_block_count(
            v.assembler,
            v.next_ack(),
            v.local_rx_last_seq,
            v.local_sack_history,
        );
    }
    if v.reports_sack() {
        lemma_block_count(v.sack_blocks(v.next_ack()));
    } else {
        lemma_block_count(Seq::empty());
        assert(sack::on_wire(Seq::empty()) =~= seq![None, None, None]);
    }
}

/// The options of every segment fit into its header.
proof fn lemma_options_fit(v: TcpView, now: Instant)
    requires
        v.inv(),
        v.tuple is Some,
    ensures
        v.next_segment(now).options_len() <= 40,
        v.plain_segment(now).options_len() <= 40,
{
    reveal(TcpView::next_segment);
    if v.reports_sack() && v.assembler.len() > 0 {
        model::lemma_held_in_reach(v);
        sack::law_sack_block_count(
            v.assembler,
            v.next_ack(),
            v.local_rx_last_seq,
            v.local_sack_history,
        );
    }
    if v.reports_sack() {
        lemma_block_count(v.sack_blocks(v.next_ack()));
    }
    lemma_block_count(Seq::empty());
    assert(sack::on_wire(Seq::empty()) =~= seq![None, None, None]);
}

/// A segment never exceeds the MTU of the route, with all its headers, nor what the
/// remote takes in, unless that is too small for options and the octet of a keep-alive.
pub proof fn law_segment_fits_mtu(v: TcpView, now: Instant)
    requires
        v.inv(),
        v.tuple is Some,
    ensures
        ({
            let s = v.plan(now).segment;
            let ip = v.tuple->0.local.addr.header_len();
            let total = ip + TCP_HEADER_LEN + s.options_len() + s.payload.len();
            &&& s.options_len() <= 40
            &&& total <= v.ip_mtu || total <= ip + TCP_HEADER_LEN + 41
            &&& s.options_len() + s.payload.len() <= v.remote_mss || s.options_len()
                + s.payload.len() <= 41
        }),
{
    lemma_options_fit(v, now);
    let s = v.next_segment(now);
    assert(v.plan(now).segment.options_len() == s.options_len());
    reveal(TcpView::next_segment);
    if v.state != State::Closed && !v.sent_syn() && v.sends_data() {
        law_options_are_sized_right(v, now);
        assert(v.tx.data().len() == v.tx.length);
        assert(v.send_payload(now).len() <= at_least_zero(v.send_size(now)));
    }
}

} // verus!
