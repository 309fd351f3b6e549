//! Sending from a TCP socket.
use super::congestion::Congestion;
use super::egress;
use super::egress::Plan;
use super::laws;
use super::model;
use super::repr::{self, Segment, TcpControl, TcpRepr, TCP_HEADER_LEN};
use super::rtt::RttEstimator;
use super::sack::{self, Block};
use super::state::{SocketBuffer, TcpSocketState};
use super::timer::{AckDelayTimer, Timer, ACK_DELAY_DEFAULT_MS};
use super::{State, Tuple, DEFAULT_IP_MTU, DEFAULT_MSS, MAX_RX_CAPACITY};
use crate::stack;
use crate::stack::{EgressRoute, NetView, TxContext};
use crate::storage::Assembler;
use crate::time::{Duration, Instant};
use crate::waker::WakerRegistration;
use crate::wire::{IpAddress, TcpSeqNumber};
use vstd::prelude::*;

verus! {

/// The least shift that lets a window of `cap` octets fit into sixteen bits.
fn shift_for(cap: usize) -> (r: u8)
    requires
        cap <= MAX_RX_CAPACITY,
    ensures
        r == model::shift_for(cap as nat),
{
    let mut rest: usize = cap;
    let mut shift: u8 = 0;
    while rest >= 0x1_0000
        invariant
            rest <= cap <= MAX_RX_CAPACITY,
            shift + model::shift_for(rest as nat) == model::shift_for(cap as nat),
        decreases rest,
    {
        proof {
            egress::lemma_shift_for(cap as int);
        }
        rest = rest / 2;
        shift = shift + 1;
    }
    shift
}

impl<'d> TcpSocketState<'d> {
    /// A closed socket with the given buffers.
    pub fn new(rx_buffer: SocketBuffer<'d>, tx_buffer: SocketBuffer<'d>) -> (r: TcpSocketState<'d>)
        requires
            rx_buffer.inv(),
            tx_buffer.inv(),
            rx_buffer@.cap() <= MAX_RX_CAPACITY,
            tx_buffer@.cap() < i32::MAX,
            rx_buffer@.length == 0,
            tx_buffer@.length == 0,
        ensures
            r.inv(),
            r@ == model::TcpView::initial(rx_buffer@, tx_buffer@),
    {
        let remote_win_shift: u8 = shift_for(rx_buffer.capacity());
        proof {
            egress::lemma_shift_for(rx_buffer@.cap());
        }
        let r = TcpSocketState {
            state: State::Closed,
            timer: Timer::new(),
            rtte: RttEstimator::default(),
            assembler: Assembler::new(),
            tx_buffer,
            rx_buffer,
            rx_fin_received: false,
            timeout: None,
            keep_alive: None,
            hop_limit: None,
            tuple: None,
            icmp_error: None,
            local_seq_no: TcpSeqNumber(0),
            remote_seq_no: TcpSeqNumber(0),
            remote_last_seq: TcpSeqNumber(0),
            remote_last_ack: None,
            remote_last_win: 0,
            remote_win_len: 0,
            remote_win_shift,
            remote_win_scale: None,
            remote_has_sack: false,
            remote_mss: DEFAULT_MSS,
            ip_mtu: DEFAULT_IP_MTU,
            remote_last_ts: None,
            local_rx_last_ack: None,
            local_rx_last_seq: None,
            local_rx_dup_acks: 0,
            pending_fast_retransmit: false,
            ack_delay: Some(Duration::from_millis(ACK_DELAY_DEFAULT_MS)),
            ack_delay_timer: AckDelayTimer::Idle,
            challenge_ack_timer: Instant::from_secs(0),
            nagle: true,
            local_sack_history: [None, None, None],
            timestamps: false,
            last_remote_tsval: 0,
            tsval_offset: 0,
            congestion_controller: Congestion::new(),
            rx_waker: WakerRegistration::new(),
            tx_waker: WakerRegistration::new(),
        };
        assert(r@ =~= model::TcpView::initial(rx_buffer@, tx_buffer@));
        r
    }

    /// Gives up the connection. Everything the user configured is kept.
    pub fn reset(&mut self)
        requires
            old(self)@.core_inv(),
        ensures
            final(self).inv(),
            final(self)@ == old(self)@.reset(),
    {
        proof {
            egress::lemma_reset_inv(self@);
            egress::lemma_shift_for(self@.rx.cap());
        }
        self.state = State::Closed;
        self.timer = Timer::new();
        self.rtte = RttEstimator::default();
        self.assembler = Assembler::new();
        self.tx_buffer.clear();
        self.rx_buffer.clear();
        self.rx_fin_received = false;
        self.tuple = None;
        self.icmp_error = None;
        self.local_seq_no = TcpSeqNumber(0);
        self.local_rx_last_seq = None;
        self.local_rx_last_ack = None;
        self.local_rx_dup_acks = 0;
        self.pending_fast_retransmit = false;
        self.remote_seq_no = TcpSeqNumber(0);
        self.remote_last_seq = TcpSeqNumber(0);
        self.remote_last_ack = None;
        self.remote_last_win = 0;
        self.remote_win_len = 0;
        self.remote_win_scale = None;
        self.remote_has_sack = false;
        self.remote_win_shift = shift_for(self.rx_buffer.capacity());
        self.remote_mss = DEFAULT_MSS;
        self.ip_mtu = DEFAULT_IP_MTU;
        self.remote_last_ts = None;
        self.timestamps = false;
        self.last_remote_tsval = 0;
        self.tsval_offset = 0;
        self.ack_delay_timer = AckDelayTimer::Idle;
        self.challenge_ack_timer = Instant::from_secs(0);
        self.congestion_controller.restart();
        self.local_sack_history = [None, None, None];
        self.rx_waker.wake();
        self.tx_waker.wake();
        assert(self@ =~= old(self)@.reset());
    }

    /// Number of octets transmitted but not yet acknowledged.
    pub fn flight_size(&self) -> (r: usize)
        requires
            self.inv(),
        ensures
            r == self@.flight_size(),
    {
        self.remote_last_seq - self.local_seq_no
    }

    fn cwnd_remaining(&self) -> (r: usize)
        requires
            self.inv(),
        ensures
            r == self@.cwnd_remaining(),
    {
        self.congestion_controller.window().saturating_sub(self.flight_size())
    }

    fn timed_out(&self, timestamp: Instant) -> (r: bool)
        ensures
            r == self@.timed_out(timestamp),
    {
        match (self.remote_last_ts, self.timeout) {
            (Some(last), Some(timeout)) => timestamp >= last + timeout,
            _ => false,
        }
    }

    /// The number of blocks that the next selective acknowledgement carries.
    pub fn sack_range_count(&self) -> (r: usize)
        ensures
            r == self@.sack_range_count(),
    {
        if self.remote_has_sack {
            let n: usize = self.assembler.count();
            if n < 3 {
                n
            } else {
                3
            }
        } else {
            0
        }
    }

    /// The most octets that fit into a segment, before options.
    fn local_mss(&self, tuple: Tuple) -> (r: usize)
        requires
            self.inv(),
            self@.tuple == Some(tuple),
        ensures
            r == self@.local_mss(),
    {
        self.ip_mtu - tuple.local.addr.header_len() - TCP_HEADER_LEN
    }

    /// The most octets of data in a segment with options of the given length.
    fn effective_mss(&self, tuple: Tuple, options_len: usize) -> (r: usize)
        requires
            self.inv(),
            self@.tuple == Some(tuple),
            options_len == self@.data_options_len(),
        ensures
            r == self@.effective_mss(),
    {
        let local_mss: usize = self.local_mss(tuple);
        let mss: usize = if local_mss < self.remote_mss {
            local_mss
        } else {
            self.remote_mss
        };
        mss.saturating_sub(options_len)
    }

    /// Whether there is a SYN, data or a FIN to send.
    pub fn seq_to_transmit(&self) -> (r: bool)
        requires
            self.inv(),
            self@.tuple is Some,
        ensures
            r == self@.seq_to_transmit(),
    {
        // Fast retransmits are sent even if congestion control disallows them.
        if self.pending_fast_retransmit && !self.tx_buffer.is_empty() {
            return true;
        }
        let tuple: Tuple = self.tuple.unwrap();
        // The same length as that of the options of the segment that `dispatch`
        // will build.
        let mut options_len: usize = if self.timestamps {
            10
        } else {
            0
        };
        let blocks: usize = self.sack_range_count();
        if blocks > 0 {
            options_len = options_len + blocks * 8 + 2;
        }
        options_len = (options_len + 3) / 4 * 4;
        let effective_mss: usize = self.effective_mss(tuple, options_len);
        let data_in_flight: bool = self.remote_last_seq != self.local_seq_no;
        let sent_syn: bool = matches!(self.state, State::SynSent | State::SynReceived);
        if sent_syn && !data_in_flight {
            return true;
        }
        let tx_len: usize = self.tx_buffer.len();
        let allowed: usize = if self.remote_win_len < tx_len {
            self.remote_win_len
        } else {
            tx_len
        };
        let max_send_seq: TcpSeqNumber = self.local_seq_no + allowed;
        let capped: usize = if max_send_seq >= self.remote_last_seq {
            max_send_seq - self.remote_last_seq
        } else {
            0
        };
        let cwnd: usize = self.cwnd_remaining();
        let max_send: usize = if capped < cwnd {
            capped
        } else {
            cwnd
        };
        let mut can_send: bool = max_send != 0;
        let can_send_full: bool = max_send >= effective_mss;
        let want_fin: bool = matches!(self.state, State::FinWait1 | State::Closing | State::LastAck);
        if self.nagle && data_in_flight && !can_send_full && !want_fin {
            can_send = false;
        }
        let can_fin: bool = want_fin && self.remote_last_seq == self.local_seq_no + tx_len;
        can_send || can_fin
    }

    fn delayed_ack_expired(&self, timestamp: Instant) -> (r: bool)
        ensures
            r == self@.delayed_ack_expired(timestamp),
    {
        match self.ack_delay_timer {
            AckDelayTimer::Idle => true,
            AckDelayTimer::Waiting(at) => at <= timestamp,
            AckDelayTimer::Immediate => true,
        }
    }

    /// What is left of the window announced last.
    fn last_scaled_window(&self) -> (r: Option<u16>)
        requires
            self.inv(),
            self@.window_covers_next(),
        ensures
            r == self@.last_scaled_window(),
    {
        match self.remote_last_ack {
            None => None,
            Some(last_ack) => {
                proof {
                    model::lemma_scale_up(self.remote_last_win, self.remote_win_shift);
                }
                let next_ack: TcpSeqNumber = self.next_ack();
                let last_win: usize = (self.remote_last_win as usize) << self.remote_win_shift;
                let left: usize = last_win.saturating_sub(next_ack - last_ack);
                let w: usize = left >> self.remote_win_shift;
                if w > u16::MAX as usize {
                    Some(u16::MAX)
                } else {
                    Some(w as u16)
                }
            },
        }
    }

    /// Whether the window has at least doubled since it was announced.
    pub fn window_to_update(&self) -> (r: bool)
        requires
            self.inv(),
        ensures
            r == self@.window_to_update(),
    {
        match self.state {
            State::SynSent
            | State::SynReceived
            | State::Established
            | State::FinWait1
            | State::FinWait2 => {
                let new_win: u16 = self.scaled_window();
                match self.last_scaled_window() {
                    Some(last_win) => new_win > 0 && new_win / 2 >= last_win,
                    None => false,
                }
            },
            _ => false,
        }
    }

    /// Does what the passing of time calls for.
    fn tick(&mut self, now: Instant)
        requires
            old(self).inv(),
        ensures
            final(self)@ == old(self)@.ticked(now),
    {
        // A socket that has been quiet starts counting its timeout now, not from
        // the last segment received.
        if self.remote_last_ts.is_none() {
            self.remote_last_ts = Some(now);
        }
        if self.timed_out(now) {
            self.set_state(State::Closed);
        } else if self.timer.should_retransmit(now) {
            if let Timer::Retransmit { .. } = self.timer {
                // Everything from the last acknowledgement on is sent again.
                self.congestion_controller.on_rto();
                self.remote_last_seq = self.local_seq_no;
                self.rtte.on_rto();
            } else {
                // Only the earliest unacknowledged segment is sent again.
                self.congestion_controller.on_loss();
                self.pending_fast_retransmit = true;
            }
            // If nothing can be sent right now, the timer must not ask for it again
            // and again.
            self.timer.set_for_idle(now, self.keep_alive);
            self.rtte.on_retransmit();
        }
    }

    /// Whether there is a reason to send a segment.
    fn wants_to_send(&self, now: Instant) -> (r: bool)
        requires
            self.inv(),
            self@.tuple is Some,
        ensures
            r == self@.wants_to_send(now),
    {
        proof {
            reveal(model::TcpView::wants_to_send);
        }
        self.seq_to_transmit() || (self.ack_to_transmit() && self.delayed_ack_expired(now))
            || self.window_to_update() || self.state == State::Closed
            || self.timer.should_keep_alive(now) || self.timer.should_zero_window_probe(now)
    }

    /// A plain acknowledgement, and the blocks to remember once it has been sent.
    fn plain_repr(&self, now: Instant, tuple: Tuple) -> (r: (
        TcpRepr<'static>,
        Option<[Option<Block>; 3]>,
    ))
        requires
            self.inv(),
            self@.tuple == Some(tuple),
        ensures
            r.0@ == self@.plain_segment(now),
            r.0.payload@.len() == 0,
            r.0.payload2@.len() == 0,
            reports(self@, r.1),
    {
        let ack: TcpSeqNumber = self.next_ack();
        let mut repr = TcpRepr {
            src_port: tuple.local.port,
            dst_port: tuple.remote.port,
            control: TcpControl::Plain,
            seq_number: self.remote_last_seq,
            ack_number: Some(ack),
            window_len: self.scaled_window(),
            window_scale: None,
            max_seg_size: None,
            sack_permitted: false,
            sack_ranges: [None, None, None],
            timestamp: self.timestamp_repr(now, self.last_remote_tsval),
            payload: repr::no_bytes(),
            payload2: repr::no_bytes(),
        };
        let mut reported: Option<[Option<Block>; 3]> = None;
        // The blocks come before the payload, so that their length is known when
        // the payload is sized.
        let reports_sack: bool = match self.state {
            State::Closed | State::SynSent | State::SynReceived => false,
            _ => self.remote_has_sack,
        };
        if reports_sack {
            let (history, wire) = self.sack_ranges(ack);
            repr.sack_ranges = wire;
            reported = Some(history);
        }
        assert(repr@ =~= self@.plain_segment(now));
        (repr, reported)
    }

    /// Turns a plain acknowledgement into a SYN or a SYN|ACK.
    fn syn_repr(&self, repr: TcpRepr<'static>, now: Instant, tuple: Tuple) -> (r: TcpRepr<'static>)
        requires
            self.inv(),
            self@.tuple == Some(tuple),
            self@.sent_syn(),
            repr@ == self@.plain_segment(now),
        ensures
            r@ == self@.syn_segment(now),
    {
        let mut r = repr;
        r.control = TcpControl::Syn;
        r.seq_number = self.local_seq_no;
        // The window of a SYN is not scaled.
        let window: usize = self.rx_buffer.window();
        r.window_len = if window > u16::MAX as usize {
            u16::MAX
        } else {
            window as u16
        };
        r.max_seg_size = Some(#[verifier::truncate] (self.local_mss(tuple) as u16));
        if self.state == State::SynSent {
            r.ack_number = None;
            r.window_scale = Some(self.remote_win_shift);
            r.sack_permitted = true;
        } else {
            r.window_scale = match self.remote_win_scale {
                Some(_) => Some(self.remote_win_shift),
                None => None,
            };
            r.sack_permitted = self.remote_has_sack;
        }
        proof {
            let w = self@.rx.window() as usize;
            assert(w >> 0u8 == w) by (bit_vector);
        }
        assert(r@ =~= self@.syn_segment(now));
        r
    }
}

/// `blocks` is what is remembered once socket `v` has sent its next segment: nothing,
/// if that does not carry a selective acknowledgement.
pub open spec fn reports(v: model::TcpView, blocks: Option<[Option<Block>; 3]>) -> bool {
    match blocks {
        Some(history) => {
            &&& v.reports_sack()
            &&& history@ == sack::as_history(v.sack_blocks(v.next_ack()))
        },
        None => !v.reports_sack(),
    }
}

/// A segment that is about to be sent. Its payload, unless it is a keep-alive, is
/// a part of the transmit buffer.
pub struct Outgoing {
    pub repr: TcpRepr<'static>,
    pub offset: usize,
    pub len: usize,
    pub is_keep_alive: bool,
    pub is_zero_window_probe: bool,
    /// The blocks to remember once it has been sent.
    pub reported: Option<[Option<Block>; 3]>,
}

impl Outgoing {
    /// It is the segment that is planned, with its payload in the transmit buffer
    /// `tx`.
    pub open spec fn realizes(self, plan: Plan, tx: crate::storage::RingView<u8>) -> bool {
        &&& self.is_keep_alive == plan.is_keep_alive
        &&& self.is_zero_window_probe == plan.is_zero_window_probe
        &&& plan.segment == (Segment { payload: plan.segment.payload, ..self.repr@ })
        &&& if self.is_keep_alive {
            plan.segment.payload == seq![0u8]
        } else {
            &&& plan.segment.payload =~= tx.data().skip(self.offset as int).take(self.len as int)
            &&& self.len == plan.segment.payload.len()
            &&& self.len > 0 ==> self.offset + self.len <= tx.length
        }
    }

    /// Makes the segment a keep-alive if one is due. Anything that occupies
    /// sequence numbers is answered anyway, so that only a segment that occupies
    /// none needs to.
    fn keep_alive(
        &mut self,
        due: bool,
        Ghost(plan): Ghost<Plan>,
        Ghost(tx): Ghost<crate::storage::RingView<u8>>,
    )
        requires
            !old(self).is_keep_alive,
            old(self).realizes(plan, tx),
        ensures
            final(self).realizes(plan.kept_alive(due), tx),
            final(self).reported == old(self).reported,
    {
        if due && self.len == 0 && (self.repr.control == TcpControl::Plain || self.repr.control
            == TcpControl::Psh) {
            self.repr.seq_number = self.repr.seq_number - 1;
            self.is_keep_alive = true;
        }
    }
}


impl<'d> TcpSocketState<'d> {
    /// Fills in the sequence number, the payload and the flag of a segment with
    /// data.
    fn data_repr(
        &self,
        repr: TcpRepr<'static>,
        reported: Option<[Option<Block>; 3]>,
        now: Instant,
        tuple: Tuple,
    ) -> (r: Outgoing)
        requires
            self.inv(),
            self@.tuple == Some(tuple),
            self@.sends_data(),
            repr.payload@.len() == 0,
            repr.payload2@.len() == 0,
            repr@ == self@.plain_segment(now),
        ensures
            !r.is_keep_alive,
            r.is_zero_window_probe == self@.probes_window(now),
            r.reported == reported,
            r.repr@ == (Segment {
                seq_number: self@.data_segment(now).seq_number,
                control: self@.data_segment(now).control,
                ..repr@
            }),
            self@.send_payload(now) =~= self@.tx.data().skip(r.offset as int).take(r.len as int),
            r.len == self@.send_payload(now).len(),
            r.len > 0 ==> r.offset + r.len <= self@.tx.length,
    {
        proof {
            egress::law_options_are_sized_right(self@, now);
        }
        let options_len: usize = repr.header_len() - TCP_HEADER_LEN;
        let effective_mss: usize = self.effective_mss(tuple, options_len);
        let tx_len: usize = self.tx_buffer.len();
        let mut r = repr;
        let mut is_zero_window_probe: bool = false;
        let (offset, size): (usize, usize) = if self.pending_fast_retransmit {
            r.seq_number = self.local_seq_no;
            (
                0,
                if effective_mss < tx_len {
                    effective_mss
                } else {
                    tx_len
                },
            )
        } else {
            let right_edge: TcpSeqNumber = self.local_seq_no + self.remote_win_len;
            // The remote may have shrunk its window below what has been sent.
            let win_limit: usize = if right_edge >= self.remote_last_seq {
                right_edge - self.remote_last_seq
            } else {
                0
            };
            let size: usize = if win_limit == 0 && self.timer.should_zero_window_probe(now) {
                // A probe is exempt from the congestion window: without payload it
                // would not be answered.
                is_zero_window_probe = true;
                if effective_mss < 1 {
                    effective_mss
                } else {
                    1
                }
            } else {
                let a: usize = if win_limit < effective_mss {
                    win_limit
                } else {
                    effective_mss
                };
                let cwnd: usize = self.cwnd_remaining();
                if a < cwnd {
                    a
                } else {
                    cwnd
                }
            };
            (self.flight_size(), size)
        };
        let len: usize = if offset > tx_len {
            0
        } else if size > tx_len - offset {
            tx_len - offset
        } else {
            size
        };
        if offset + len == tx_len {
            match self.state {
                State::FinWait1 | State::LastAck | State::Closing => {
                    r.control = TcpControl::Fin;
                },
                _ => {
                    if len != 0 {
                        r.control = TcpControl::Psh;
                    }
                },
            }
        }
        let ghost o = self@;
        assert(o.tx.data().len() == tx_len);
        assert(offset == o.send_offset());
        assert(size == o.send_size(now));
        assert(len == o.tx.readable(offset as int, size as int));
        assert(r@ =~= (Segment {
            seq_number: o.data_segment(now).seq_number,
            control: o.data_segment(now).control,
            ..repr@
        }));
        Outgoing { repr: r, offset, len, is_keep_alive: false, is_zero_window_probe, reported }
    }

    /// Makes the segment to send, without regard to keep-alives.
    fn make_segment(&self, now: Instant, tuple: Tuple) -> (out: Outgoing)
        requires
            self.inv(),
            self@.tuple == Some(tuple),
        ensures
            !out.is_keep_alive,
            reports(self@, out.reported),
            out.realizes(
                (Plan {
                    segment: self@.next_segment(now),
                    is_keep_alive: false,
                    is_zero_window_probe: self@.sends_data() && self@.probes_window(now),
                }),
                self@.tx,
            ),
    {
        let ghost v = self@;
        proof {
            reveal(model::TcpView::next_segment);
        }
        let (repr, reported) = self.plain_repr(now, tuple);
        let mut out = Outgoing {
            repr,
            offset: 0,
            len: 0,
            is_keep_alive: false,
            is_zero_window_probe: false,
            reported,
        };
        match self.state {
            // A connection that has been aborted is reset.
            State::Closed => {
                out.repr.control = TcpControl::Rst;
            },
            State::SynSent | State::SynReceived => {
                out.repr = self.syn_repr(repr, now, tuple);
            },
            State::Established
            | State::FinWait1
            | State::Closing
            | State::CloseWait
            | State::LastAck => {
                out = self.data_repr(repr, reported, now, tuple);
            },
            State::FinWait2 | State::TimeWait => {},
        }
        let ghost s = v.next_segment(now);
        assert(s =~= (Segment { payload: s.payload, ..out.repr@ }));
        out
    }

    /// Decides whether to send a segment, and which. As long as that is not sent, it
    /// leaves no trace. `mtu` is that of the route to the remote, if there is one.
    pub fn prepare(&mut self, now: Instant, mtu: Option<usize>) -> (r: Option<Outgoing>)
        requires
            old(self).inv(),
            mtu matches Some(mtu) ==> old(self)@.mtu_fits(mtu),
        ensures
            final(self).inv(),
            final(self)@ == old(self)@.prepared(now, mtu).0,
            match r {
                Some(out) => {
                    &&& old(self)@.prepared(now, mtu).1 matches Some(plan)
                    &&& out.realizes(plan, final(self)@.tx)
                    &&& reports(final(self)@, out.reported)
                },
                None => old(self)@.prepared(now, mtu).1 is None,
            },
    {
        proof {
            reveal(model::TcpView::prepared);
        }
        let tuple: Tuple = match self.tuple {
            Some(tuple) => tuple,
            None => {
                return None;
            },
        };
        proof {
            egress::lemma_ticked_inv(self@, now, mtu);
        }
        self.tick(now);
        if let Some(mtu) = mtu {
            self.ip_mtu = mtu;
        }
        let ghost v = self@;
        assert(v =~= old(self)@.ticked(now).with_mtu(mtu));
        proof {
            egress::lemma_sent_inv(v, now, now);
        }
        if !self.wants_to_send(now) {
            if self.timer.should_close(now) {
                self.reset();
            }
            return None;
        }
        let mut out = self.make_segment(now, tuple);
        out.keep_alive(
            self.timer.should_keep_alive(now),
            Ghost(
                Plan {
                    segment: v.next_segment(now),
                    is_keep_alive: false,
                    is_zero_window_probe: v.sends_data() && v.probes_window(now),
                },
            ),
            Ghost(self@.tx),
        );
        Some(out)
    }

    /// Takes note that a segment has been sent.
    fn commit(&mut self, now: Instant, out: &Outgoing, Ghost(plan): Ghost<Plan>)
        requires
            old(self)@.core_inv(),
            out.realizes(plan, old(self)@.tx),
            reports(old(self)@, out.reported),
            plan.segment.payload.len() < i32::MAX,
        ensures
            final(self)@ == old(self)@.sent(now, plan),
    {
        proof {
            reveal(model::TcpView::sent);
        }
        if let Some(history) = out.reported {
            self.remember_sack(history);
        }
        match self.state {
            State::Established
            | State::FinWait1
            | State::Closing
            | State::CloseWait
            | State::LastAck => {
                self.pending_fast_retransmit = false;
            },
            _ => {},
        }
        assert(self@ =~= old(self)@.segment_away());
        self.timer.rewind_keep_alive(now, self.keep_alive);
        self.ack_delay_timer = AckDelayTimer::Idle;
        // A probe or a keep-alive leaves the rest of the state intact.
        if out.is_zero_window_probe {
            self.timer.rewind_zero_window_probe(now);
            return ;
        }
        if out.is_keep_alive {
            return ;
        }
        let seg_len: usize = out.len + out.repr.control.len();
        let end: TcpSeqNumber = out.repr.seq_number + seg_len;
        // A fast retransmission lies behind what has been sent.
        self.remote_last_seq = self.remote_last_seq.max(end);
        self.remote_last_ack = out.repr.ack_number;
        self.remote_last_win = out.repr.window_len;
        if seg_len > 0 {
            self.rtte.on_send(now, end);
        }
        if seg_len > 0 && !self.timer.is_retransmit() {
            let rto: Duration = self.rtte.retransmission_timeout();
            self.timer.set_for_retransmit(now, rto);
        }
        if self.state == State::Closed {
            // One reset is enough.
            self.tuple = None;
            self.tx_waker.wake();
        }
    }
}

/// What is handed over to be sent: the route, if there is one, the addresses, the
/// hop limit and the segment.
pub type Emission<'r> = (Option<EgressRoute>, IpAddress, IpAddress, u8, TcpRepr<'r>);

/// Where the segments of a socket go. There is no route for a source address that
/// is not assigned to any interface.
pub open spec fn socket_route(v: model::TcpView, net: NetView) -> Option<EgressRoute> {
    match v.tuple {
        Some(tuple) => if stack::owns(net.ifaces, tuple.local.addr) {
            net.route(tuple.remote.addr)
        } else {
            None
        },
        None => None,
    }
}

/// The MTU of a route.
pub open spec fn route_mtu(route: Option<EgressRoute>) -> Option<usize> {
    match route {
        Some(route) => Some(route.ip_mtu),
        None => None,
    }
}

/// `e` hands over the planned segment of socket `v`.
pub open spec fn hands_over(
    e: Emission,
    v: model::TcpView,
    route: Option<EgressRoute>,
    plan: Plan,
) -> bool {
    &&& e.0 == route
    &&& e.1 == v.tuple->0.local.addr
    &&& e.2 == v.tuple->0.remote.addr
    &&& e.3 == match v.hop_limit {
        Some(hop_limit) => hop_limit,
        None => 64,
    }
    &&& e.4@ == plan.segment
}

/// The octet of a keep-alive.
fn zero_byte() -> (r: &'static [u8])
    ensures
        r@ == seq![0u8],
{
    let r: &'static [u8] = &[0];
    assert(r@ =~= seq![0u8]);
    r
}

impl<'d> TcpSocketState<'d> {
    /// Gives the socket the chance to send one segment, which is handed to `emit`.
    /// If `emit` fails, the segment counts as not sent, and leaves no trace in the socket.
    /// Returns whether there was one.
    pub fn dispatch_one<'a, F, E>(&mut self, cx: &mut TxContext<'a>, emit: F) -> (ret: Result<
        bool,
        E,
    >)
        where F: FnOnce(&mut TxContext<'a>, Emission<'_>) -> Result<(), E>
        requires
            old(self).inv(),
            old(cx).inv(),
            socket_route(old(self)@, old(cx)@) matches Some(route) ==> old(self)@.mtu_fits(
                route.ip_mtu,
            ),
            forall|c: &mut TxContext<'a>, e: Emission|
                {
                    let route = socket_route(old(self)@, old(cx)@);
                    &&& *c == *old(cx)
                    &&& old(self)@.prepared(old(cx)@.inner.now, route_mtu(route)).1 matches Some(
                        plan,
                    ) && hands_over(e, old(self)@, route, plan)
                } ==> #[trigger] emit.requires((c, e)),
        ensures
            final(self).inv(),
            ({
                let route = socket_route(old(self)@, old(cx)@);
                let (ready, plan) = old(self)@.prepared(old(cx)@.inner.now, route_mtu(route));
                match plan {
                    None => {
                        &&& ret == Ok::<bool, E>(false)
                        &&& final(self)@ == ready
                        &&& *final(cx) == *old(cx)
                    },
                    Some(plan) => exists|c: &mut TxContext<'a>, e: Emission, out: Result<(), E>|
                        {
                            &&& #[trigger] emit.ensures((c, e), out)
                            &&& match out {
                                Ok(_) => ret == Ok::<bool, E>(true),
                                Err(e) => ret == Err::<bool, E>(e),
                            }
                            &&& *c == *old(cx)
                            &&& *final(c) == *final(cx)
                            &&& hands_over(e, old(self)@, route, plan)
                            &&& final(self)@ == if out is Ok {
                                ready.sent(final(cx)@.inner.now, plan)
                            } else {
                                ready
                            }
                        },
                }
            }),
    {
        let tuple: Tuple = match self.tuple {
            Some(tuple) => tuple,
            None => {
                proof {
                    reveal(model::TcpView::prepared);
                }
                return Ok(false);
            },
        };
        let now: Instant = cx.now();
        let route: Option<EgressRoute> = if cx.has_ip_addr(tuple.local.addr) {
            cx.route(&tuple.remote.addr)
        } else {
            None
        };
        let mtu: Option<usize> = match route {
            Some(route) => Some(route.ip_mtu),
            None => None,
        };
        let ghost v = self@;
        let ghost plan = v.prepared(now, mtu).1->0;
        let hop_limit: u8 = match self.hop_limit {
            Some(hop_limit) => hop_limit,
            None => 64,
        };
        let out: Outgoing = match self.prepare(now, mtu) {
            Some(out) => out,
            None => {
                return Ok(false);
            },
        };
        proof {
            lemma_prepared(v, now, mtu);
        }
        let repr = if out.is_keep_alive {
            TcpRepr { payload: zero_byte(), payload2: repr::no_bytes(), ..out.repr }
        } else {
            let payload = self.tx_buffer.get_allocated(out.offset, out.len);
            let payload2 = self.tx_buffer.get_allocated(
                out.offset + payload.len(),
                out.len - payload.len(),
            );
            assert(payload@ + payload2@ =~= plan.segment.payload);
            TcpRepr { payload, payload2, ..out.repr }
        };
        assert(repr@ =~= plan.segment);
        let out_ret = emit(cx, (route, tuple.local.addr, tuple.remote.addr, hop_limit, repr));
        assert(exists|c: &mut TxContext<'a>, e: Emission|
            {
                &&& #[trigger] emit.ensures((c, e), out_ret)
                &&& *c == *old(cx)
                &&& *final(c) == *cx
                &&& hands_over(e, v, route, plan)
            });
        if out_ret.is_ok() {
            proof {
                lemma_committed(v, now, mtu, cx@.inner.now);
            }
            self.commit(cx.now(), &out, Ghost(plan));
        }
        match out_ret {
            Ok(()) => Ok(true),
            Err(e) => Err(e),
        }
    }

    /// Gives the socket the chance to send one segment, which is handed to `emit`.
    /// If `emit` fails, the segment counts as not sent, and leaves no trace in the socket.
    pub fn dispatch<'a, F, E>(&mut self, cx: &mut TxContext<'a>, emit: F) -> (ret: Result<(), E>)
        where F: FnOnce(&mut TxContext<'a>, Emission<'_>) -> Result<(), E>
        requires
            old(self).inv(),
            old(cx).inv(),
            socket_route(old(self)@, old(cx)@) matches Some(route) ==> old(self)@.mtu_fits(
                route.ip_mtu,
            ),
            forall|c: &mut TxContext<'a>, e: Emission|
                {
                    let route = socket_route(old(self)@, old(cx)@);
                    &&& *c == *old(cx)
                    &&& old(self)@.prepared(old(cx)@.inner.now, route_mtu(route)).1 matches Some(
                        plan,
                    ) && hands_over(e, old(self)@, route, plan)
                } ==> #[trigger] emit.requires((c, e)),
        ensures
            final(self).inv(),
            ({
                let route = socket_route(old(self)@, old(cx)@);
                let (ready, plan) = old(self)@.prepared(old(cx)@.inner.now, route_mtu(route));
                match plan {
                    None => {
                        &&& ret is Ok
                        &&& final(self)@ == ready
                        &&& *final(cx) == *old(cx)
                    },
                    Some(plan) => exists|c: &mut TxContext<'a>, e: Emission|
                        {
                            &&& #[trigger] emit.ensures((c, e), ret)
                            &&& *c == *old(cx)
                            &&& *final(c) == *final(cx)
                            &&& hands_over(e, old(self)@, route, plan)
                            &&& final(self)@ == if ret is Ok {
                                ready.sent(final(cx)@.inner.now, plan)
                            } else {
                                ready
                            }
                        },
                }
            }),
            // A connection that is given up ends with one reset; from then on there is
            // nothing to send, whatever `emit` is.
            old(self)@.gives_up(old(cx)@.inner.now) ==> {
                &&& exists|c: &mut TxContext<'a>, e: Emission|
                    {
                        &&& #[trigger] emit.ensures((c, e), ret)
                        &&& *c == *old(cx)
                        &&& *final(c) == *final(cx)
                        &&& e.4@.control == TcpControl::Rst
                        &&& e.4@.payload.len() == 0
                    }
                &&& final(self)@.state == State::Closed
                &&& ret is Ok ==> final(self)@.tuple is None
            },
            old(self)@.tuple is None ==> {
                &&& ret is Ok
                &&& final(self)@ == old(self)@
                &&& *final(cx) == *old(cx)
            },
    {
        let one = self.dispatch_one(cx, emit);
        let ghost first = one;
        let ret = match one {
            Ok(_) => Ok(()),
            Err(e) => Err(e),
        };
        proof {
            let route = socket_route(old(self)@, old(cx)@);
            let (ready, plan) = old(self)@.prepared(old(cx)@.inner.now, route_mtu(route));
            if old(self)@.gives_up(old(cx)@.inner.now) {
                laws::law_abort_sends_one_reset(
                    old(self)@,
                    old(cx)@.inner.now,
                    cx@.inner.now,
                    route_mtu(route),
                );
            }
            reveal(model::TcpView::prepared);
            if plan is Some {
                let (c, e, out) = choose|c: &mut TxContext<'a>, e: Emission, out: Result<(), E>|
                    {
                        &&& #[trigger] emit.ensures((c, e), out)
                        &&& match out {
                            Ok(_) => first == Ok::<bool, E>(true),
                            Err(e) => first == Err::<bool, E>(e),
                        }
                        &&& *c == *old(cx)
                        &&& *final(c) == *cx
                        &&& hands_over(e, old(self)@, route, plan->0)
                        &&& self@ == if out is Ok {
                            ready.sent(cx@.inner.now, plan->0)
                        } else {
                            ready
                        }
                    };
                match out {
                    Ok(u) => {
                        assert(u == ());
                    },
                    Err(_) => {},
                }
                assert(emit.ensures((c, e), ret));
            }
        }
        ret
    }
}

impl<'d> TcpSocketState<'d> {
    /// The next time the socket should be polled. The beginning of time means
    /// "immediately", the end of time "not unless something happens".
    pub fn poll_at(&self) -> (r: Instant)
        requires
            self.inv(),
        ensures
            r == self@.next_poll(),
    {
        if self.tuple.is_none() {
            Instant::max_value()
        } else if self.remote_last_ts.is_none() {
            Instant::min_value()
        } else if self.state == State::Closed {
            Instant::min_value()
        } else if self.seq_to_transmit() {
            Instant::min_value()
        } else if self.window_to_update() {
            Instant::min_value()
        } else {
            let ack_at: Instant = if !self.ack_to_transmit() {
                Instant::max_value()
            } else {
                match self.ack_delay_timer {
                    AckDelayTimer::Idle => Instant::min_value(),
                    AckDelayTimer::Waiting(at) => at,
                    AckDelayTimer::Immediate => Instant::min_value(),
                }
            };
            self.timer.poll_at().earlier(self.poll_at_blocked()).earlier(ack_at)
        }
    }

    /// The next time a socket whose segment was held back should be polled: only
    /// the timeout of the connection counts, since anything else would produce the
    /// same segment.
    pub fn poll_at_blocked(&self) -> (r: Instant)
        ensures
            r == match self@.timeout_at() {
                Some(at) => at,
                None => Instant { micros: i64::MAX },
            },
    {
        match (self.remote_last_ts, self.timeout) {
            (Some(last), Some(timeout)) => last + timeout,
            _ => Instant::max_value(),
        }
    }
}

/// What is prepared can be sent.
proof fn lemma_prepared(v: model::TcpView, now: Instant, mtu: Option<usize>)
    requires
        v.inv(),
        mtu matches Some(mtu) ==> v.mtu_fits(mtu),
        v.prepared(now, mtu).1 is Some,
    ensures
        v.prepared(now, mtu).0.inv(),
        v.prepared(now, mtu).1->0.segment.payload.len() < i32::MAX,
{
    reveal(model::TcpView::prepared);
    egress::lemma_ticked_inv(v, now, mtu);
    egress::lemma_sent_inv(v.ticked(now).with_mtu(mtu), now, now);
}

/// What is prepared and sent keeps the invariant.
pub proof fn lemma_committed(v: model::TcpView, now: Instant, mtu: Option<usize>, then: Instant)
    requires
        v.inv(),
        mtu matches Some(mtu) ==> v.mtu_fits(mtu),
        v.prepared(now, mtu).1 is Some,
    ensures
        v.prepared(now, mtu).0.sent(then, v.prepared(now, mtu).1->0).inv(),
{
    reveal(model::TcpView::prepared);
    egress::lemma_ticked_inv(v, now, mtu);
    egress::lemma_sent_inv(v.ticked(now).with_mtu(mtu), now, then);
}

} // verus!
