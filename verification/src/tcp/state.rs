//! The state of a TCP socket, and what changes it.
use super::congestion::Congestion;
use super::model;
use super::model::{AckVerdict, Step, TcpView};
use super::repr::{self, Segment, TcpControl, TcpRepr, TcpTimestampRepr};
use super::rtt::RttEstimator;
use super::sack::{self, Block};
use super::timer::{AckDelayTimer, Timer};
use super::{State, Tuple, MAX_RX_CAPACITY, MAX_WIN_SHIFT, MIN_REMOTE_MSS};
use crate::icmp_error::IcmpError;
use crate::storage::assembler;
use crate::storage::slab;
use crate::storage::{Assembler, RingBuffer, Slab};
use crate::time::{Duration, Instant};
use crate::waker::WakerRegistration;
use crate::wire::{IpAddress, IpEndpoint, TcpSeqNumber};
use vstd::prelude::*;

verus! {

/// A TCP socket ring buffer.
pub type SocketBuffer<'d> = RingBuffer<'d, u8>;

/// The state of a TCP socket.
pub struct TcpSocketState<'d> {
    pub state: State,
    pub timer: Timer,
    pub rtte: RttEstimator,
    pub assembler: Assembler,
    pub rx_buffer: SocketBuffer<'d>,
    pub rx_fin_received: bool,
    pub tx_buffer: SocketBuffer<'d>,
    /// Interval after which, if no inbound packets are received, the connection
    /// is aborted.
    pub timeout: Option<Duration>,
    /// Interval at which keep-alive packets will be sent.
    pub keep_alive: Option<Duration>,
    /// The time-to-live (IPv4) or hop limit (IPv6) value used in outgoing packets.
    pub hop_limit: Option<u8>,
    /// Current 4-tuple (local and remote endpoints).
    pub tuple: Option<Tuple>,
    /// The last ICMP error reported against this connection. A newer error
    /// overwrites an unread older one.
    pub icmp_error: Option<IcmpError>,
    /// The sequence number corresponding to the beginning of the transmit buffer.
    pub local_seq_no: TcpSeqNumber,
    /// The sequence number corresponding to the beginning of the receive buffer.
    pub remote_seq_no: TcpSeqNumber,
    /// The last sequence number sent.
    pub remote_last_seq: TcpSeqNumber,
    /// The last acknowledgement number sent.
    pub remote_last_ack: Option<TcpSeqNumber>,
    /// The last window length sent.
    pub remote_last_win: u16,
    /// The window scaling factor advertised to remotes which support it. Zero if
    /// the receive buffer is small, or the remote does not support it.
    pub remote_win_shift: u8,
    /// The remote window size, relative to `local_seq_no`.
    pub remote_win_len: usize,
    /// The window scaling factor of the remote, `None` if unsupported.
    pub remote_win_scale: Option<u8>,
    /// Whether the remote supports selective acknowledgements.
    pub remote_has_sack: bool,
    /// The maximum number of data octets that the remote side may receive.
    pub remote_mss: usize,
    /// The IP MTU of the interface that this connection's packets go out of.
    pub ip_mtu: usize,
    /// The timestamp of the last packet received.
    pub remote_last_ts: Option<Instant>,
    /// The sequence number of the last packet received.
    pub local_rx_last_seq: Option<TcpSeqNumber>,
    /// The acknowledgement number of the last packet received.
    pub local_rx_last_ack: Option<TcpSeqNumber>,
    /// The number of packets received directly after each other which repeat the
    /// same acknowledgement.
    pub local_rx_dup_acks: u8,
    /// Whether a fast retransmit needs to occur.
    pub pending_fast_retransmit: bool,
    /// Duration for delayed acknowledgements. If `None`, none will be delayed.
    pub ack_delay: Option<Duration>,
    /// Delayed acknowledgement timer.
    pub ack_delay_timer: AckDelayTimer,
    /// No more challenge acknowledgements will be sent until this instant.
    pub challenge_ack_timer: Instant,
    /// Whether Nagle's algorithm is enabled.
    pub nagle: bool,
    /// The last three selective acknowledgement blocks sent to the remote.
    pub local_sack_history: [Option<Block>; 3],
    /// The congestion control algorithm.
    pub congestion_controller: Congestion,
    /// Whether the timestamp option (RFC 7323) is in use on this connection.
    pub timestamps: bool,
    /// The last timestamp received from the remote.
    pub last_remote_tsval: u32,
    /// Random offset added to every timestamp this connection sends.
    pub tsval_offset: u32,
    pub rx_waker: WakerRegistration,
    pub tx_waker: WakerRegistration,
}

impl<'d> View for TcpSocketState<'d> {
    type V = TcpView;

    open spec fn view(&self) -> TcpView {
        TcpView {
            state: self.state,
            timer: self.timer,
            rtte: self.rtte,
            assembler: self.assembler@,
            rx: self.rx_buffer@,
            rx_fin_received: self.rx_fin_received,
            tx: self.tx_buffer@,
            timeout: self.timeout,
            keep_alive: self.keep_alive,
            hop_limit: self.hop_limit,
            tuple: self.tuple,
            icmp_error: self.icmp_error,
            local_seq_no: self.local_seq_no,
            remote_seq_no: self.remote_seq_no,
            remote_last_seq: self.remote_last_seq,
            remote_last_ack: self.remote_last_ack,
            remote_last_win: self.remote_last_win,
            remote_win_shift: self.remote_win_shift,
            remote_win_len: self.remote_win_len,
            remote_win_scale: self.remote_win_scale,
            remote_has_sack: self.remote_has_sack,
            remote_mss: self.remote_mss,
            ip_mtu: self.ip_mtu,
            remote_last_ts: self.remote_last_ts,
            local_rx_last_seq: self.local_rx_last_seq,
            local_rx_last_ack: self.local_rx_last_ack,
            local_rx_dup_acks: self.local_rx_dup_acks,
            pending_fast_retransmit: self.pending_fast_retransmit,
            ack_delay: self.ack_delay,
            ack_delay_timer: self.ack_delay_timer,
            challenge_ack_timer: self.challenge_ack_timer,
            nagle: self.nagle,
            local_sack_history: self.local_sack_history@,
            congestion_controller: self.congestion_controller,
            timestamps: self.timestamps,
            last_remote_tsval: self.last_remote_tsval,
            tsval_offset: self.tsval_offset,
            rx_waker: self.rx_waker.waker,
            tx_waker: self.tx_waker.waker,
        }
    }
}

/// A segment repeats the last acknowledgement that socket `v` has got, and says nothing
/// else.
pub open spec fn repeats_ack(v: TcpView, s: Segment, window_changed: bool) -> bool {
    &&& s.payload.len() == 0
    &&& v.local_rx_last_ack is Some
    &&& v.local_rx_last_ack == s.ack_number
    &&& s.ack_number->0.diff(v.remote_last_seq) < 0
    &&& !window_changed
}

impl<'d> TcpSocketState<'d> {
    pub open spec fn inv(&self) -> bool {
        self@.inv()
    }

    /// Return the current window field value, including scaling.
    pub fn scaled_window(&self) -> (r: u16)
        requires
            self@.core_inv(),
        ensures
            r == self@.scaled_window(),
    {
        let w: usize = self.rx_buffer.window() >> self.remote_win_shift;
        if w > u16::MAX as usize {
            u16::MAX
        } else {
            w as u16
        }
    }

    /// Moves to a state, and wakes both tasks, since what their functions return
    /// may depend on the state.
    pub fn set_state(&mut self, state: State)
        ensures
            final(self)@ == old(self)@.with_state(state),
    {
        self.state = state;
        self.rx_waker.wake();
        self.tx_waker.wake();
    }

    /// The next sequence number expected from the remote.
    pub(crate) fn next_ack(&self) -> (r: TcpSeqNumber)
        requires
            self@.core_inv(),
        ensures
            r == self@.next_ack(),
    {
        self.remote_seq_no + self.rx_buffer.len()
    }

    /// The timestamp option to put on an outgoing segment, echoing `tsecr`.
    pub(crate) fn timestamp_repr(&self, now: Instant, tsecr: u32) -> (r: Option<TcpTimestampRepr>)
        ensures
            r == self@.timestamp_option(now, tsecr),
    {
        if self.timestamps {
            let millis: i64 = now.total_millis();
            let tsval: u32 = (#[verifier::truncate] (millis as u32)).wrapping_add(self.tsval_offset);
            Some(TcpTimestampRepr { tsval, tsecr })
        } else {
            None
        }
    }

    /// The blocks of a selective acknowledgement: as they are remembered once it has
    /// been sent, and as they are sent.
    pub(crate) fn sack_ranges(&self, ack: TcpSeqNumber) -> (r: (
        [Option<Block>; 3],
        [Option<(u32, u32)>; 3],
    ))
        requires
            self@.core_inv(),
        ensures
            r.0@ == sack::as_history(self@.sack_blocks(ack)),
            r.1@ == sack::on_wire(self@.sack_blocks(ack)),
    {
        if self.assembler.is_empty() {
            let history: [Option<Block>; 3] = [None, None, None];
            let wire: [Option<(u32, u32)>; 3] = [None, None, None];
            assert(history@ =~= sack::as_history(Seq::empty()));
            assert(wire@ =~= sack::on_wire(Seq::empty()));
            return (history, wire);
        }
        proof {
            model::lemma_held_in_reach(self@);
        }
        let blocks = sack::blocks_to_report(
            &self.assembler,
            ack,
            self.local_rx_last_seq,
            &self.local_sack_history,
        );
        sack::to_arrays(&blocks)
    }

    /// Remembers the blocks of a selective acknowledgement that has been sent. With
    /// none, what was received last is forgotten, too: it could only go stale.
    pub(crate) fn remember_sack(&mut self, history: [Option<Block>; 3])
        ensures
            final(self)@ == (TcpView {
                local_rx_last_seq: if old(self)@.assembler.len() == 0 {
                    None
                } else {
                    old(self)@.local_rx_last_seq
                },
                local_sack_history: history@,
                ..old(self)@
            }),
    {
        if self.assembler.is_empty() {
            self.local_rx_last_seq = None;
        }
        self.local_sack_history = history;
    }

    /// Builds the blocks of a selective acknowledgement, and remembers them.
    pub fn generate_sack_ranges(&mut self, ack: TcpSeqNumber) -> (r: [Option<(u32, u32)>; 3])
        requires
            old(self)@.core_inv(),
        ensures
            final(self)@ == old(self)@.sack_reported(ack),
            r@ == sack::on_wire(old(self)@.sack_blocks(ack)),
    {
        let (history, wire) = self.sack_ranges(ack);
        self.remember_sack(history);
        wire
    }

    /// The acknowledgement with which a segment is answered.
    fn ack_reply(&mut self, now: Instant, repr: &TcpRepr) -> (r: TcpRepr<'static>)
        requires
            old(self)@.core_inv(),
        ensures
            final(self)@ == old(self)@.ack_sent(),
            r@ == old(self)@.ack_segment(now, repr@),
    {
        let mut reply = TcpRepr::reply(repr);
        reply.timestamp = match repr.timestamp {
            Some(ts) => self.timestamp_repr(now, ts.tsval),
            None => None,
        };
        reply.seq_number = self.remote_last_seq;
        let ack: TcpSeqNumber = self.next_ack();
        reply.ack_number = Some(ack);
        reply.window_len = self.scaled_window();
        if self.remote_has_sack {
            reply.sack_ranges = self.generate_sack_ranges(ack);
        }
        self.remote_last_ack = Some(ack);
        self.remote_last_win = reply.window_len;
        assert(reply@ =~= old(self)@.ack_segment(now, repr@));
        reply
    }

    /// The same, at most once a second.
    fn challenge_ack_reply(&mut self, now: Instant, repr: &TcpRepr) -> (r: Option<
        TcpRepr<'static>,
    >)
        requires
            old(self)@.core_inv(),
        ensures
            final(self)@ == old(self)@.challenge(now, repr@).0,
            match r {
                Some(reply) => old(self)@.challenge(now, repr@).1 == Some(reply@),
                None => old(self)@.challenge(now, repr@).1 is None,
            },
    {
        if now < self.challenge_ack_timer {
            return None;
        }
        self.challenge_ack_timer = now + Duration::from_secs(1);
        Some(self.ack_reply(now, repr))
    }

    /// Whether a segment belongs to this connection.
    pub fn accepts(&self, src_addr: &IpAddress, dst_addr: &IpAddress, repr: &TcpRepr) -> (r: bool)
        ensures
            r == self@.takes(*src_addr, *dst_addr, repr@),
    {
        if self.state == State::Closed {
            return false;
        }
        match self.tuple {
            None => false,
            Some(tuple) => {
                *dst_addr == tuple.local.addr && repr.dst_port == tuple.local.port && *src_addr
                    == tuple.remote.addr && repr.src_port == tuple.remote.port
            },
        }
    }

    /// What the acknowledgement number makes of a segment.
    fn ack_verdict(&self, repr: &TcpRepr) -> (r: AckVerdict)
        requires
            self.inv(),
        ensures
            r == self@.ack_verdict(repr@),
    {
        let syn_ack: TcpSeqNumber = self.local_seq_no + 1;
        let acks_syn: bool = match repr.ack_number {
            Some(ack) => ack == syn_ack,
            None => false,
        };
        match (self.state, repr.control, repr.ack_number) {
            // A reset in response to the SYN has to acknowledge it.
            (State::SynSent, TcpControl::Rst, _) => if acks_syn {
                AckVerdict::Accept
            } else {
                AckVerdict::Drop
            },
            // Any other reset need only have a valid sequence number.
            (_, TcpControl::Rst, _) => AckVerdict::Accept,
            (State::SynSent, TcpControl::Syn, Some(_)) => if acks_syn {
                AckVerdict::Accept
            } else {
                AckVerdict::Reset
            },
            // Simultaneous open.
            (State::SynSent, TcpControl::Syn, None) => AckVerdict::Accept,
            (State::SynSent, TcpControl::Plain, Some(_)) => if acks_syn {
                AckVerdict::Drop
            } else {
                AckVerdict::Reset
            },
            (State::SynSent, _, _) => AckVerdict::Drop,
            // Every segment after the initial SYN must be an acknowledgement.
            (_, _, None) => AckVerdict::Drop,
            (State::SynReceived, _, Some(_)) => if acks_syn {
                AckVerdict::Accept
            } else {
                AckVerdict::Reset
            },
            // Every acknowledgement must be for data that can have been sent.
            (_, _, Some(ack)) => {
                let control_len: usize = match self.state {
                    State::FinWait1 | State::LastAck | State::Closing => 1,
                    _ => 0,
                };
                let ack_max: TcpSeqNumber = self.local_seq_no + (self.tx_buffer.len()
                    + control_len);
                if ack < self.local_seq_no {
                    AckVerdict::Drop
                } else if ack > ack_max {
                    AckVerdict::Challenge
                } else {
                    AckVerdict::Accept
                }
            },
        }
    }

    /// The first sequence number behind the window announced last.
    fn window_end(&self) -> (r: TcpSeqNumber)
        requires
            self.inv(),
        ensures
            r == self@.window_end(),
    {
        match self.remote_last_ack {
            Some(last_ack) => {
                proof {
                    model::lemma_scale_up(self.remote_last_win, self.remote_win_shift);
                }
                last_ack + ((self.remote_last_win as usize) << self.remote_win_shift)
            },
            None => self.next_ack(),
        }
    }

    /// The segment acceptability test.
    fn segment_in_window(&self, repr: &TcpRepr) -> (r: bool)
        requires
            self.inv(),
            repr.valid(),
        ensures
            r == self@.in_window(repr@),
    {
        let ws: TcpSeqNumber = self.next_ack();
        let we: TcpSeqNumber = self.window_end();
        let start: TcpSeqNumber = repr.seq_number;
        let end: TcpSeqNumber = repr.seq_number + repr.payload.len();
        assert(repr@.payload =~= repr.payload@);
        match (start == end, ws == we) {
            (true, _) if end == ws - 1 => false,
            (true, true) => ws == start,
            (true, false) => ws <= start && start < we,
            (false, true) => false,
            (false, false) => (ws <= start && start < we) || (ws < end && end <= we),
        }
    }

    /// What a segment acknowledges: the number of octets, whether the FIN, and
    /// whether everything that has been sent.
    fn acked_by(&self, repr: &TcpRepr) -> (r: (usize, bool, bool))
        requires
            self.inv(),
            self@.ack_verdict(repr@) is Accept,
        ensures
            r.0 == self@.acked_by(repr@).len,
            r.1 == self@.acked_by(repr@).fin,
            r.2 == self@.acked_by(repr@).all,
            r.0 <= self@.tx.length,
    {
        let (sent_syn, sent_fin): (usize, bool) = match self.state {
            State::SynSent | State::SynReceived => (1, false),
            State::FinWait1 | State::LastAck | State::Closing => (0, true),
            _ => (0, false),
        };
        if repr.control == TcpControl::Rst {
            return (0, false, false);
        }
        match repr.ack_number {
            Some(ack) => {
                let from: TcpSeqNumber = self.local_seq_no + sent_syn;
                if ack >= from {
                    let len: usize = ack - from;
                    // Data may have been sent before the FIN, which only counts
                    // once all of that is acknowledged.
                    if sent_fin && self.tx_buffer.len() + 1 == len {
                        (len - 1, true, self.remote_last_seq <= ack)
                    } else {
                        (len, false, self.remote_last_seq <= ack)
                    }
                } else {
                    (0, false, false)
                }
            },
            None => (0, false, false),
        }
    }

    fn note_fin(&mut self)
        ensures
            final(self)@ == old(self)@.fin_received(),
    {
        self.remote_seq_no = self.remote_seq_no + 1;
        self.rx_fin_received = true;
    }

    fn enter_time_wait(&mut self, now: Instant)
        ensures
            final(self)@ == old(self)@.time_wait(now),
    {
        self.set_state(State::TimeWait);
        self.timer.set_for_close(now);
    }

    /// The connection is synchronized with a remote that has sent a SYN.
    fn synchronize(&mut self, repr: &TcpRepr)
        ensures
            final(self)@ == old(self)@.synchronized(repr@),
    {
        if let Some(max_seg_size) = repr.max_seg_size {
            // A zero MSS is treated as if the option were absent.
            if max_seg_size != 0 {
                self.remote_mss = if (max_seg_size as usize) < MIN_REMOTE_MSS {
                    MIN_REMOTE_MSS
                } else {
                    max_seg_size as usize
                };
                self.congestion_controller.set_mss(self.remote_mss);
            }
        }
        self.remote_seq_no = repr.seq_number + 1;
        self.remote_last_seq = self.local_seq_no + 1;
        self.remote_last_ack = Some(repr.seq_number);
        self.remote_has_sack = repr.sack_permitted;
        self.remote_win_scale = repr.window_scale;
        // A remote that does not scale its window does not understand ours scaled.
        if self.remote_win_scale.is_none() {
            self.remote_win_shift = 0;
        }
        // Timestamps stay on only if the remote offered them too.
        self.timestamps = repr.timestamp.is_some();
        if repr.ack_number.is_some() {
            self.set_state(State::Established);
        } else {
            self.set_state(State::SynReceived);
        }
    }

    /// Moves the connection to its next state. Returns the reply if the segment
    /// is not to be looked at further.
    fn transition(
        &mut self,
        now: Instant,
        repr: &TcpRepr,
        ack_len: usize,
        ack_of_fin: bool,
    ) -> (r: Result<(), Option<TcpRepr<'static>>>)
        requires
            old(self).inv(),
            repr.valid(),
            ack_len == old(self)@.acked_by(repr@).len,
            ack_of_fin == old(self)@.acked_by(repr@).fin,
        ensures
            match r {
                Ok(()) => old(self)@.transition(now, repr@) == Step::Continue(final(self)@),
                Err(Some(reply)) => old(self)@.transition(now, repr@) == Step::Done(
                    final(self)@,
                    Some(reply@),
                ),
                Err(None) => old(self)@.transition(now, repr@) == Step::Done(final(self)@, None),
            },
    {
        let mut control: TcpControl = repr.control.quash_psh();
        // A FIN does not count as long as something before it is missing, or does not
        // fit into the window.
        if control == TcpControl::Fin && (self.next_ack() < repr.seq_number || self.window_end()
            < repr.seq_number + repr.payload.len()) {
            control = TcpControl::Plain;
        }
        assert(control == self@.effective_control(repr@));
        match (self.state, control) {
            (_, TcpControl::Rst) => {
                self.set_state(State::Closed);
                self.tuple = None;
                return Err(None);
            },
            (State::SynReceived, TcpControl::Plain) => {
                self.set_state(State::Established);
            },
            (State::SynReceived, TcpControl::Fin) => {
                self.note_fin();
                self.set_state(State::CloseWait);
            },
            (State::SynSent, TcpControl::Syn) => {
                self.synchronize(repr);
            },
            (State::Established, TcpControl::Plain) => {},
            (State::Established, TcpControl::Fin) => {
                self.note_fin();
                self.set_state(State::CloseWait);
            },
            (State::FinWait1, TcpControl::Plain) => {
                if ack_of_fin {
                    self.set_state(State::FinWait2);
                }
            },
            (State::FinWait1, TcpControl::Fin) => {
                self.note_fin();
                if ack_of_fin {
                    self.enter_time_wait(now);
                } else {
                    self.set_state(State::Closing);
                }
            },
            (State::FinWait2, TcpControl::Plain) => {},
            (State::FinWait2, TcpControl::Fin) => {
                self.note_fin();
                self.enter_time_wait(now);
            },
            (State::Closing, TcpControl::Plain) => {
                if ack_of_fin {
                    self.enter_time_wait(now);
                }
            },
            (State::CloseWait, TcpControl::Plain) => {},
            (State::LastAck, TcpControl::Plain) => {
                if ack_of_fin {
                    // Without the endpoints, no reset is sent to the remote.
                    self.set_state(State::Closed);
                    self.tuple = None;
                } else if ack_len == 0 {
                    return Err(self.challenge_ack_reply(now, repr));
                }
            },
            _ => {
                return Err(None);
            },
        }
        Ok(())
    }

    /// Takes note of the window that a segment grants, and removes what it
    /// acknowledges from the transmit buffer. Returns whether the window changed.
    fn note_window(&mut self, now: Instant, repr: &TcpRepr, ack_len: usize) -> (r: bool)
        requires
            old(self).tx_buffer.inv(),
            ack_len <= old(self)@.tx.length,
            old(self)@.remote_win_scale matches Some(scale) ==> scale <= MAX_WIN_SHIFT,
        ensures
            final(self)@ == old(self)@.window_granted(now, repr@, ack_len as int),
            r == (old(self)@.granted_window(repr@) != old(self)@.remote_win_len),
    {
        self.remote_last_ts = Some(now);
        let scale: u8 = match repr.control {
            TcpControl::Syn => 0,
            _ => match self.remote_win_scale {
                Some(scale) => scale,
                None => 0,
            },
        };
        let window: usize = (repr.window_len as usize) << scale;
        let changed: bool = window != self.remote_win_len;
        self.remote_win_len = window;
        self.congestion_controller.set_remote_window(window);
        if ack_len > 0 {
            self.tx_buffer.dequeue_allocated(ack_len);
            self.tx_waker.wake();
        }
        changed
    }

    /// Takes note of the acknowledgement and the timestamp of a segment.
    fn note_ack(&mut self, now: Instant, repr: &TcpRepr, ack_len: usize, window_changed: bool)
        requires
            repr.valid(),
            repeats_ack(old(self)@, repr@, window_changed) || (repr@.ack_number matches Some(ack)
                ==> old(self)@.rtte.ack_in_range(now, ack)),
        ensures
            final(self)@ == old(self)@.ack_noted(
                now,
                repr@,
                ack_len as int,
                repeats_ack(old(self)@, repr@, window_changed),
            ),
    {
        if let Some(ack) = repr.ack_number {
            let repeated: bool = match self.local_rx_last_ack {
                Some(last) => repr.payload.len() == 0 && last == ack && ack < self.remote_last_seq
                    && !window_changed,
                None => false,
            };
            if repeated {
                if self.local_rx_dup_acks < u8::MAX {
                    self.local_rx_dup_acks = self.local_rx_dup_acks + 1;
                }
                if self.local_rx_dup_acks == 3 {
                    self.timer.set_for_fast_retransmit();
                }
                self.congestion_controller.on_dup_ack();
            } else {
                self.local_rx_dup_acks = 0;
                self.local_rx_last_ack = Some(ack);
                self.rtte.on_ack(now, ack);
                self.congestion_controller.on_ack(ack_len);
            }
            self.local_seq_no = ack;
            // During retransmission, an acknowledgement can move past what has been
            // sent again. What it covers is gone from the buffer.
            if self.remote_last_seq < ack {
                self.remote_last_seq = ack;
            }
        }
        if let Some(timestamp) = repr.timestamp {
            self.last_remote_tsval = timestamp.tsval;
        }
    }

    /// Sets the timers after an acknowledgement.
    fn note_timers(&mut self, now: Instant, ack_len: usize, ack_all: bool)
        ensures
            final(self)@ == old(self)@.timers_set(now, ack_len as int, ack_all),
    {
        match self.timer {
            Timer::Retransmit { .. } | Timer::FastRetransmit => {
                if ack_all {
                    self.timer.set_for_idle(now, self.keep_alive);
                } else if ack_len > 0 {
                    let rto: Duration = self.rtte.retransmission_timeout();
                    self.timer.set_for_retransmit(now, rto);
                }
            },
            Timer::Idle { .. } => {
                self.timer.set_for_idle(now, self.keep_alive);
            },
            _ => {},
        }
        if self.remote_win_len == 0 && !self.tx_buffer.is_empty() && (self.timer.is_idle()
            || ack_len > 0) {
            let delay: Duration = self.rtte.retransmission_timeout();
            self.timer.set_for_zero_window_probe(now, delay);
        }
        if self.remote_win_len != 0 && self.timer.is_zero_window_probe() {
            self.timer.set_for_idle(now, self.keep_alive);
        }
    }

    /// Whether there is something that has not been acknowledged.
    pub(crate) fn ack_to_transmit(&self) -> (r: bool)
        requires
            self.inv(),
        ensures
            r == self@.ack_to_transmit(),
    {
        match self.remote_last_ack {
            Some(last_ack) => last_ack < self.next_ack(),
            None => false,
        }
    }

    /// Whether what has not been acknowledged is more than a full segment.
    ///
    /// RFC 9293 asks for an acknowledgement at least for every second full-sized
    /// segment; like common practice, this asks for one for every full-sized
    /// segment.
    fn immediate_ack_to_transmit(&self) -> (r: bool)
        requires
            self.inv(),
        ensures
            r == self@.immediate_ack_to_transmit(),
    {
        match self.remote_last_ack {
            Some(last_ack) => last_ack + self.remote_mss < self.next_ack(),
            None => false,
        }
    }

    /// Holds back the acknowledgement of what has just been received.
    fn delay_ack(&mut self, now: Instant)
        requires
            old(self).rx_buffer.inv(),
            old(self)@.rx.cap() <= MAX_RX_CAPACITY,
            old(self)@.remote_mss <= i32::MAX,
        ensures
            final(self)@ == old(self)@.ack_delayed(now),
    {
        if let Some(ack_delay) = self.ack_delay {
            if let Some(last_ack) = self.remote_last_ack {
                let next_ack: TcpSeqNumber = self.remote_seq_no + self.rx_buffer.len();
                if last_ack < next_ack {
                    self.ack_delay_timer = match self.ack_delay_timer {
                        AckDelayTimer::Idle => AckDelayTimer::Waiting(now + ack_delay),
                        AckDelayTimer::Waiting(at) => if last_ack + self.remote_mss < next_ack {
                            AckDelayTimer::Immediate
                        } else {
                            AckDelayTimer::Waiting(at)
                        },
                        AckDelayTimer::Immediate => AckDelayTimer::Immediate,
                    };
                }
            }
        }
    }

    /// Takes in the payload of a segment, `offset` octets behind what is expected
    /// next.
    fn take_payload(&mut self, now: Instant, repr: &TcpRepr, payload: &[u8], offset: usize) -> (r:
        Option<TcpRepr<'static>>)
        requires
            old(self).inv(),
            offset <= i32::MAX,
            payload@.len() < i32::MAX,
            payload@.len() > 0 && assembler::assemble(
                old(self)@.assembler,
                offset,
                payload@.len() as usize,
            ).1 is Ok ==> offset + payload@.len() <= old(self)@.rx.window(),
            old(self)@.payload_taken(now, repr@, payload@, offset as int).0.inv(),
        ensures
            final(self)@ == old(self)@.payload_taken(now, repr@, payload@, offset as int).0,
            match r {
                Some(reply) => old(self)@.payload_taken(now, repr@, payload@, offset as int).1
                    == Some(reply@),
                None => old(self)@.payload_taken(now, repr@, payload@, offset as int).1 is None,
            },
    {
        let len: usize = payload.len();
        if len == 0 {
            return None;
        }
        let was_empty: bool = self.assembler.is_empty();
        let ghost v = self@;
        match self.assembler.add_then_remove_front(offset, len) {
            Err(_) => {
                // The payload is dropped, but the acknowledgement that answers it
                // tells the remote what is missing.
                assert(self@ =~= v);
                Some(self.ack_reply(now, repr))
            },
            Ok(contig_len) => {
                proof {
                    model::lemma_assembled_in_window(
                        v.assembler,
                        offset,
                        len,
                        v.rx.window(),
                    );
                }
                self.local_rx_last_seq = Some(repr.seq_number);
                let written: usize = self.rx_buffer.write_unallocated(offset, payload);
                assert(payload@.take(written as int) =~= payload@);
                if contig_len != 0 {
                    self.rx_buffer.enqueue_unallocated(contig_len);
                    self.rx_waker.wake();
                }
                assert(self@ =~= v.payload_placed(
                    repr@.seq_number,
                    payload@,
                    offset as int,
                    self@.assembler,
                    contig_len as int,
                ));
                self.delay_ack(now);
                // Out of order, or filling a gap: RFC 5681 wants it acknowledged at
                // once.
                if !self.assembler.is_empty() || !was_empty {
                    Some(self.ack_reply(now, repr))
                } else {
                    None
                }
            },
        }
    }

    /// Processes a segment that belongs to this connection. Returns the segment
    /// that answers it, if any.
    pub fn process(
        &mut self,
        now: Instant,
        src_addr: &IpAddress,
        dst_addr: &IpAddress,
        repr: &TcpRepr,
    ) -> (r: Option<TcpRepr<'static>>)
        requires
            old(self).inv(),
            repr.valid(),
            old(self)@.takes(*src_addr, *dst_addr, repr@),
            old(self)@.segment_fits(now, repr@),
            old(self)@.measurement_fits(now, repr@),
        ensures
            final(self).inv(),
            final(self)@ == old(self)@.processed(now, repr@).0,
            match r {
                Some(reply) => old(self)@.processed(now, repr@).1 == Some(reply@),
                None => old(self)@.processed(now, repr@).1 is None,
            },
    {
        let ghost v = self@;
        assert(repr@.payload =~= repr.payload@);
        proof {
            model::lemma_processed_inv(v, now, repr@);
        }
        // Reject unacceptable acknowledgements.
        match self.ack_verdict(repr) {
            AckVerdict::Drop => {
                return None;
            },
            AckVerdict::Reset => {
                return Some(TcpRepr::rst_reply(repr));
            },
            AckVerdict::Challenge => {
                return self.challenge_ack_reply(now, repr);
            },
            AckVerdict::Accept => {},
        }
        // Before the connection is synchronized there is no window to compare with.
        let (from, to, offset): (usize, usize, usize) = if self.state == State::SynSent {
            (0, 0, 0)
        } else if self.segment_in_window(repr) {
            let ws: TcpSeqNumber = self.next_ack();
            let we: TcpSeqNumber = self.window_end();
            let segment_end: TcpSeqNumber = repr.seq_number + repr.payload.len();
            let start: TcpSeqNumber = ws.max(repr.seq_number);
            let end: TcpSeqNumber = we.min(segment_end);
            (start - repr.seq_number, end - repr.seq_number, start - ws)
        } else {
            // Out-of-window resets are silently dropped.
            if repr.control == TcpControl::Rst {
                return None;
            }
            // The remote may not have realized that the connection is closed.
            if self.state == State::TimeWait {
                self.timer.set_for_close(now);
            }
            // A segment with data is a retransmission whose acknowledgement was
            // lost, or a probe of the window: it is answered without a limit.
            if repr.payload.len() > 0 && repr.control != TcpControl::Syn {
                return Some(self.ack_reply(now, repr));
            }
            return self.challenge_ack_reply(now, repr);
        };
        let payload = vstd::slice::slice_subrange(repr.payload, from, to);
        assert(payload@ =~= v.payload_in_window(repr@));
        let (ack_len, ack_of_fin, ack_all) = self.acked_by(repr);
        match self.transition(now, repr, ack_len, ack_of_fin) {
            Err(reply) => {
                return reply;
            },
            Ok(()) => {},
        }
        let ghost v1 = self@;
        proof {
            model::lemma_accepted(v, now, repr@);
        }
        let window_changed: bool = self.note_window(now, repr, ack_len);
        self.note_ack(now, repr, ack_len, window_changed);
        self.note_timers(now, ack_len, ack_all);
        assert(self@ =~= v1.noted(v, now, repr@));
        self.take_payload(now, repr, payload, offset)
    }

    /// Whether the socket is open: it can be reused for a new connection if not.
    pub fn is_open(&self) -> (r: bool)
        ensures
            r == self@.is_open(),
    {
        match self.state {
            State::Closed => false,
            State::TimeWait => false,
            _ => true,
        }
    }

    /// Processes an ICMP error reported against this connection. `seq` is the
    /// sequence number of the segment that the error quotes.
    ///
    /// A quoted segment that is not in flight is ignored, so that spoofed errors
    /// cannot affect the connection (RFC 5927). During the handshake any other
    /// error aborts the connection; afterwards it is only recorded.
    pub fn process_icmp_error(&mut self, error: IcmpError, seq: TcpSeqNumber)
        requires
            old(self).inv(),
        ensures
            final(self).inv(),
            final(self)@ == old(self)@.error_reported(error, seq),
    {
        if seq < self.local_seq_no || seq > self.remote_last_seq {
            return ;
        }
        self.icmp_error = Some(error);
        match self.state {
            State::SynSent | State::SynReceived => {
                self.set_state(State::Closed);
                self.tuple = None;
            },
            _ => {},
        }
    }
}

/// The number of the first socket, from `i` on, with a connection between two endpoints
/// that is not closed.
pub open spec fn connection<'d>(
    slots: Seq<Option<TcpSocketState<'d>>>,
    i: int,
    local: IpEndpoint,
    remote: IpEndpoint,
) -> Option<usize>
    decreases slots.len() - i,
{
    if i >= slots.len() {
        None
    } else if is_connection(slots, i, local, remote) {
        Some(i as usize)
    } else {
        connection(slots, i + 1, local, remote)
    }
}

/// Socket number `i` has a connection between two endpoints that is not closed.
pub open spec fn is_connection<'d>(
    slots: Seq<Option<TcpSocketState<'d>>>,
    i: int,
    local: IpEndpoint,
    remote: IpEndpoint,
) -> bool {
    &&& slab::occupied(slots, i)
    &&& slots[i]->0.state != State::Closed
    &&& slots[i]->0.tuple == Some(Tuple { local, remote })
}

/// The first socket with a connection between two endpoints that is not closed.
fn find_connection<'d, const N: usize>(
    sockets: &Slab<TcpSocketState<'d>, N>,
    local: IpEndpoint,
    remote: IpEndpoint,
) -> (r: Option<usize>)
    ensures
        r == connection(sockets@, 0, local, remote),
        r matches Some(i) ==> slab::occupied(sockets@, i as int),
{
    let mut i: usize = 0;
    while i < sockets.len()
        invariant
            i <= sockets@.len(),
            connection(sockets@, 0, local, remote) == connection(
                sockets@,
                i as int,
                local,
                remote,
            ),
        decreases sockets@.len() - i,
    {
        if sockets.is_occupied(i) {
            let socket = sockets.get(i);
            if socket.state != State::Closed {
                if let Some(tuple) = socket.tuple {
                    if tuple.local == local && tuple.remote == remote {
                        return Some(i);
                    }
                }
            }
        }
        i = i + 1;
    }
    None
}

/// What socket number `i` holds.
pub open spec fn socket_at<'d>(slots: Seq<Option<TcpSocketState<'d>>>, i: usize) -> TcpView {
    slots[i as int]->0@
}

/// Every socket is sound.
pub open spec fn all_sound<'d>(slots: Seq<Option<TcpSocketState<'d>>>) -> bool {
    forall|i: int| #[trigger] slab::occupied(slots, i) ==> slots[i]->0.inv()
}

/// Delivers an ICMP error to the TCP connection whose segment provoked it, by an exact
/// match of the 4-tuple. `local` and `remote` are the source and the destination of the
/// quoted segment, which this stack sent.
pub fn process_icmp_error<'d, const N: usize>(
    sockets: &mut Slab<TcpSocketState<'d>, N>,
    error: IcmpError,
    local: IpEndpoint,
    remote: IpEndpoint,
    seq: TcpSeqNumber,
)
    requires
        all_sound(old(sockets)@),
    ensures
        all_sound(final(sockets)@),
        match connection(old(sockets)@, 0, local, remote) {
            Some(i) => {
                &&& slab::only_changed(old(sockets)@, final(sockets)@, i)
                &&& socket_at(final(sockets)@, i) == socket_at(old(sockets)@, i).error_reported(
                    error,
                    seq,
                )
            },
            None => final(sockets)@ == old(sockets)@,
        },
{
    if let Some(index) = find_connection(&*sockets, local, remote) {
        let socket = sockets.get_mut(index);
        socket.process_icmp_error(error, seq);
        proof {
            assert forall|i: int| #[trigger] slab::occupied(sockets@, i) implies
                sockets@[i]->0.inv() by {
                assert(slab::occupied(old(sockets)@, i));
            }
        }
    }
}

} // verus!
