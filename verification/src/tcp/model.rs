//! What a TCP socket does, as a function of what it is: the state of a socket as
//! a value, and the effect on it of a segment that arrives.
use super::congestion::Congestion;
use super::repr::{Segment, TcpControl, TcpTimestampRepr};
use super::rtt::RttEstimator;
use super::sack::{self, Block};
use super::timer::{AckDelayTimer, Timer};
use super::{State, Tuple, MAX_OWN_WIN_SHIFT, MAX_RX_CAPACITY, MAX_WIN_SHIFT, MIN_REMOTE_MSS};
use crate::icmp_error::IcmpError;
use crate::storage::assembler;
use crate::storage::RingView;
use crate::time::{Duration, Instant};
use crate::wire::{IpAddress, IpEndpoint, TcpSeqNumber};
use core::task::Waker;
use vstd::prelude::*;

verus! {

/// The state of a TCP socket.
#[verifier::ext_equal]
pub struct TcpView {
    pub state: State,
    pub timer: Timer,
    pub rtte: RttEstimator,
    pub assembler: Seq<(usize, usize)>,
    pub rx: RingView<u8>,
    pub rx_fin_received: bool,
    pub tx: RingView<u8>,
    pub timeout: Option<Duration>,
    pub keep_alive: Option<Duration>,
    pub hop_limit: Option<u8>,
    pub tuple: Option<Tuple>,
    pub icmp_error: Option<IcmpError>,
    pub local_seq_no: TcpSeqNumber,
    pub remote_seq_no: TcpSeqNumber,
    pub remote_last_seq: TcpSeqNumber,
    pub remote_last_ack: Option<TcpSeqNumber>,
    pub remote_last_win: u16,
    pub remote_win_shift: u8,
    pub remote_win_len: usize,
    pub remote_win_scale: Option<u8>,
    pub remote_has_sack: bool,
    pub remote_mss: usize,
    pub ip_mtu: usize,
    pub remote_last_ts: Option<Instant>,
    pub local_rx_last_seq: Option<TcpSeqNumber>,
    pub local_rx_last_ack: Option<TcpSeqNumber>,
    pub local_rx_dup_acks: u8,
    pub pending_fast_retransmit: bool,
    pub ack_delay: Option<Duration>,
    pub ack_delay_timer: AckDelayTimer,
    pub challenge_ack_timer: Instant,
    pub nagle: bool,
    pub local_sack_history: Seq<Option<Block>>,
    pub congestion_controller: Congestion,
    pub timestamps: bool,
    pub last_remote_tsval: u32,
    pub tsval_offset: u32,
    pub rx_waker: Option<Waker>,
    pub tx_waker: Option<Waker>,
}

/// What becomes of a segment once its acknowledgement number has been looked at.
pub enum AckVerdict {
    /// It is looked at further.
    Accept,
    /// It is dropped.
    Drop,
    /// It is answered with a reset.
    Reset,
    /// It is answered with an acknowledgement, once in a while.
    Challenge,
}

/// What becomes of a segment once it has moved the connection to its next state.
pub enum Step {
    /// That was all.
    Done(TcpView, Option<Segment>),
    /// It is looked at further.
    Continue(TcpView),
}

/// Flow of acknowledgements that a segment brings.
pub struct Acked {
    /// The number of octets of data that it acknowledges.
    pub len: int,
    /// It acknowledges the FIN.
    pub fin: bool,
    /// It acknowledges everything that has been sent.
    pub all: bool,
}

/// `w` shifted right, as the header of a segment has it.
pub open spec fn scale_down(w: int, shift: u8) -> u16 {
    let x = (w as usize) >> shift;
    if x > u16::MAX {
        u16::MAX
    } else {
        x as u16
    }
}

/// The window that `w` in the header of a segment stands for.
pub open spec fn scale_up(w: u16, shift: u8) -> int {
    ((w as usize) << shift) as int
}

/// The least shift that lets a window of `cap` octets fit into sixteen bits.
pub open spec fn shift_for(cap: nat) -> nat
    decreases cap,
{
    if cap < 0x1_0000 {
        0
    } else {
        1 + shift_for(cap / 2)
    }
}

impl TcpView {
    /// The next sequence number expected from the remote.
    pub open spec fn next_ack(self) -> TcpSeqNumber {
        self.remote_seq_no.plus(self.rx.length)
    }

    /// A SYN has been sent and is not acknowledged.
    pub open spec fn sent_syn(self) -> bool {
        self.state == State::SynSent || self.state == State::SynReceived
    }

    /// A FIN has been sent, or will be, and is not acknowledged.
    pub open spec fn sent_fin(self) -> bool {
        self.state == State::FinWait1 || self.state == State::LastAck || self.state
            == State::Closing
    }

    /// The number of sequence numbers that SYN and FIN occupy beside the data.
    pub open spec fn control_len(self) -> int {
        if self.sent_syn() || self.sent_fin() {
            1
        } else {
            0
        }
    }

    /// The number of octets sent but not acknowledged.
    pub open spec fn flight_size(self) -> int {
        self.remote_last_seq.diff(self.local_seq_no)
    }

    /// A state in which data from the remote is still awaited.
    pub open spec fn awaits_data(self) -> bool {
        self.state == State::SynReceived || self.state == State::Established || self.state
            == State::FinWait1 || self.state == State::FinWait2
    }

    /// A state in which the window is announced to the remote.
    pub open spec fn has_window(self) -> bool {
        self.state == State::SynSent || self.awaits_data()
    }

    /// The invariant without the window announced last.
    pub open spec fn core_inv(self) -> bool {
        &&& self.rx.inv()
        &&& self.rx.cap() <= MAX_RX_CAPACITY
        &&& self.tx.inv()
        &&& self.tx.cap() < i32::MAX
        &&& assembler::assembler_inv(self.assembler)
        &&& self.assembler.len() > 0 ==> self.assembler.last().1 <= self.rx.window()
        &&& self.rtte.inv()
        &&& self.remote_win_shift <= MAX_OWN_WIN_SHIFT
        &&& (self.remote_win_scale matches Some(scale) ==> scale <= MAX_WIN_SHIFT)
        &&& self.remote_win_len <= MAX_RX_CAPACITY
        &&& self.remote_mss <= i32::MAX
        &&& self.local_sack_history.len() == 3
        &&& 0 <= self.flight_size() <= self.tx.length + (if self.state == State::Closed {
            1
        } else {
            self.control_len()
        })
        &&& self.mtu_fits(self.ip_mtu)
        &&& self.sent_syn() ==> self.rx.length == 0
    }

    pub open spec fn inv(self) -> bool {
        &&& self.core_inv()
        &&& self.has_window() ==> self.window_covers_next()
    }

    /// What is expected next lies in the window announced last, or right behind it. (A
    /// SYN may arrive before any window has been announced.)
    pub open spec fn window_covers_next(self) -> bool {
        self.remote_last_ack matches Some(last_ack) ==> 0 <= self.next_ack().diff(last_ack)
            <= scale_up(self.remote_last_win, self.remote_win_shift) + 1
    }

    /// The headers of a segment fit into the given MTU.
    pub open spec fn mtu_fits(self, mtu: usize) -> bool {
        self.tuple matches Some(tuple) ==> mtu >= tuple.local.addr.header_len() + 20
    }

    // ------------------------------------------------------------------
    // Small steps
    // ------------------------------------------------------------------
    /// A change of state wakes both tasks.
    pub open spec fn with_state(self, state: State) -> TcpView {
        TcpView { state, rx_waker: None, tx_waker: None, ..self }
    }

    /// The window as the header of a segment has it.
    pub open spec fn scaled_window(self) -> u16 {
        scale_down(self.rx.window(), self.remote_win_shift)
    }

    /// The timestamp option of a segment that echoes `tsecr`.
    pub open spec fn timestamp_option(self, now: Instant, tsecr: u32) -> Option<TcpTimestampRepr> {
        if self.timestamps {
            Some(
                TcpTimestampRepr {
                    tsval: vstd::wrapping::u32_specs::wrapping_add(
                        crate::time::div_to_zero(now.micros as int, 1000) as i64 as u32,
                        self.tsval_offset,
                    ),
                    tsecr,
                },
            )
        } else {
            None
        }
    }

    /// The blocks to report in an acknowledgement of everything up to `ack`.
    pub open spec fn sack_blocks(self, ack: TcpSeqNumber) -> Seq<Block> {
        if self.assembler.len() == 0 {
            Seq::empty()
        } else {
            sack::sack_blocks(
                self.assembler,
                ack,
                self.local_rx_last_seq,
                self.local_sack_history,
            )
        }
    }

    /// Reporting blocks remembers them; with nothing to report, nothing that was
    /// reported before is remembered either.
    pub open spec fn sack_reported(self, ack: TcpSeqNumber) -> TcpView {
        TcpView {
            local_rx_last_seq: if self.assembler.len() == 0 {
                None
            } else {
                self.local_rx_last_seq
            },
            local_sack_history: sack::as_history(self.sack_blocks(ack)),
            ..self
        }
    }

    /// The acknowledgement with which a segment is answered.
    pub open spec fn ack_segment(self, now: Instant, s: Segment) -> Segment {
        Segment {
            timestamp: match s.timestamp {
                Some(ts) => self.timestamp_option(now, ts.tsval),
                None => None,
            },
            seq_number: self.remote_last_seq,
            ack_number: Some(self.next_ack()),
            window_len: self.scaled_window(),
            sack_ranges: if self.remote_has_sack {
                sack::on_wire(self.sack_blocks(self.next_ack()))
            } else {
                seq![None, None, None]
            },
            ..s.reply()
        }
    }

    /// The socket after it has acknowledged what it has received.
    pub open spec fn ack_sent(self) -> TcpView {
        let v = TcpView {
            remote_last_ack: Some(self.next_ack()),
            remote_last_win: self.scaled_window(),
            ..self
        };
        if self.remote_has_sack {
            v.sack_reported(self.next_ack())
        } else {
            v
        }
    }

    /// At most one acknowledgement a second is sent to challenge a segment.
    pub open spec fn challenge(self, now: Instant, s: Segment) -> (TcpView, Option<Segment>) {
        if now.micros < self.challenge_ack_timer.micros {
            (self, None)
        } else {
            let v = TcpView {
                challenge_ack_timer: now.after(Duration { micros: 1_000_000 }),
                ..self
            };
            (v.ack_sent(), Some(v.ack_segment(now, s)))
        }
    }

    /// The socket processes and sends segments.
    pub open spec fn is_open(self) -> bool {
        self.state != State::Closed && self.state != State::TimeWait
    }

    /// An ICMP error about the segment with sequence number `seq` has arrived.
    pub open spec fn error_reported(self, error: IcmpError, seq: TcpSeqNumber) -> TcpView {
        if seq.diff(self.local_seq_no) < 0 || seq.diff(self.remote_last_seq) > 0 {
            self
        } else {
            let v = TcpView { icmp_error: Some(error), ..self };
            if self.sent_syn() {
                TcpView { tuple: None, ..v.with_state(State::Closed) }
            } else {
                v
            }
        }
    }

    /// The segment belongs to this connection.
    pub open spec fn takes(self, src: IpAddress, dst: IpAddress, s: Segment) -> bool {
        &&& self.state != State::Closed
        &&& self.tuple == Some(
            Tuple {
                local: IpEndpoint { addr: dst, port: s.dst_port },
                remote: IpEndpoint { addr: src, port: s.src_port },
            },
        )
    }

    // ------------------------------------------------------------------
    // A segment arrives: is it acceptable?
    // ------------------------------------------------------------------
    /// What the acknowledgement number makes of a segment.
    pub open spec fn ack_verdict(self, s: Segment) -> AckVerdict {
        let acks_syn = s.ack_number == Some(self.local_seq_no.plus(1));
        if self.state == State::SynSent {
            match (s.control, s.ack_number) {
                (TcpControl::Rst, _) => if acks_syn {
                    AckVerdict::Accept
                } else {
                    AckVerdict::Drop
                },
                (TcpControl::Syn, Some(_)) => if acks_syn {
                    AckVerdict::Accept
                } else {
                    AckVerdict::Reset
                },
                (TcpControl::Syn, None) => AckVerdict::Accept,
                (TcpControl::Plain, Some(_)) => if acks_syn {
                    AckVerdict::Drop
                } else {
                    AckVerdict::Reset
                },
                _ => AckVerdict::Drop,
            }
        } else if s.control == TcpControl::Rst {
            AckVerdict::Accept
        } else {
            match s.ack_number {
                None => AckVerdict::Drop,
                Some(ack) => if self.state == State::SynReceived {
                    if acks_syn {
                        AckVerdict::Accept
                    } else {
                        AckVerdict::Reset
                    }
                } else if ack.diff(self.local_seq_no) < 0 {
                    AckVerdict::Drop
                } else if ack.diff(self.local_seq_no) > self.tx.length + self.control_len() {
                    AckVerdict::Challenge
                } else {
                    AckVerdict::Accept
                },
            }
        }
    }

    /// The first sequence number behind the window announced last.
    pub open spec fn window_end(self) -> TcpSeqNumber {
        match self.remote_last_ack {
            Some(last_ack) => last_ack.plus(
                scale_up(self.remote_last_win, self.remote_win_shift),
            ),
            None => self.next_ack(),
        }
    }

    /// The segment acceptability test of RFC 9293, by which a keep-alive is not
    /// acceptable.
    pub open spec fn in_window(self, s: Segment) -> bool {
        let start = s.seq_number;
        let end = s.seq_number.plus(s.payload.len() as int);
        let ws = self.next_ack();
        let we = self.window_end();
        if s.payload.len() == 0 {
            if end == ws.plus(-1) {
                false
            } else if ws == we {
                ws == start
            } else {
                ws.diff(start) <= 0 && start.diff(we) < 0
            }
        } else if ws == we {
            false
        } else {
            (ws.diff(start) <= 0 && start.diff(we) < 0) || (ws.diff(end) < 0 && end.diff(we) <= 0)
        }
    }

    /// The first sequence number of the segment that lies in the window.
    pub open spec fn overlap_start(self, s: Segment) -> TcpSeqNumber {
        self.next_ack().later(s.seq_number)
    }

    /// The first sequence number behind the part of the segment in the window.
    pub open spec fn overlap_end(self, s: Segment) -> TcpSeqNumber {
        self.window_end().sooner(s.seq_number.plus(s.payload.len() as int))
    }

    /// The part of the payload that lies in the window.
    pub open spec fn payload_in_window(self, s: Segment) -> Seq<u8> {
        if self.state == State::SynSent {
            Seq::empty()
        } else {
            s.payload.subrange(
                self.overlap_start(s).diff(s.seq_number),
                self.overlap_end(s).diff(s.seq_number),
            )
        }
    }

    /// How far behind what is expected next that part starts.
    pub open spec fn payload_offset(self, s: Segment) -> int {
        if self.state == State::SynSent {
            0
        } else {
            self.overlap_start(s).diff(self.next_ack())
        }
    }

    /// The segment is looked at beyond its acknowledgement and its place in the window.
    pub open spec fn is_acceptable(self, s: Segment) -> bool {
        self.ack_verdict(s) is Accept && (self.state == State::SynSent || self.in_window(s))
    }

    /// The payload in the announced window, if it is taken in, fits into the buffer. (The
    /// window of a SYN is announced without a scale and understood with it, so
    /// that until the first acknowledgement it can be larger than the buffer.)
    pub open spec fn segment_fits(self, now: Instant, s: Segment) -> bool {
        self.is_acceptable(s) && self.state != State::SynSent ==> {
            &&& 0 <= self.overlap_start(s).diff(s.seq_number) <= self.overlap_end(s).diff(
                s.seq_number,
            ) <= s.payload.len()
            &&& 0 <= self.overlap_start(s).diff(self.next_ack())
            &&& self.transition(now, s) is Continue && self.payload_in_window(s).len() > 0
                && assembler::assemble(
                self.assembler,
                self.payload_offset(s) as usize,
                self.payload_in_window(s).len() as usize,
            ).1 is Ok ==> self.payload_offset(s) + self.payload_in_window(s).len()
                <= self.rx.window()
        }
    }

    /// What becomes of a segment outside the window.
    pub open spec fn out_of_window(self, now: Instant, s: Segment) -> (TcpView, Option<Segment>) {
        if s.control == TcpControl::Rst {
            (self, None)
        } else {
            let v = if self.state == State::TimeWait {
                TcpView { timer: Timer::closing(now), ..self }
            } else {
                self
            };
            if s.payload.len() > 0 && s.control != TcpControl::Syn {
                (v.ack_sent(), Some(v.ack_segment(now, s)))
            } else {
                v.challenge(now, s)
            }
        }
    }

    // ------------------------------------------------------------------
    // A segment arrives: what it changes
    // ------------------------------------------------------------------
    /// What a segment acknowledges.
    pub open spec fn acked_by(self, s: Segment) -> Acked {
        let from = self.local_seq_no.plus(
            if self.sent_syn() {
                1
            } else {
                0
            },
        );
        match s.ack_number {
            Some(ack) => if s.control != TcpControl::Rst && ack.diff(from) >= 0 {
                let fin = self.sent_fin() && ack.diff(from) == self.tx.length + 1;
                Acked {
                    len: if fin {
                        self.tx.length
                    } else {
                        ack.diff(from)
                    },
                    fin,
                    all: self.remote_last_seq.diff(ack) <= 0,
                }
            } else {
                Acked { len: 0, fin: false, all: false }
            },
            None => Acked { len: 0, fin: false, all: false },
        }
    }

    /// The control flag of a segment as far as it counts: PSH does not, and a FIN
    /// does not as long as something before it is missing, or does not fit into the
    /// window.
    pub open spec fn effective_control(self, s: Segment) -> TcpControl {
        if s.control == TcpControl::Fin && (self.next_ack().diff(s.seq_number) < 0
            || self.window_end().diff(s.seq_number.plus(s.payload.len() as int)) < 0) {
            TcpControl::Plain
        } else {
            s.control.quash_psh()
        }
    }

    /// The remote has sent everything.
    pub open spec fn fin_received(self) -> TcpView {
        TcpView { remote_seq_no: self.remote_seq_no.plus(1), rx_fin_received: true, ..self }
    }

    pub open spec fn time_wait(self, now: Instant) -> TcpView {
        TcpView { timer: Timer::closing(now), ..self.with_state(State::TimeWait) }
    }

    /// The connection is synchronized with a remote that has sent a SYN.
    pub open spec fn synchronized(self, s: Segment) -> TcpView {
        let mss: usize = match s.max_seg_size {
            Some(mss) => if mss != 0 {
                if mss < MIN_REMOTE_MSS {
                    MIN_REMOTE_MSS
                } else {
                    mss as usize
                }
            } else {
                self.remote_mss
            },
            None => self.remote_mss,
        };
        TcpView {
            remote_mss: mss,
            congestion_controller: if s.max_seg_size matches Some(m) && m != 0 {
                self.congestion_controller.with_mss(mss)
            } else {
                self.congestion_controller
            },
            remote_seq_no: s.seq_number.plus(1),
            remote_last_seq: self.local_seq_no.plus(1),
            remote_last_ack: Some(s.seq_number),
            remote_has_sack: s.sack_permitted,
            remote_win_scale: s.window_scale,
            remote_win_shift: if s.window_scale is None {
                0
            } else {
                self.remote_win_shift
            },
            timestamps: s.timestamp is Some,
            ..self.with_state(
                if s.ack_number is Some {
                    State::Established
                } else {
                    State::SynReceived
                },
            )
        }
    }

    /// The next state of the connection.
    pub open spec fn transition(self, now: Instant, s: Segment) -> Step {
        let acked = self.acked_by(s);
        match (self.state, self.effective_control(s)) {
            (_, TcpControl::Rst) => Step::Done(
                TcpView { tuple: None, ..self.with_state(State::Closed) },
                None,
            ),
            (State::SynReceived, TcpControl::Plain) => Step::Continue(
                self.with_state(State::Established),
            ),
            (State::SynReceived, TcpControl::Fin) => Step::Continue(
                self.fin_received().with_state(State::CloseWait),
            ),
            (State::SynSent, TcpControl::Syn) => Step::Continue(self.synchronized(s)),
            (State::Established, TcpControl::Plain) => Step::Continue(self),
            (State::Established, TcpControl::Fin) => Step::Continue(
                self.fin_received().with_state(State::CloseWait),
            ),
            (State::FinWait1, TcpControl::Plain) => Step::Continue(
                if acked.fin {
                    self.with_state(State::FinWait2)
                } else {
                    self
                },
            ),
            (State::FinWait1, TcpControl::Fin) => Step::Continue(
                if acked.fin {
                    self.fin_received().time_wait(now)
                } else {
                    self.fin_received().with_state(State::Closing)
                },
            ),
            (State::FinWait2, TcpControl::Plain) => Step::Continue(self),
            (State::FinWait2, TcpControl::Fin) => Step::Continue(
                self.fin_received().time_wait(now),
            ),
            (State::Closing, TcpControl::Plain) => Step::Continue(
                if acked.fin {
                    self.time_wait(now)
                } else {
                    self
                },
            ),
            (State::CloseWait, TcpControl::Plain) => Step::Continue(self),
            (State::LastAck, TcpControl::Plain) => if acked.fin {
                Step::Continue(TcpView { tuple: None, ..self.with_state(State::Closed) })
            } else if acked.len == 0 {
                let (v, reply) = self.challenge(now, s);
                Step::Done(v, reply)
            } else {
                Step::Continue(self)
            },
            _ => Step::Done(self, None),
        }
    }

    /// The window that a segment grants.
    pub open spec fn granted_window(self, s: Segment) -> usize {
        (s.window_len as usize) << (if s.control == TcpControl::Syn {
            0u8
        } else {
            match self.remote_win_scale {
                Some(scale) => scale,
                None => 0u8,
            }
        })
    }

    /// The segment repeats the last acknowledgement and says nothing else.
    pub open spec fn is_dup_ack(self, s: Segment) -> bool {
        &&& s.payload.len() == 0
        &&& self.local_rx_last_ack is Some
        &&& self.local_rx_last_ack == s.ack_number
        &&& s.ack_number->0.diff(self.remote_last_seq) < 0
        &&& self.granted_window(s) == self.remote_win_len
    }

    /// The window of the remote, and the room in the transmit buffer, after a
    /// segment that acknowledges `len` octets of data.
    pub open spec fn window_granted(self, now: Instant, s: Segment, len: int) -> TcpView {
        TcpView {
            remote_last_ts: Some(now),
            remote_win_len: self.granted_window(s),
            congestion_controller: self.congestion_controller.with_remote_window(
                self.granted_window(s),
            ),
            tx: if len > 0 {
                self.tx.shrunk(len)
            } else {
                self.tx
            },
            tx_waker: if len > 0 {
                None
            } else {
                self.tx_waker
            },
            ..self
        }
    }

    /// The third repetition of an acknowledgement in a row starts a fast
    /// retransmission.
    pub open spec fn ack_repeated(self) -> TcpView {
        let count: u8 = if self.local_rx_dup_acks == u8::MAX {
            u8::MAX
        } else {
            (self.local_rx_dup_acks + 1) as u8
        };
        TcpView {
            local_rx_dup_acks: count,
            timer: if count == 3 {
                Timer::FastRetransmit
            } else {
                self.timer
            },
            congestion_controller: self.congestion_controller.dup_acked(),
            ..self
        }
    }

    /// A fresh acknowledgement.
    pub open spec fn ack_advanced(self, now: Instant, ack: TcpSeqNumber, len: int) -> TcpView {
        TcpView {
            local_rx_dup_acks: 0,
            local_rx_last_ack: Some(ack),
            rtte: self.rtte.acked(now, ack),
            congestion_controller: self.congestion_controller.acked(len as usize),
            ..self
        }
    }

    /// Everything before `ack` has been received by the remote; what lies before
    /// it is not sent again.
    pub open spec fn advanced_to(self, ack: TcpSeqNumber) -> TcpView {
        TcpView {
            local_seq_no: ack,
            remote_last_seq: if self.remote_last_seq.diff(ack) < 0 {
                ack
            } else {
                self.remote_last_seq
            },
            ..self
        }
    }

    /// The bookkeeping of acknowledgements and timestamps. `dup` tells whether
    /// the segment only repeats the last acknowledgement.
    pub open spec fn ack_noted(self, now: Instant, s: Segment, len: int, dup: bool) -> TcpView {
        let v = match s.ack_number {
            Some(ack) => (if dup {
                self.ack_repeated()
            } else {
                self.ack_advanced(now, ack, len)
            }).advanced_to(ack),
            None => self,
        };
        TcpView {
            last_remote_tsval: match s.timestamp {
                Some(ts) => ts.tsval,
                None => v.last_remote_tsval,
            },
            ..v
        }
    }

    /// The timer after an acknowledgement.
    pub open spec fn timer_after_ack(self, now: Instant, len: int, all: bool) -> Timer {
        match self.timer {
            Timer::Retransmit { .. } | Timer::FastRetransmit => if all {
                Timer::idle(now, self.keep_alive)
            } else if len > 0 {
                self.timer.retransmitting(now, self.rtte.timeout())
            } else {
                self.timer
            },
            Timer::Idle { .. } => Timer::idle(now, self.keep_alive),
            _ => self.timer,
        }
    }

    /// A closed window starts probing if there is something to send; an open one
    /// ends it.
    pub open spec fn timer_after_window(self, now: Instant, len: int) -> Timer {
        if self.remote_win_len == 0 {
            if self.tx.length > 0 && (self.timer is Idle || len > 0) {
                Timer::probing(now, self.rtte.timeout())
            } else {
                self.timer
            }
        } else if self.timer is ZeroWindowProbe {
            Timer::idle(now, self.keep_alive)
        } else {
            self.timer
        }
    }

    /// Both timers together.
    pub open spec fn timers_set(self, now: Instant, len: int, all: bool) -> TcpView {
        let v = TcpView { timer: self.timer_after_ack(now, len, all), ..self };
        TcpView { timer: v.timer_after_window(now, len), ..v }
    }

    // ------------------------------------------------------------------
    // A segment arrives: its payload
    // ------------------------------------------------------------------
    /// There is something that has not been acknowledged.
    pub open spec fn ack_to_transmit(self) -> bool {
        self.remote_last_ack matches Some(last_ack) && last_ack.diff(self.next_ack()) < 0
    }

    /// What has not been acknowledged is more than a full segment.
    pub open spec fn immediate_ack_to_transmit(self) -> bool {
        self.remote_last_ack matches Some(last_ack) && last_ack.plus(self.remote_mss as int).diff(
            self.next_ack(),
        ) < 0
    }

    /// Acknowledgements are held back for a while, but not once there is more than
    /// a full segment to acknowledge.
    pub open spec fn ack_delayed(self, now: Instant) -> TcpView {
        match self.ack_delay {
            Some(delay) => if self.ack_to_transmit() {
                TcpView {
                    ack_delay_timer: match self.ack_delay_timer {
                        AckDelayTimer::Idle => AckDelayTimer::Waiting(now.after(delay)),
                        AckDelayTimer::Waiting(_) => if self.immediate_ack_to_transmit() {
                            AckDelayTimer::Immediate
                        } else {
                            self.ack_delay_timer
                        },
                        AckDelayTimer::Immediate => AckDelayTimer::Immediate,
                    },
                    ..self
                }
            } else {
                self
            },
            None => self,
        }
    }

    /// Payload has been placed `offset` octets behind what is expected next, which
    /// completes `contig` octets.
    pub open spec fn payload_placed(
        self,
        seq: TcpSeqNumber,
        payload: Seq<u8>,
        offset: int,
        held: Seq<(usize, usize)>,
        contig: int,
    ) -> TcpView {
        TcpView {
            assembler: held,
            local_rx_last_seq: Some(seq),
            rx: self.rx.written(offset, payload).grown(contig),
            rx_waker: if contig != 0 {
                None
            } else {
                self.rx_waker
            },
            ..self
        }
    }

    /// The payload is taken in. It is acknowledged at once if it is out of order or
    /// fills a gap.
    pub open spec fn payload_taken(
        self,
        now: Instant,
        s: Segment,
        payload: Seq<u8>,
        offset: int,
    ) -> (TcpView, Option<Segment>) {
        if payload.len() == 0 {
            (self, None)
        } else {
            let (held, outcome) = assembler::assemble(
                self.assembler,
                offset as usize,
                payload.len() as usize,
            );
            match outcome {
                Err(_) => (self.ack_sent(), Some(self.ack_segment(now, s))),
                Ok(contig) => {
                    let v = self.payload_placed(
                        s.seq_number,
                        payload,
                        offset,
                        held,
                        contig as int,
                    ).ack_delayed(now);
                    if held.len() > 0 || self.assembler.len() > 0 {
                        (v.ack_sent(), Some(v.ack_segment(now, s)))
                    } else {
                        (v, None)
                    }
                },
            }
        }
    }

    /// What a segment changes once it has moved the connection to its next state.
    pub open spec fn noted(self, before: TcpView, now: Instant, s: Segment) -> TcpView {
        let acked = before.acked_by(s);
        self.window_granted(now, s, acked.len).ack_noted(
            now,
            s,
            acked.len,
            self.is_dup_ack(s),
        ).timers_set(now, acked.len, acked.all)
    }

    /// The effect of an acceptable segment.
    pub open spec fn accepted(self, now: Instant, s: Segment) -> (TcpView, Option<Segment>) {
        match self.transition(now, s) {
            Step::Done(v, reply) => (v, reply),
            Step::Continue(v) => v.noted(self, now, s).payload_taken(
                now,
                s,
                self.payload_in_window(s),
                self.payload_offset(s),
            ),
        }
    }

    /// The effect of a segment that belongs to this connection: the socket
    /// afterwards, and the segment that answers it, if any.
    pub open spec fn processed(self, now: Instant, s: Segment) -> (TcpView, Option<Segment>) {
        match self.ack_verdict(s) {
            AckVerdict::Drop => (self, None),
            AckVerdict::Reset => (self, Some(s.rst_reply())),
            AckVerdict::Challenge => self.challenge(now, s),
            AckVerdict::Accept => if self.is_acceptable(s) {
                self.accepted(now, s)
            } else {
                self.out_of_window(now, s)
            },
        }
    }

    /// A measurement of the round-trip time that the segment ends stays in range.
    pub open spec fn measurement_fits(self, now: Instant, s: Segment) -> bool {
        self.is_acceptable(s) && self.transition(now, s) is Continue && !self.transition(
            now,
            s,
        )->Continue_0.is_dup_ack(s) ==> (s.ack_number matches Some(ack) ==>
            self.rtte.ack_in_range(now, ack))
    }
}

/// What is held behind a hole lies within what sequence numbers can tell apart.
pub proof fn lemma_held_in_reach(v: TcpView)
    requires
        v.core_inv(),
    ensures
        sack::in_reach(v.assembler),
{
    let r = v.assembler;
    assert forall|i: int| 0 <= i < r.len() implies (#[trigger] r[i]).0 < r[i].1 <= i32::MAX by {
        if i < r.len() - 1 {
            assert(r[i].1 < r[r.len() - 1].0);
            assert(r[r.len() - 1].0 < r[r.len() - 1].1);
        }
    }
}

/// A window announced in sixteen bits is less than half of the sequence numbers.
pub proof fn lemma_scale_up(w: u16, shift: u8)
    requires
        shift <= MAX_OWN_WIN_SHIFT,
    ensures
        w <= scale_up(w, shift) <= 0x7fff_8000,
{
    assert(shift <= 15 ==> w <= ((w as usize) << shift) <= 0x7fff_8000) by (bit_vector);
}

/// A window announced with its scale is no larger than the window itself.
pub proof fn lemma_scale_down(w: int, shift: u8)
    requires
        shift <= MAX_OWN_WIN_SHIFT,
        0 <= w <= MAX_RX_CAPACITY,
    ensures
        scale_up(scale_down(w, shift), shift) <= w,
{
    let u = w as usize;
    assert(shift <= 15 ==> ((u >> shift) << shift) <= u) by (bit_vector);
    assert(shift <= 15 && (u >> shift) > 0xffff ==> (0xffffusize << shift) <= u) by (bit_vector);
}

/// The window that a segment grants is limited by the largest scale.
proof fn lemma_granted_window(v: TcpView, s: Segment)
    requires
        v.remote_win_scale matches Some(scale) ==> scale <= MAX_WIN_SHIFT,
    ensures
        v.granted_window(s) <= MAX_RX_CAPACITY,
{
    let w = s.window_len;
    assert(forall|scale: u8| scale <= 14 ==> (#[trigger] ((w as usize) << scale)) <= 0x4000_0000)
        by (bit_vector);
}

/// What an acceptable segment acknowledges is in the transmit buffer.
pub proof fn lemma_acked_within_tx(v: TcpView, s: Segment)
    requires
        v.inv(),
        v.ack_verdict(s) is Accept,
    ensures
        0 <= v.acked_by(s).len <= v.tx.length,
{
}

/// Noting a segment leaves alone what has nothing to do with acknowledgements.
proof fn lemma_noted_frame(v1: TcpView, v: TcpView, now: Instant, s: Segment)
    ensures
        v1.noted(v, now, s).state == v1.state,
        v1.noted(v, now, s).rx == v1.rx,
        v1.noted(v, now, s).assembler == v1.assembler,
        v1.noted(v, now, s).tuple == v1.tuple,
        v1.noted(v, now, s).remote_seq_no == v1.remote_seq_no,
        v1.noted(v, now, s).remote_last_ack == v1.remote_last_ack,
        v1.noted(v, now, s).remote_last_win == v1.remote_last_win,
        v1.noted(v, now, s).remote_win_shift == v1.remote_win_shift,
        v1.noted(v, now, s).remote_win_scale == v1.remote_win_scale,
        v1.noted(v, now, s).remote_win_len == v1.granted_window(s),
        v1.noted(v, now, s).remote_mss == v1.remote_mss,
        v1.noted(v, now, s).ip_mtu == v1.ip_mtu,
        v1.noted(v, now, s).local_sack_history == v1.local_sack_history,
        v1.noted(v, now, s).rtte == v1.rtte || (s.ack_number is Some && v1.noted(v, now, s).rtte
            == v1.rtte.acked(now, s.ack_number->0)),
        v1.noted(v, now, s).tx == if v.acked_by(s).len > 0 {
            v1.tx.shrunk(v.acked_by(s).len)
        } else {
            v1.tx
        },
        s.ack_number matches Some(ack) ==> v1.noted(v, now, s).local_seq_no == ack && v1.noted(
            v,
            now,
            s,
        ).remote_last_seq == (if v1.remote_last_seq.diff(ack) < 0 {
            ack
        } else {
            v1.remote_last_seq
        }),
        s.ack_number is None ==> v1.noted(v, now, s).local_seq_no == v1.local_seq_no && v1.noted(
            v,
            now,
            s,
        ).remote_last_seq == v1.remote_last_seq,
{
}

/// Moving on leaves alone the buffers, and what is fixed before.
proof fn lemma_transition_frame(v: TcpView, now: Instant, s: Segment)
    requires
        v.transition(now, s) is Continue,
    ensures
        ({
            let v1 = v.transition(now, s)->Continue_0;
            &&& v1.rx == v.rx
            &&& v1.tx == v.tx
            &&& v1.assembler == v.assembler
            &&& v1.rtte == v.rtte
            &&& v1.local_seq_no == v.local_seq_no
            &&& v1.local_sack_history == v.local_sack_history
            &&& v1.ip_mtu == v.ip_mtu
            &&& v1.remote_last_win == v.remote_last_win
            &&& v1.tuple is Some ==> v1.tuple == v.tuple
            &&& v.state != State::SynSent ==> {
                &&& v1.remote_last_seq == v.remote_last_seq
                &&& v1.remote_last_ack == v.remote_last_ack
                &&& v1.remote_win_shift == v.remote_win_shift
                &&& v1.remote_win_scale == v.remote_win_scale
                &&& v1.remote_mss == v.remote_mss
                &&& v1.awaits_data() ==> v1.remote_seq_no == v.remote_seq_no && v.awaits_data()
                &&& v1.state != State::SynSent && v1.state != State::SynReceived
                &&& v.acked_by(s).fin ==> v1.state == State::FinWait2 || v1.state
                    == State::TimeWait || v1.state == State::Closed
                &&& !v.acked_by(s).fin ==> v1.sent_fin() == v.sent_fin()
                &&& v1.state == State::Closed ==> v.acked_by(s).fin
            }
            &&& v.state == State::SynSent ==> v1 == v.synchronized(s)
        }),
{
}

/// After an acceptable segment has moved the connection on, and its
/// acknowledgement has been noted, what has been sent is still accounted for.
proof fn lemma_noted_flight(v: TcpView, now: Instant, s: Segment)
    requires
        v.inv(),
        v.ack_verdict(s) is Accept,
        v.transition(now, s) is Continue,
    ensures
        ({
            let v2 = v.transition(now, s)->Continue_0.noted(v, now, s);
            0 <= v2.flight_size() <= v2.tx.length + (if v2.state == State::Closed {
                1
            } else {
                v2.control_len()
            })
        }),
{
    let v1 = v.transition(now, s)->Continue_0;
    lemma_noted_frame(v1, v, now, s);
    lemma_transition_frame(v, now, s);
    lemma_acked_within_tx(v, s);
}

/// After an acceptable segment has moved the connection on, and its
/// acknowledgement has been noted, the invariant holds.
pub proof fn lemma_noted_inv(v: TcpView, now: Instant, s: Segment)
    requires
        v.inv(),
        v.ack_verdict(s) is Accept,
        s.window_scale matches Some(scale) ==> scale <= MAX_WIN_SHIFT,
        v.transition(now, s) is Continue,
    ensures
        v.transition(now, s)->Continue_0.noted(v, now, s).inv(),
        v.transition(now, s)->Continue_0.noted(v, now, s).rx == v.rx,
        v.transition(now, s)->Continue_0.noted(v, now, s).assembler == v.assembler,
{
    let v1 = v.transition(now, s)->Continue_0;
    lemma_noted_frame(v1, v, now, s);
    lemma_transition_frame(v, now, s);
    lemma_acked_within_tx(v, s);
    lemma_granted_window(v1, s);
    lemma_noted_flight(v, now, s);
}

/// Acknowledging what has been received establishes the invariant.
pub proof fn lemma_ack_sent_inv(v: TcpView)
    requires
        v.core_inv(),
    ensures
        v.ack_sent().inv(),
{
    lemma_scale_down(v.rx.window(), v.remote_win_shift);
    lemma_scale_up(v.scaled_window(), v.remote_win_shift);
}

/// What can still be completed lies in the window, when `n` octets are taken off
/// the front.
pub proof fn lemma_assembled_in_window(
    held: Seq<(usize, usize)>,
    offset: usize,
    size: usize,
    window: int,
)
    requires
        assembler::assembler_inv(held),
        held.len() > 0 ==> held.last().1 <= window,
        size > 0,
        offset + size <= window <= usize::MAX,
        assembler::assemble(held, offset, size).1 is Ok,
    ensures
        ({
            let (rest, outcome) = assembler::assemble(held, offset, size);
            &&& assembler::assembler_inv(rest)
            &&& outcome->Ok_0 <= window
            &&& rest.len() > 0 ==> rest.last().1 <= window - outcome->Ok_0
            &&& held.len() == 0 && rest.len() == 0 ==> offset == 0 && outcome->Ok_0 == size
        }),
{
    let (rest, outcome) = assembler::assemble(held, offset, size);
    let n = outcome->Ok_0;
    assembler::law_assemble(held, offset, size);
    assert forall|x: int| assembler::covers(held, x) implies x < window by {
        let i = choose|i: int| 0 <= i < held.len() && (#[trigger] held[i]).0 <= x < held[i].1;
        if i < held.len() - 1 {
            assert(held[i].1 < held[held.len() - 1].0);
            assert(held[held.len() - 1].0 < held[held.len() - 1].1);
        }
    }
    if n > 0 {
        assert(assembler::covers(held, n - 1) || offset <= n - 1 < offset + size);
    }
    if rest.len() > 0 {
        let last = rest[rest.len() - 1];
        assert(last.0 < last.1);
        assert(rest[rest.len() - 1].0 <= last.1 - 1 < rest[rest.len() - 1].1);
        assert(assembler::covers(rest, last.1 - 1));
        let x: int = last.1 - 1 + n;
        assert(assembler::covers(rest, x - n));
        assert(assembler::covers(held, x) || offset <= x < offset + size);
    }
    if held.len() == 0 && rest.len() == 0 {
        assert(!assembler::covers(held, offset as int));
        if n <= offset {
            let x: int = offset as int;
            assert(assembler::covers(rest, x - n));
        }
        assert(assembler::covers(held, 0) || offset <= 0 < offset + size);
        if n != size {
            if n < size {
                let x: int = n as int;
                assert(!(assembler::covers(held, n as int) || offset <= n < offset + size));
            } else {
                assert(assembler::covers(held, n - 1) || offset <= n - 1 < offset + size);
            }
        }
    }
}

/// Taking in payload that fits keeps the invariant.
pub proof fn lemma_payload_taken_inv(
    v: TcpView,
    now: Instant,
    s: Segment,
    payload: Seq<u8>,
    offset: int,
)
    requires
        v.inv(),
        0 <= offset <= i32::MAX,
        payload.len() < i32::MAX,
        payload.len() > 0 && assembler::assemble(
            v.assembler,
            offset as usize,
            payload.len() as usize,
        ).1 is Ok ==> offset + payload.len() <= v.rx.window(),
        v.sent_syn() ==> payload.len() == 0,
        v.has_window() && payload.len() > 0 && v.remote_last_ack is Some && offset == 0 ==> (
        v.next_ack().diff(v.remote_last_ack->0) + payload.len() <= scale_up(
            v.remote_last_win,
            v.remote_win_shift,
        ) + 1),
    ensures
        v.payload_taken(now, s, payload, offset).0.inv(),
{
    if payload.len() > 0 {
        let (held, outcome) = assembler::assemble(
            v.assembler,
            offset as usize,
            payload.len() as usize,
        );
        if let Ok(contig) = outcome {
            lemma_assembled_in_window(
                v.assembler,
                offset as usize,
                payload.len() as usize,
                v.rx.window(),
            );
            let v1 = v.payload_placed(s.seq_number, payload, offset, held, contig as int);
            lemma_scale_up(v.remote_last_win, v.remote_win_shift);
            let v2 = v1.ack_delayed(now);
            if held.len() > 0 || v.assembler.len() > 0 {
                lemma_scale_down(v1.rx.window(), v1.remote_win_shift);
                lemma_scale_up(v1.scaled_window(), v1.remote_win_shift);
                assert(v2.ack_sent().inv());
            } else {
                assert(v2.inv());
            }
        } else {
            lemma_ack_sent_inv(v);
        }
    }
}

/// An acceptable segment: what follows once it has moved the connection on.
pub proof fn lemma_accepted(v: TcpView, now: Instant, s: Segment)
    requires
        v.inv(),
        v.is_acceptable(s),
        v.segment_fits(now, s),
        v.measurement_fits(now, s),
        s.window_scale matches Some(scale) ==> scale <= MAX_WIN_SHIFT,
        s.payload.len() < i32::MAX,
        v.transition(now, s) is Continue,
    ensures
        ({
            let v1 = v.transition(now, s)->Continue_0;
            let v2 = v1.noted(v, now, s);
            let payload = v.payload_in_window(s);
            let offset = v.payload_offset(s);
            &&& v1.tx == v.tx
            &&& (v1.remote_win_scale matches Some(scale) ==> scale <= MAX_WIN_SHIFT)
            &&& !v1.is_dup_ack(s) ==> (s.ack_number matches Some(ack) ==> v1.rtte.ack_in_range(
                now,
                ack,
            ))
            &&& v2.inv()
            &&& 0 <= offset
            &&& payload.len() > 0 && assembler::assemble(
                v2.assembler,
                offset as usize,
                payload.len() as usize,
            ).1 is Ok ==> offset + payload.len() <= v2.rx.window()
            &&& v2.payload_taken(now, s, payload, offset).0.inv()
        }),
{
    let v1 = v.transition(now, s)->Continue_0;
    let v2 = v1.noted(v, now, s);
    let payload = v.payload_in_window(s);
    let offset = v.payload_offset(s);
    lemma_transition_frame(v, now, s);
    lemma_noted_frame(v1, v, now, s);
    lemma_noted_inv(v, now, s);
    lemma_scale_up(v.remote_last_win, v.remote_win_shift);
    lemma_payload_taken_inv(v2, now, s, payload, offset);
}

/// Whatever segment arrives that belongs to the connection and fits, the
/// invariant is kept.
pub proof fn lemma_processed_inv(v: TcpView, now: Instant, s: Segment)
    requires
        v.inv(),
        v.segment_fits(now, s),
        v.measurement_fits(now, s),
        s.window_scale matches Some(scale) ==> scale <= MAX_WIN_SHIFT,
        s.payload.len() < i32::MAX,
    ensures
        v.processed(now, s).0.inv(),
{
    lemma_ack_sent_inv(v);
    let challenged = TcpView {
        challenge_ack_timer: now.after(Duration { micros: 1_000_000 }),
        ..v
    };
    lemma_ack_sent_inv(challenged);
    let waiting = TcpView { timer: Timer::closing(now), ..v };
    lemma_ack_sent_inv(waiting);
    let waiting_challenged = TcpView {
        challenge_ack_timer: now.after(Duration { micros: 1_000_000 }),
        ..waiting
    };
    lemma_ack_sent_inv(waiting_challenged);
    if v.is_acceptable(s) {
        if v.transition(now, s) is Continue {
            lemma_accepted(v, now, s);
        }
    }
}

} // verus!
