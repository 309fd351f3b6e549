//! What a connection sends, and when.
use super::arrivals;
use super::dispatch;
use super::egress::{self, Plan};
use super::model::{self, TcpView};
use super::repr::TcpControl;
use super::sack::{self, Block};
use super::timer::{AckDelayTimer, Timer};
use super::{State, Tuple};
use crate::stack;
use crate::stack::NetView;
use crate::storage::slab;
use crate::storage::RingView;
use crate::time::{Duration, Instant};
use vstd::arithmetic::power2;
use vstd::prelude::*;

verus! {

/// The least of two numbers.
pub open spec fn least(a: int, b: int) -> int {
    if a <= b {
        a
    } else {
        b
    }
}

/// The length of the IP header in front of the segments of a connection.
pub open spec fn ip_header(t: Tuple) -> int {
    if t.local.addr is Ipv4 {
        20
    } else {
        40
    }
}

/// Every segment goes from the local port of the connection to the remote one. It
/// acknowledges everything received, unless nothing has been received yet, and announces
/// the room in the receive buffer, as the largest number of units that is no more than
/// it. Before the scale has been agreed on, the unit is one octet.
pub proof fn law_segment_says_where_we_are(v: TcpView, now: Instant)
    requires
        v.inv(),
        v.tuple is Some,
    ensures
        ({
            let s = v.plan(now).segment;
            let is_syn = v.state == State::SynSent || v.state == State::SynReceived;
            let unit = if is_syn {
                1
            } else {
                power2::pow2(v.remote_win_shift as nat)
            };
            &&& s.src_port == v.tuple->0.local.port
            &&& s.dst_port == v.tuple->0.remote.port
            &&& v.state == State::SynSent ==> s.ack_number is None
            &&& v.state != State::SynSent ==> s.ack_number == Some(arrivals::expected(v))
            &&& s.window_len * unit <= v.rx.window()
            &&& s.window_len == 65535 || v.rx.window() < (s.window_len + 1) * unit
            &&& s.timestamp is Some <==> v.timestamps
            &&& s.timestamp is Some ==> s.timestamp->0.tsecr == v.last_remote_tsval
        }),
{
    reveal(TcpView::next_segment);
    power2::lemma2_to64();
    arrivals::lemma_announced_window(v.rx.window(), v.remote_win_shift);
    arrivals::lemma_announced_window(v.rx.window(), 0);
}

/// The timestamp in a segment counts milliseconds from a starting point of the
/// connection, modulo `2^32`.
pub proof fn law_timestamp_counts_milliseconds(v: TcpView, now: Instant)
    requires
        v.inv(),
        v.tuple is Some,
        v.timestamps,
        0 <= now.micros,
    ensures
        v.plan(now).segment.timestamp->0.tsval as int == (now.micros as int / 1000
            + v.tsval_offset) % 0x1_0000_0000,
{
    reveal(TcpView::next_segment);
    let ms = crate::time::div_to_zero(now.micros as int, 1000) as i64;
    assert(ms == now.micros as int / 1000);
    assert(0 <= ms ==> (ms as u32) == ms % 0x1_0000_0000i64) by (bit_vector);
}

/// A SYN has its own number and no payload. It announces the largest segment that the MTU
/// leaves room for. When it opens the connection, it offers the scale of our window and
/// selective acknowledgements; when it answers, it does so only if the remote has.
pub proof fn law_syn_offers_options(v: TcpView, now: Instant)
    requires
        v.inv(),
        v.tuple is Some,
        v.state == State::SynSent || v.state == State::SynReceived,
        v.ip_mtu <= 65535,
    ensures
        ({
            let s = v.plan(now).segment;
            &&& s.control == TcpControl::Syn
            &&& s.seq_number == v.local_seq_no
            &&& s.payload.len() == 0
            &&& s.max_seg_size is Some
            &&& s.max_seg_size->0 == v.ip_mtu - ip_header(v.tuple->0) - 20
            &&& v.state == State::SynSent ==> s.window_scale == Some(v.remote_win_shift)
                && s.sack_permitted
            &&& v.state == State::SynReceived ==> s.sack_permitted == v.remote_has_sack && (
            s.window_scale == if v.remote_win_scale is Some {
                Some(v.remote_win_shift)
            } else {
                None
            })
            &&& s.sack_ranges == seq![None::<(u32, u32)>, None, None]
        }),
{
    reveal(TcpView::next_segment);
}

/// The number of octets that the options of a segment with data take: the timestamps, and
/// up to three blocks of what is held behind a hole, padded to a multiple of four.
pub open spec fn options_room(v: TcpView) -> int {
    let blocks = if v.remote_has_sack {
        least(v.assembler.len() as int, 3)
    } else {
        0
    };
    let n = (if v.timestamps {
        10int
    } else {
        0
    }) + if blocks > 0 {
        2 + 8 * blocks
    } else {
        0
    };
    n + (4 - n % 4) % 4
}

/// The number of octets of data that fit into a segment: what the MTU of the route leaves
/// beside the headers, and what the remote takes in, without the options.
pub open spec fn data_room(v: TcpView) -> int {
    let n = least(v.ip_mtu - ip_header(v.tuple->0) - 20, v.remote_mss as int) - options_room(v);
    if n < 0 {
        0
    } else {
        n
    }
}

/// The number of octets that have not been sent.
pub open spec fn unsent(v: TcpView) -> int {
    if v.tx.length < v.remote_last_seq.diff(v.local_seq_no) {
        0
    } else {
        v.tx.length - v.remote_last_seq.diff(v.local_seq_no)
    }
}

/// The number of octets that may be sent beside those in flight: as many as the remote has
/// granted, and congestion control allows.
pub open spec fn allowance(v: TcpView) -> int {
    let n = least(v.remote_win_len as int, v.congestion_controller.spec_window() as int)
        - v.remote_last_seq.diff(v.local_seq_no);
    if n < 0 {
        0
    } else {
        n
    }
}

/// A state in which data, or our FIN, may be sent.
pub open spec fn is_sending(v: TcpView) -> bool {
    v.state == State::Established || v.state == State::CloseWait || is_finishing(v)
}

/// A state in which our FIN has been sent or will be.
pub open spec fn is_finishing(v: TcpView) -> bool {
    v.state == State::FinWait1 || v.state == State::LastAck || v.state == State::Closing
}

proof fn lemma_data_room(v: TcpView)
    requires
        v.tuple is Some,
    ensures
        v.effective_mss() == data_room(v),
        v.sends_data() == is_sending(v),
        v.sent_fin() == is_finishing(v),
{
}

/// New data is sent in order, right behind what has been sent, and as much of it as there
/// is, as fits into a segment and as is allowed. The last octet in the buffer is marked
/// with PSH, or with FIN once the transmit half is closed.
pub proof fn law_as_much_is_sent_as_allowed(v: TcpView, now: Instant)
    requires
        v.inv(),
        v.tuple is Some,
        is_sending(v),
        !v.pending_fast_retransmit,
        !v.plan(now).is_keep_alive,
        !v.plan(now).is_zero_window_probe,
    ensures
        ({
            let s = v.plan(now).segment;
            let sent = v.remote_last_seq.diff(v.local_seq_no);
            let n = least(least(unsent(v), data_room(v)), allowance(v));
            &&& s.payload.len() == n
            &&& n > 0 ==> s.payload == v.tx.data().subrange(sent, sent + n)
            &&& s.seq_number == v.remote_last_seq
            &&& s.control == TcpControl::Fin <==> is_finishing(v) && sent + n == v.tx.length
            &&& s.control == TcpControl::Psh <==> !is_finishing(v) && n > 0 && sent + n
                == v.tx.length
            &&& s.control == TcpControl::Fin || s.control == TcpControl::Psh || s.control
                == TcpControl::Plain
        }),
{
    reveal(TcpView::next_segment);
    lemma_data_room(v);
    assert(v.tx.data().len() == v.tx.length);
    let sent = v.remote_last_seq.diff(v.local_seq_no);
    let n = least(least(unsent(v), data_room(v)), allowance(v));
    if n > 0 {
        assert(v.send_payload(now) =~= v.tx.data().subrange(sent, sent + n));
    }
}

/// When the oldest segment is to be sent again at once, it is, from its first octet on, and
/// as much as fits, whatever the windows allow. After that new data follows.
pub proof fn law_oldest_data_is_repeated(v: TcpView, now: Instant)
    requires
        v.inv(),
        v.tuple is Some,
        is_sending(v),
        v.pending_fast_retransmit,
        v.tx.length > 0,
        data_room(v) > 0,
    ensures
        ({
            let p = v.plan(now);
            let n = least(v.tx.length, data_room(v));
            &&& p.segment.seq_number == v.local_seq_no
            &&& p.segment.payload == v.tx.data().take(n)
            &&& !v.sent(now, p).pending_fast_retransmit
            &&& v.sent(now, p).tx == v.tx
            &&& v.sent(now, p).local_seq_no == v.local_seq_no
        }),
{
    reveal(TcpView::next_segment);
    reveal(TcpView::sent);
    lemma_data_room(v);
    assert(v.tx.data().len() == v.tx.length);
    let n = least(v.tx.length, data_room(v));
    assert(v.send_payload(now) =~= v.tx.data().take(n));
}

/// A connection that has been given up sends a reset, at the place that the remote expects.
pub proof fn law_reset_is_sent_in_place(v: TcpView, now: Instant)
    requires
        v.inv(),
        v.tuple is Some,
        v.state == State::Closed,
        !v.plan(now).is_keep_alive,
    ensures
        v.plan(now).segment.control == TcpControl::Rst,
        v.plan(now).segment.seq_number == v.remote_last_seq,
        v.plan(now).segment.payload.len() == 0,
{
    reveal(TcpView::next_segment);
}

/// A keep-alive is due on an idle connection, and is a segment that repeats the octet
/// before what has been sent, with a zero in its place, so that the remote answers. It
/// does not count as sent. The next one is due one interval later.
pub proof fn law_keep_alive_repeats_an_octet(v: TcpView, at: Instant, now: Instant, d: Duration)
    requires
        v.inv(),
        v.tuple is Some,
        v.state == State::Established,
        v.timer == (Timer::Idle { keep_alive_at: Some(at) }),
        at.micros <= now.micros,
        v.tx.length == 0,
        v.keep_alive == Some(d),
        now.micros + d.micros <= i64::MAX,
    ensures
        ({
            let p = v.plan(now);
            let w = v.sent(now, p);
            &&& v.wants_to_send(now)
            &&& p.is_keep_alive
            &&& p.segment.seq_number == v.remote_last_seq.plus(-1)
            &&& p.segment.payload == seq![0u8]
            &&& p.segment.ack_number == Some(arrivals::expected(v))
            &&& w.remote_last_seq == v.remote_last_seq
            &&& w.timer == (Timer::Idle {
                keep_alive_at: Some(Instant { micros: (now.micros + d.micros) as i64 }),
            })
        }),
{
    reveal(TcpView::next_segment);
    reveal(TcpView::sent);
    reveal(TcpView::wants_to_send);
    assert(v.tx.data().len() == 0);
    assert(v.send_payload(now).len() == 0);
}

/// Once a segment has been sent, everything up to its end has been. What it acknowledged
/// and the window it announced are remembered, and no acknowledgement is held back any
/// more. If it occupies sequence numbers and nothing is waited for yet, its
/// acknowledgement is awaited for as long as the round trips so far suggest.
pub proof fn law_sent_segment_is_remembered(v: TcpView, made_at: Instant, now: Instant)
    requires
        v.inv(),
        v.tuple is Some,
        !v.plan(made_at).is_keep_alive,
        !v.plan(made_at).is_zero_window_probe,
        now.micros + v.rtte.rto * 1000 <= i64::MAX,
    ensures
        ({
            let s = v.plan(made_at).segment;
            let w = v.sent(now, v.plan(made_at));
            let n = s.payload.len() + if s.control == TcpControl::Syn || s.control
                == TcpControl::Fin {
                1int
            } else {
                0
            };
            let end = s.seq_number.plus(n);
            &&& end.diff(v.remote_last_seq) > 0 ==> w.remote_last_seq == end
            &&& end.diff(v.remote_last_seq) <= 0 ==> w.remote_last_seq == v.remote_last_seq
            &&& w.remote_last_ack == s.ack_number
            &&& w.remote_last_win == s.window_len
            &&& w.ack_delay_timer == AckDelayTimer::Idle
            &&& w.tx == v.tx
            &&& w.rx == v.rx
            &&& w.state == v.state
            &&& n > 0 && v.timer is Idle ==> w.timer == (Timer::Retransmit {
                expires_at: Instant { micros: (now.micros + v.rtte.rto * 1000) as i64 },
            })
            &&& n > 0 && v.timer is ZeroWindowProbe ==> w.timer == (Timer::Retransmit {
                expires_at: Instant { micros: (now.micros + v.rtte.rto * 1000) as i64 },
            })
            &&& n > 0 ==> w.rtte == v.rtte.sent(now, end)
            &&& n == 0 ==> w.rtte == v.rtte
            &&& v.timer is Retransmit ==> w.timer == v.timer
            &&& v.timer is Close ==> w.timer == v.timer
            &&& v.state == State::Closed ==> w.tuple is None
            &&& v.state != State::Closed ==> w.tuple == v.tuple
        }),
{
    reveal(TcpView::next_segment);
    reveal(TcpView::sent);
    let p = v.plan(made_at);
    assert(v.segment_away().remote_last_seq == v.remote_last_seq);
    assert(v.segment_away().timer == v.timer);
    assert(v.segment_away().rtte == v.rtte);
    assert(v.tx.data().len() == v.tx.length);
}

/// The probe of a closed window is sent again after twice the time, at most after a
/// minute.
pub proof fn law_probes_become_rarer(v: TcpView, made_at: Instant, now: Instant, delay: Duration)
    requires
        v.inv(),
        v.tuple is Some,
        v.plan(made_at).is_zero_window_probe,
        v.timer matches Timer::ZeroWindowProbe { delay: d, .. } && d == delay,
        delay.micros <= 60_000_000,
        now.micros + 60_000_000 <= i64::MAX,
    ensures
        ({
            let w = v.sent(now, v.plan(made_at));
            let next = least(2 * delay.micros, 60_000_000);
            &&& w.timer matches Timer::ZeroWindowProbe { expires_at, delay: d } && d.micros == next
                && expires_at.micros == now.micros + next
            &&& w.remote_last_seq == v.remote_last_seq
            &&& w.tx == v.tx
        }),
{
    reveal(TcpView::sent);
}

/// The number of units in which a window of `w` octets is announced.
pub open spec fn units(w: int, shift: u8) -> int {
    least(w / (power2::pow2(shift as nat) as int), 65535)
}

proof fn lemma_units(w: int, shift: u8)
    requires
        0 <= w <= 0x7fff_8000,
        shift <= 15,
    ensures
        model::scale_down(w, shift) == units(w, shift),
{
    power2::lemma_pow2_pos(shift as nat);
    vstd::bits::lemma_usize_shr_is_div(w as usize, shift as usize);
    let u = w as usize;
    assert(u >> shift == u >> (shift as usize)) by (bit_vector);
}

/// The reasons for which a connection sends a segment, and there are no others:
/// - the oldest segment is to be sent again;
/// - the SYN has not been sent;
/// - there is data that may be sent, unless by Nagle's algorithm it is to wait, because it
///   does not fill a segment, something is in flight, and it is not the last;
/// - everything but the FIN has been sent;
/// - there is something to acknowledge, and it has not to be held back any longer;
/// - the window has at least doubled since it was announced;
/// - the connection has been given up;
/// - a keep-alive or the probe of a closed window is due.
pub proof fn law_reasons_to_send(v: TcpView, now: Instant)
    requires
        v.inv(),
        v.tuple is Some,
    ensures
        ({
            let sent = v.remote_last_seq.diff(v.local_seq_no);
            let ready = least(unsent(v), allowance(v));
            let awaits = v.state == State::SynSent || v.state == State::SynReceived || v.state
                == State::Established || v.state == State::FinWait1 || v.state == State::FinWait2;
            let is_syn = v.state == State::SynSent || v.state == State::SynReceived;
            let opened = match v.remote_last_ack {
                Some(ack) => {
                    let left = v.remote_last_win * power2::pow2(v.remote_win_shift as nat)
                        - arrivals::expected(v).diff(ack);
                    let before = units(
                        if left < 0 {
                            0
                        } else {
                            left
                        },
                        v.remote_win_shift,
                    );
                    let after = units(v.rx.window(), v.remote_win_shift);
                    after > 0 && after >= 2 * before
                },
                None => false,
            };
            let to_acknowledge = match v.remote_last_ack {
                Some(ack) => ack.diff(arrivals::expected(v)) < 0,
                None => false,
            };
            let held_back = match v.ack_delay_timer {
                AckDelayTimer::Waiting(at) => now.micros < at.micros,
                _ => false,
            };
            let due = match v.timer {
                Timer::Idle { keep_alive_at: Some(at) } => at.micros <= now.micros,
                Timer::ZeroWindowProbe { expires_at, .. } => expires_at.micros <= now.micros,
                _ => false,
            };
            v.wants_to_send(now) <==> {
                ||| v.pending_fast_retransmit && v.tx.length > 0
                ||| is_syn && sent == 0
                ||| ready > 0 && !(v.nagle && sent > 0 && ready < data_room(v) && !is_finishing(v))
                ||| is_finishing(v) && sent == v.tx.length
                ||| to_acknowledge && !held_back
                ||| awaits && opened
                ||| v.state == State::Closed
                ||| due
            }
        }),
{
    reveal(TcpView::wants_to_send);
    lemma_data_room(v);
    lemma_units(v.rx.window(), v.remote_win_shift);
    arrivals::lemma_scaled_is_product(v.remote_last_win, v.remote_win_shift);
    model::lemma_scale_up(v.remote_last_win, v.remote_win_shift);
    if let Some(ack) = v.remote_last_ack {
        let left = v.remote_last_win * power2::pow2(v.remote_win_shift as nat)
            - arrivals::expected(v).diff(ack);
        if v.has_window() {
            lemma_units(
                if left < 0 {
                    0
                } else {
                    left
                },
                v.remote_win_shift,
            );
        }
    }
}

/// What the passing of time does to a connection. If nothing has arrived for the time
/// configured, it is given up. If the retransmission timer has run out, everything that
/// has not been acknowledged is to be sent again, no round trip is measured, and the next
/// timeout is twice as long, up to a minute. If the oldest segment is to be sent again at
/// once, that is noted, and the rest stays sent. Otherwise nothing changes.
pub proof fn law_time_passes(v: TcpView, last: Instant, now: Instant)
    requires
        v.inv(),
        v.remote_last_ts == Some(last),
        v.timeout matches Some(d) ==> last.micros + d.micros <= i64::MAX,
        v.keep_alive matches Some(d) ==> now.micros + d.micros <= i64::MAX,
    ensures
        ({
            let w = v.ticked(now);
            let late = match v.timeout {
                Some(d) => last.micros + d.micros <= now.micros,
                None => false,
            };
            let idle = Timer::Idle {
                keep_alive_at: match v.keep_alive {
                    Some(d) => Some(Instant { micros: (now.micros + d.micros) as i64 }),
                    None => None,
                },
            };
            let run_out = match v.timer {
                Timer::Retransmit { expires_at } => expires_at.micros <= now.micros,
                _ => false,
            };
            &&& w.tx == v.tx
            &&& w.rx == v.rx
            &&& w.local_seq_no == v.local_seq_no
            &&& w.tuple == v.tuple
            &&& late ==> w.state == State::Closed && w.remote_last_seq == v.remote_last_seq
            &&& !late ==> w.state == v.state
            &&& !late && run_out ==> {
                &&& w.remote_last_seq == v.local_seq_no
                &&& w.rtte.timestamp is None
                &&& w.rtte.rto == least(2 * v.rtte.rto, 60_000)
                &&& w.timer == idle
                &&& w.pending_fast_retransmit == v.pending_fast_retransmit
                &&& w.congestion_controller == v.congestion_controller.timed_out()
            }
            &&& !late && v.timer == Timer::FastRetransmit ==> {
                &&& w.remote_last_seq == v.remote_last_seq
                &&& w.rtte.timestamp is None
                &&& w.rtte.rto == v.rtte.rto
                &&& w.timer == idle
                &&& w.pending_fast_retransmit
                &&& w.congestion_controller == v.congestion_controller.lost()
            }
            &&& !late && !run_out && v.timer != Timer::FastRetransmit ==> w == v
        }),
{
}

/// A connection from which nothing has arrived since it was started, or since it had
/// nothing to send, starts to count its timeout at its next turn.
pub proof fn law_silence_is_counted_from_the_turn(v: TcpView, now: Instant)
    requires
        v.remote_last_ts is None,
        v.timeout matches Some(d) ==> d.micros > 0 && now.micros < i64::MAX,
    ensures
        v.ticked(now).remote_last_ts == Some(now),
        v.ticked(now).state == v.state,
{
}

/// A turn sends what the connection, after time has passed and with the MTU of its route,
/// has a reason to send. With no reason it sends nothing, and a connection whose wait
/// after its end is over is given up.
pub proof fn law_turn_sends_what_there_is(v: TcpView, now: Instant, mtu: Option<usize>)
    requires
        v.tuple is Some,
    ensures
        ({
            let w = TcpView {
                ip_mtu: match mtu {
                    Some(n) => n,
                    None => v.ip_mtu,
                },
                ..v.ticked(now)
            };
            let over = match w.timer {
                Timer::Close { expires_at } => expires_at.micros <= now.micros,
                _ => false,
            };
            &&& w.wants_to_send(now) ==> v.prepared(now, mtu) == (w, Some(w.plan(now)))
            &&& !w.wants_to_send(now) && !over ==> v.prepared(now, mtu) == (w, None::<Plan>)
            &&& !w.wants_to_send(now) && over ==> v.prepared(now, mtu) == (w.reset(), None::<Plan>)
        }),
{
    reveal(TcpView::prepared);
    let w = v.ticked(now).with_mtu(mtu);
    assert(w == TcpView {
        ip_mtu: match mtu {
            Some(n) => n,
            None => v.ip_mtu,
        },
        ..v.ticked(now)
    });
}

/// The scale that is offered is the least with which the whole receive buffer can be
/// announced in sixteen bits.
pub proof fn law_scale_fits_the_buffer(cap: int)
    requires
        0 <= cap <= 0x4000_0000,
    ensures
        ({
            let k = egress::own_shift(cap) as nat;
            &&& cap < 0x1_0000 * power2::pow2(k)
            &&& k > 0 ==> cap >= 0x1_0000 * power2::pow2((k - 1) as nat)
        }),
{
    lemma_shift(cap as nat);
    egress::lemma_shift_for(cap);
}

proof fn lemma_shift(cap: nat)
    ensures
        cap < 0x1_0000 * power2::pow2(model::shift_for(cap)),
        model::shift_for(cap) > 0 ==> cap >= 0x1_0000 * power2::pow2(
            (model::shift_for(cap) - 1) as nat,
        ),
    decreases cap,
{
    power2::lemma2_to64();
    if cap >= 0x1_0000 {
        let k = model::shift_for(cap / 2);
        lemma_shift(cap / 2);
        power2::lemma_pow2_unfold(k + 1);
        if k > 0 {
            power2::lemma_pow2_unfold(k);
        }
    }
}

/// A socket that has not been used is closed and has no connection. It takes segments of
/// 536 octets from a remote that says nothing else, and assumes an MTU of 1500 octets until
/// there is a route. It holds acknowledgements back for ten milliseconds, uses Nagle's
/// algorithm, and has neither a timeout nor keep-alives.
pub proof fn law_fresh_socket_has_defaults(rx: RingView<u8>, tx: RingView<u8>, now: Instant)
    ensures
        ({
            let v = TcpView::initial(rx, tx);
            &&& v.state == State::Closed
            &&& v.tuple is None
            &&& v.remote_mss == 536
            &&& v.ip_mtu == 1500
            &&& v.ack_delay == Some(Duration { micros: 10_000 })
            &&& v.nagle
            &&& v.timeout is None
            &&& v.keep_alive is None
            &&& v.hop_limit is None
            &&& v.timer == (Timer::Idle { keep_alive_at: None })
            &&& v.rtte.rto == 1000
            &&& !v.rtte.have_measurement
            &&& v.remote_win_len == 0
            &&& v.remote_win_scale is None
            &&& !v.remote_has_sack
            &&& !v.timestamps
            &&& !v.rx_fin_received
            &&& v.rx == rx
            &&& v.tx == tx
            &&& v.congestion_controller.spec_window() == usize::MAX
        }),
{
}

/// A segment of a synchronized connection reports what is held behind a hole, if the
/// remote understands it, and what has been reported is remembered once it has been sent.
/// No other segment does.
pub proof fn law_held_parts_are_reported(v: TcpView, made_at: Instant, now: Instant)
    requires
        v.inv(),
        v.tuple is Some,
    ensures
        ({
            let s = v.plan(made_at).segment;
            let w = v.sent(now, v.plan(made_at));
            let nothing = seq![None::<(u32, u32)>, None, None];
            let reports = v.remote_has_sack && v.state != State::Closed && v.state
                != State::SynSent && v.state != State::SynReceived;
            let blocks = sack::sack_blocks(
                v.assembler,
                arrivals::expected(v),
                v.local_rx_last_seq,
                v.local_sack_history,
            );
            &&& !reports ==> s.sack_ranges == nothing && w.local_sack_history
                == v.local_sack_history
            &&& reports && v.assembler.len() == 0 ==> s.sack_ranges == nothing
                && w.local_sack_history == seq![None::<Block>, None, None]
            &&& reports && v.assembler.len() > 0 ==> s.sack_ranges == sack::on_wire(blocks)
            &&& reports && v.assembler.len() > 0 ==> forall|i: int|
                0 <= i < 3 ==> #[trigger] w.local_sack_history[i] == if i < blocks.len() {
                    Some(blocks[i])
                } else {
                    None
                }
        }),
{
    reveal(TcpView::next_segment);
    reveal(TcpView::sent);
    assert(sack::on_wire(Seq::empty()) =~= seq![None::<(u32, u32)>, None, None]);
    assert(sack::as_history(Seq::empty()) =~= seq![None::<Block>, None, None]);
}

/// The segments of a connection take the route to its remote, and none at all if its local
/// address is not one of the stack.
pub proof fn law_segments_leave_from_our_address(v: TcpView, net: NetView, t: Tuple)
    requires
        v.tuple == Some(t),
    ensures
        ({
            let ours = exists|i: int, k: int|
                0 <= i < net.ifaces.len() && net.ifaces[i] is Some && 0 <= k
                    < net.ifaces[i]->0.ip_addrs@.len() && (
                #[trigger] net.ifaces[i]->0.ip_addrs@[k]).address == t.local.addr;
            &&& ours ==> dispatch::socket_route(v, net) == net.route(t.remote.addr)
            &&& !ours ==> dispatch::socket_route(v, net) is None
        }),
{
    let addr = t.local.addr;
    if stack::owns(net.ifaces, addr) {
        let i = choose|i: int|
            #[trigger] slab::occupied(net.ifaces, i) && crate::iface::has_addr(
                net.ifaces[i]->0.ip_addrs@,
                addr,
            );
        let a = net.ifaces[i]->0.ip_addrs@;
        let k = choose|k: int| 0 <= k < a.len() && (#[trigger] a[k]).address == addr;
        assert(net.ifaces[i]->0.ip_addrs@[k].address == addr);
    }
    if exists|i: int, k: int|
        0 <= i < net.ifaces.len() && net.ifaces[i] is Some && 0 <= k
            < net.ifaces[i]->0.ip_addrs@.len() && (#[trigger] net.ifaces[i]->0.ip_addrs@[k]).address
            == addr {
        let (i, k) = choose|i: int, k: int|
            0 <= i < net.ifaces.len() && net.ifaces[i] is Some && 0 <= k
                < net.ifaces[i]->0.ip_addrs@.len() && (
            #[trigger] net.ifaces[i]->0.ip_addrs@[k]).address == addr;
        assert(slab::occupied(net.ifaces, i));
        assert(crate::iface::has_addr(net.ifaces[i]->0.ip_addrs@, addr));
    }
}

} // verus!
