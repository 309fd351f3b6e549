//! What the segments that arrive mean for a connection.
use super::model::{self, Step, TcpView};
use super::repr::{Segment, TcpControl};
use super::timer::{AckDelayTimer, Timer};
use super::State;
use crate::time::Instant;
use crate::wire::TcpSeqNumber;
use vstd::arithmetic::power2;
use vstd::prelude::*;

verus! {

/// A window in sixteen bits, scaled.
pub proof fn lemma_scaled_is_product(w: u16, scale: u8)
    requires
        scale <= 15,
    ensures
        (w as usize) << scale == w * power2::pow2(scale as nat),
        model::scale_up(w, scale) == w * power2::pow2(scale as nat),
{
    power2::lemma2_to64();
    let n = power2::pow2(scale as nat);
    assert(power2::pow2(15) == 32768);
    if scale < 15 {
        power2::lemma_pow2_strictly_increases(scale as nat, 15);
    }
    assert(w * n <= 65535 * 32768) by (nonlinear_arith)
        requires
            w <= 65535,
            0 <= n <= 32768,
    ;
    vstd::bits::lemma_usize_shl_is_mul(w as usize, scale as usize);
    assert((w as usize) << scale == (w as usize) << (scale as usize)) by (bit_vector);
}

/// The window of the remote after the payload of a segment has been taken in is that
/// which the segment granted.
proof fn lemma_payload_keeps_window(
    v: TcpView,
    now: Instant,
    s: Segment,
    payload: Seq<u8>,
    offset: int,
)
    ensures
        v.payload_taken(now, s, payload, offset).0.remote_win_len == v.remote_win_len,
        v.payload_taken(now, s, payload, offset).0.remote_win_scale == v.remote_win_scale,
{
}

/// After a segment that is accepted, other than a SYN, the window of the remote is the
/// one in its header times two to the power of the scale that the remote announced, or
/// the one in its header itself if it announced none. A SYN is never scaled, and
/// announces the scale for what follows.
pub proof fn law_peer_window_is_scaled(v: TcpView, now: Instant, s: Segment)
    requires
        v.inv(),
        v.is_acceptable(s),
        v.transition(now, s) is Continue,
    ensures
        ({
            let w = v.processed(now, s).0;
            &&& s.control != TcpControl::Syn ==> match v.remote_win_scale {
                Some(k) => w.remote_win_len == s.window_len * power2::pow2(k as nat),
                None => w.remote_win_len == s.window_len,
            }
            &&& s.control != TcpControl::Syn ==> w.remote_win_scale == v.remote_win_scale
            &&& s.control == TcpControl::Syn ==> w.remote_win_len == s.window_len
            &&& s.control == TcpControl::Syn ==> w.remote_win_scale == s.window_scale
        }),
{
    let v1 = v.transition(now, s)->Continue_0;
    let v2 = v1.noted(v, now, s);
    lemma_payload_keeps_window(v2, now, s, v.payload_in_window(s), v.payload_offset(s));
    power2::lemma2_to64();
    assert(v2.remote_win_scale == v1.remote_win_scale);
    assert(v2.remote_win_len == v1.granted_window(s));
    lemma_scaled_is_product(s.window_len, 0);
    if let Some(k) = v1.remote_win_scale {
        if k <= 14 {
            lemma_scaled_is_product(s.window_len, k);
        }
    }
}

/// The next sequence number expected from the remote: what follows everything received.
pub open spec fn expected(v: TcpView) -> TcpSeqNumber {
    v.remote_seq_no.plus(v.rx.length)
}

/// The number of octets, behind those received, that the remote has been told it may send.
pub open spec fn window_left(v: TcpView) -> int {
    match v.remote_last_ack {
        Some(ack) => ack.plus(
            v.remote_last_win * power2::pow2(v.remote_win_shift as nat),
        ).diff(expected(v)),
        None => 0,
    }
}

pub proof fn lemma_window_facts(v: TcpView)
    requires
        v.inv(),
    ensures
        v.next_ack() == expected(v),
        v.window_end().diff(v.next_ack()) == window_left(v),
        window_left(v) == 0 <==> v.window_end() == v.next_ack(),
        0 <= v.remote_last_win * power2::pow2(v.remote_win_shift as nat) <= 0x7fff_8000,
{
    lemma_scaled_is_product(v.remote_last_win, v.remote_win_shift);
    model::lemma_scale_up(v.remote_last_win, v.remote_win_shift);
}

/// Of a synchronized connection, a segment without payload is in the window if it is at
/// the place that is expected next, or behind it but before the end of the window that
/// was announced. One with payload is, if the window is open and its first octet lies in
/// it, or its last one. A keep-alive, which repeats the octet before, is not.
pub proof fn law_window_decides(v: TcpView, s: Segment)
    requires
        v.inv(),
        window_left(v) >= 0,
        s.payload.len() <= 65535,
        -0x4000_0000 < s.seq_number.diff(expected(v)) < 0x4000_0000,
    ensures
        ({
            let first = s.seq_number.diff(expected(v));
            let last = first + s.payload.len() - 1;
            let left = window_left(v);
            &&& s.payload.len() == 0 ==> (v.in_window(s) <==> first == 0 || 0 <= first < left)
            &&& s.payload.len() > 0 ==> (v.in_window(s) <==> left > 0 && (0 <= first < left || 0
                <= last < left))
        }),
{
    lemma_window_facts(v);
}

/// What lies outside the window changes neither what has been received or sent, nor the
/// window of the remote, nor the state of the connection. Payload is answered with what
/// is expected next.
pub proof fn law_outside_changes_nothing(v: TcpView, now: Instant, s: Segment)
    requires
        v.inv(),
        v.state != State::SynSent,
        v.state != State::SynReceived,
        s.control != TcpControl::Rst,
        s.ack_number matches Some(ack) && 0 <= ack.diff(v.local_seq_no) <= v.tx.length,
        !v.in_window(s),
    ensures
        ({
            let (w, reply) = v.processed(now, s);
            &&& w.state == v.state
            &&& w.rx == v.rx
            &&& w.tx == v.tx
            &&& w.local_seq_no == v.local_seq_no
            &&& w.remote_seq_no == v.remote_seq_no
            &&& w.remote_last_seq == v.remote_last_seq
            &&& w.remote_win_len == v.remote_win_len
            &&& w.tuple == v.tuple
            &&& s.payload.len() > 0 && s.control != TcpControl::Syn ==> (reply matches Some(r)
                && r.ack_number == Some(expected(v)))
            &&& v.state != State::TimeWait ==> w.timer == v.timer
            &&& v.state == State::TimeWait && now.micros + 10_000_000 <= i64::MAX ==> w.timer
                == (Timer::Close { expires_at: Instant { micros: (now.micros + 10_000_000) as i64 } })
        }),
{
    assert(v.ack_verdict(s) is Accept);
    assert(!v.is_acceptable(s));
}

/// On a synchronized connection, a segment must acknowledge something. One that only
/// acknowledges what was acknowledged before is dropped. One that acknowledges what has
/// never been sent is answered with what is expected next, once a second, and changes
/// nothing else.
pub proof fn law_acknowledgement_is_checked(v: TcpView, now: Instant, s: Segment)
    requires
        v.inv(),
        v.state != State::SynSent,
        v.state != State::SynReceived,
        s.control != TcpControl::Rst,
    ensures
        ({
            let (w, reply) = v.processed(now, s);
            let fin = v.state == State::FinWait1 || v.state == State::LastAck || v.state
                == State::Closing;
            let most = v.tx.length + if fin {
                1int
            } else {
                0
            };
            &&& s.ack_number is None ==> w == v && reply is None
            &&& s.ack_number is Some && s.ack_number->0.diff(v.local_seq_no) < 0 ==> w == v
                && reply is None
            &&& s.ack_number is Some && s.ack_number->0.diff(v.local_seq_no) > most ==> {
                &&& now.micros < v.challenge_ack_timer.micros ==> w == v && reply is None
                &&& now.micros >= v.challenge_ack_timer.micros ==> {
                    &&& reply matches Some(r) && r.ack_number == Some(expected(v))
                        && r.control == TcpControl::Plain && r.payload.len() == 0
                    &&& now.micros + 1_000_000 <= i64::MAX ==> w.challenge_ack_timer.micros
                        == now.micros + 1_000_000
                }
                &&& w.state == v.state
                &&& w.rx == v.rx
                &&& w.tx == v.tx
                &&& w.local_seq_no == v.local_seq_no
                &&& w.remote_seq_no == v.remote_seq_no
                &&& w.remote_win_len == v.remote_win_len
                &&& w.timer == v.timer
            }
        }),
{
}

/// What follows of a segment that is expected next and acknowledges what was sent.
proof fn lemma_next_segment(v: TcpView, now: Instant, s: Segment, ack: TcpSeqNumber)
    requires
        v.inv(),
        v.state != State::SynSent,
        v.state != State::SynReceived,
        v.state != State::Closed,
        window_left(v) >= 0,
        s.seq_number == expected(v),
        s.payload.len() == 0,
        s.ack_number == Some(ack),
        0 <= ack.diff(v.local_seq_no) <= v.tx.length + (if v.sent_fin() {
            1int
        } else {
            0
        }),
        s.control != TcpControl::Rst,
        s.control != TcpControl::Syn,
    ensures
        v.is_acceptable(s),
        v.processed(now, s) == v.accepted(now, s),
        v.payload_in_window(s).len() == 0,
        v.effective_control(s) == if s.control == TcpControl::Psh {
            TcpControl::Plain
        } else {
            s.control
        },
        v.acked_by(s).fin == (v.sent_fin() && ack.diff(v.local_seq_no) == v.tx.length + 1),
        v.acked_by(s).len == if v.acked_by(s).fin {
            v.tx.length
        } else {
            ack.diff(v.local_seq_no)
        },
        v.acked_by(s).all == (v.remote_last_seq.diff(ack) <= 0),
        v.transition(now, s) matches Step::Continue(v1) ==> v.processed(now, s) == (v1.noted(
            v,
            now,
            s,
        ), None::<Segment>),
{
    lemma_window_facts(v);
    assert(v.ack_verdict(s) is Accept);
    assert(v.in_window(s));
    assert(v.overlap_start(s) == s.seq_number);
    assert(v.overlap_end(s) == s.seq_number || v.overlap_end(s) == v.window_end());
    assert(s.seq_number.plus(0) == s.seq_number);
    assert(v.window_end().diff(s.seq_number) >= 0);
    assert(v.overlap_end(s) == s.seq_number);
}

/// A FIN that is expected next ends what the remote sends: it counts as received, and
/// the connection moves on as RFC 9293 has it. In TIME-WAIT the connection is kept for
/// ten seconds.
pub proof fn law_fin_moves_the_connection_on(v: TcpView, now: Instant, s: Segment, ack: TcpSeqNumber)
    requires
        v.inv(),
        v.state == State::Established || v.state == State::FinWait1 || v.state == State::FinWait2,
        window_left(v) >= 0,
        s.seq_number == expected(v),
        s.payload.len() == 0,
        s.control == TcpControl::Fin,
        s.ack_number == Some(ack),
        0 <= ack.diff(v.local_seq_no) <= v.tx.length + (if v.state == State::FinWait1 {
            1int
        } else {
            0
        }),
        now.micros + 10_000_000 <= i64::MAX,
    ensures
        ({
            let w = v.processed(now, s).0;
            let acked_fin = v.state == State::FinWait1 && ack.diff(v.local_seq_no) == v.tx.length
                + 1;
            &&& w.rx_fin_received
            &&& expected(w) == expected(v).plus(1)
            &&& w.rx == v.rx
            &&& v.state == State::Established ==> w.state == State::CloseWait
            &&& v.state == State::FinWait1 && !acked_fin ==> w.state == State::Closing
            &&& v.state == State::FinWait1 && acked_fin ==> w.state == State::TimeWait
            &&& v.state == State::FinWait2 ==> w.state == State::TimeWait
            &&& w.state == State::TimeWait && (v.state == State::FinWait1 || v.tx.length == 0) ==> w.timer
                == (Timer::Close { expires_at: Instant { micros: (now.micros + 10_000_000) as i64 } })
        }),
{
    lemma_next_segment(v, now, s, ack);
}

/// A plain acknowledgement that is expected next moves a connection on only where it
/// acknowledges our FIN: from FIN-WAIT-1 to FIN-WAIT-2, from CLOSING to TIME-WAIT, and from
/// LAST-ACK to the end of the connection.
pub proof fn law_acknowledged_fin_moves_on(v: TcpView, now: Instant, s: Segment, ack: TcpSeqNumber)
    requires
        v.inv(),
        v.state != State::SynSent,
        v.state != State::SynReceived,
        v.state != State::Closed,
        window_left(v) >= 0,
        s.seq_number == expected(v),
        s.payload.len() == 0,
        s.control == TcpControl::Plain || s.control == TcpControl::Psh,
        s.ack_number == Some(ack),
        0 <= ack.diff(v.local_seq_no) <= v.tx.length + (if v.state == State::FinWait1 || v.state
            == State::Closing || v.state == State::LastAck {
            1int
        } else {
            0
        }),
    ensures
        ({
            let w = v.processed(now, s).0;
            let acked_fin = ack.diff(v.local_seq_no) == v.tx.length + 1;
            &&& !acked_fin ==> w.state == v.state && w.tuple == v.tuple
            &&& acked_fin && v.state == State::FinWait1 ==> w.state == State::FinWait2
            &&& acked_fin && v.state == State::Closing ==> w.state == State::TimeWait
            &&& acked_fin && v.state == State::LastAck ==> w.state == State::Closed
                && w.tuple is None
            &&& acked_fin ==> w.tx.length == 0
            &&& w.rx_fin_received == v.rx_fin_received
            &&& expected(w) == expected(v)
        }),
{
    lemma_next_segment(v, now, s, ack);
}

/// A FIN that something before is missing from is not counted, and neither is one that
/// does not fit into the window.
pub proof fn law_early_fin_waits(v: TcpView, now: Instant, s: Segment)
    requires
        v.inv(),
        v.awaits_data(),
        s.payload.len() <= 65535,
        s.control == TcpControl::Fin,
        s.seq_number.diff(expected(v)) > 0,
        s.seq_number.diff(expected(v)) < i32::MAX,
    ensures
        !v.processed(now, s).0.rx_fin_received || v.rx_fin_received,
        v.processed(now, s).0.state == v.state || v.state == State::SynReceived || v.state
            == State::FinWait1,
        v.processed(now, s).0.state != State::CloseWait,
        v.processed(now, s).0.state != State::Closing,
        v.processed(now, s).0.state != State::TimeWait,
{
    lemma_window_facts(v);
    assert(v.effective_control(s) == TcpControl::Plain);
    assert(v.challenge(now, s).0.state == v.state);
    assert(v.out_of_window(now, s).0.state == v.state);
    if let Step::Continue(v1) = v.transition(now, s) {
        let v2 = v1.noted(v, now, s);
        let w = v2.payload_taken(now, s, v.payload_in_window(s), v.payload_offset(s)).0;
        assert(v2.state == v1.state);
        assert(w.state == v1.state);
        assert(w.rx_fin_received == v1.rx_fin_received);
    }
}

/// A window of `w` octets is announced, with a scale, as the largest number that stands for
/// no more than it.
pub proof fn lemma_announced_window(w: int, shift: u8)
    requires
        shift <= 15,
        0 <= w <= 0x4000_0000,
    ensures
        ({
            let n = model::scale_down(w, shift);
            &&& n * power2::pow2(shift as nat) <= w
            &&& n == 65535 || w < (n + 1) * power2::pow2(shift as nat)
        }),
{
    let d = power2::pow2(shift as nat) as int;
    power2::lemma_pow2_pos(shift as nat);
    vstd::bits::lemma_usize_shr_is_div(w as usize, shift as usize);
    let u = w as usize;
    assert(u >> shift == u >> (shift as usize)) by (bit_vector);
    let x = (w as usize) >> shift;
    assert(x == w / d);
    vstd::arithmetic::div_mod::lemma_fundamental_div_mod(w, d);
    let m = w % d;
    assert(0 <= m < d) by {
        vstd::arithmetic::div_mod::lemma_mod_bound(w, d);
    }
    assert(w == d * x + m);
    assert((x + 1) * d == d * x + d) by (nonlinear_arith);
    assert(x * d == d * x) by (nonlinear_arith);
    if x > 65535 {
        assert(65535 * d <= x * d) by (nonlinear_arith)
            requires
                x > 65535,
                d > 0,
        ;
    }
}

/// An acknowledgement that answers a segment goes back to where the segment came from,
/// takes no place in the stream, and says what is expected next and how much of it there is
/// room for. That is remembered. It echoes the timestamp of the segment.
pub open spec fn answers(w: TcpView, now: Instant, s: Segment, r: Segment) -> bool {
    let unit = power2::pow2(w.remote_win_shift as nat);
    &&& r.src_port == s.dst_port
    &&& r.dst_port == s.src_port
    &&& r.control == TcpControl::Plain
    &&& r.payload.len() == 0
    &&& r.seq_number == w.remote_last_seq
    &&& r.ack_number == Some(expected(w))
    &&& r.window_len * unit <= w.rx.window()
    &&& r.window_len == 65535 || w.rx.window() < (r.window_len + 1) * unit
    &&& r.max_seg_size is None
    &&& r.window_scale is None
    &&& !r.sack_permitted
    &&& w.remote_last_ack == r.ack_number
    &&& w.remote_last_win == r.window_len
    &&& r.timestamp is Some <==> w.timestamps && s.timestamp is Some
    &&& r.timestamp is Some ==> r.timestamp->0.tsecr == s.timestamp->0.tsval
    &&& !w.remote_has_sack ==> r.sack_ranges == seq![None::<(u32, u32)>, None, None]
}

proof fn lemma_ack_answers(v: TcpView, now: Instant, s: Segment)
    requires
        v.rx.inv(),
        v.rx.cap() <= 0x4000_0000,
        v.remote_win_shift <= 15,
    ensures
        answers(v.ack_sent(), now, s, v.ack_segment(now, s)),
{
    lemma_announced_window(v.rx.window(), v.remote_win_shift);
    let w = v.ack_sent();
    assert(w.remote_win_shift == v.remote_win_shift && w.rx == v.rx && w.remote_seq_no
        == v.remote_seq_no && w.remote_last_seq == v.remote_last_seq && w.timestamps
        == v.timestamps && w.remote_has_sack == v.remote_has_sack);
}

/// Whatever a segment is answered with is an acknowledgement of what has been received,
/// or a reset.
pub proof fn law_answer_says_what_is_expected(v: TcpView, now: Instant, s: Segment)
    requires
        v.inv(),
        v.segment_fits(now, s),
        v.measurement_fits(now, s),
        s.window_scale matches Some(scale) ==> scale <= 14,
        s.payload.len() < i32::MAX,
    ensures
        v.processed(now, s).1 matches Some(r) ==> answers(v.processed(now, s).0, now, s, r) || (
        r.control == TcpControl::Rst && v.processed(now, s).0 == v && r.src_port == s.dst_port
            && r.dst_port == s.src_port && r.payload.len() == 0),
{
    let c = TcpView {
        challenge_ack_timer: now.after(crate::time::Duration { micros: 1_000_000 }),
        ..v
    };
    let t = TcpView { timer: Timer::closing(now), ..v };
    let tc = TcpView {
        challenge_ack_timer: now.after(crate::time::Duration { micros: 1_000_000 }),
        ..t
    };
    lemma_ack_answers(v, now, s);
    lemma_ack_answers(c, now, s);
    lemma_ack_answers(t, now, s);
    lemma_ack_answers(tc, now, s);
    if v.is_acceptable(s) && v.transition(now, s) is Continue {
        model::lemma_accepted(v, now, s);
        let v1 = v.transition(now, s)->Continue_0;
        let v2 = v1.noted(v, now, s);
        lemma_payload_answers(v2, now, s, v.payload_in_window(s), v.payload_offset(s));
    }
}

proof fn lemma_payload_answers(
    v: TcpView,
    now: Instant,
    s: Segment,
    payload: Seq<u8>,
    offset: int,
)
    requires
        v.inv(),
        0 <= offset,
        offset + payload.len() <= usize::MAX,
        payload.len() > 0 && crate::storage::assembler::assemble(
            v.assembler,
            offset as usize,
            payload.len() as usize,
        ).1 is Ok ==> offset + payload.len() <= v.rx.window(),
    ensures
        ({
            let (w, reply) = v.payload_taken(now, s, payload, offset);
            reply matches Some(r) ==> answers(w, now, s, r)
        }),
{
    if payload.len() > 0 {
        let size = payload.len() as usize;
        let (held, outcome) = crate::storage::assembler::assemble(
            v.assembler,
            offset as usize,
            size,
        );
        lemma_ack_answers(v, now, s);
        if let Ok(contig) = outcome {
            model::lemma_assembled_in_window(v.assembler, offset as usize, size, v.rx.window());
            let v1 = v.payload_placed(s.seq_number, payload, offset, held, contig as int);
            assert(v1.rx.inv());
            assert(v1.rx.cap() == v.rx.cap());
            let v2 = v1.ack_delayed(now);
            assert(v2.rx == v1.rx);
            lemma_ack_answers(v2, now, s);
        }
    }
}

/// What is acknowledged leaves the transmit buffer, oldest octets first, and is not sent
/// again; the rest stays.
pub proof fn law_acknowledged_octets_leave(v: TcpView, now: Instant, s: Segment, ack: TcpSeqNumber)
    requires
        v.inv(),
        v.state == State::Established || v.state == State::CloseWait,
        window_left(v) >= 0,
        s.seq_number == expected(v),
        s.payload.len() == 0,
        s.control == TcpControl::Plain || s.control == TcpControl::Psh,
        s.ack_number == Some(ack),
        0 <= ack.diff(v.local_seq_no) <= v.tx.length,
    ensures
        ({
            let w = v.processed(now, s).0;
            let n = ack.diff(v.local_seq_no);
            &&& w.tx.data() == v.tx.data().skip(n)
            &&& w.local_seq_no == ack
            &&& w.remote_last_seq.diff(ack) >= 0
            &&& v.remote_last_seq.diff(ack) >= 0 ==> w.remote_last_seq == v.remote_last_seq
            &&& v.remote_last_seq.diff(ack) < 0 ==> w.remote_last_seq == ack
            &&& w.remote_last_ts == Some(now)
            &&& s.timestamp is Some ==> w.last_remote_tsval == s.timestamp->0.tsval
            &&& s.timestamp is None ==> w.last_remote_tsval == v.last_remote_tsval
        }),
{
    lemma_next_segment(v, now, s, ack);
    assert(v.tx.data().skip(0) =~= v.tx.data());
    let n = ack.diff(v.local_seq_no);
    if n > 0 {
        assert(v.tx.shrunk(n).data() =~= v.tx.data().skip(n));
    }
}

/// A segment repeats an acknowledgement if it carries no payload, acknowledges what the
/// last one did while more is in flight, and grants the same window. Repetitions are
/// counted, and the third in a row asks for the oldest segment to be sent again at once.
/// Any other acknowledgement starts the count anew.
pub proof fn law_repetitions_are_counted(v: TcpView, now: Instant, s: Segment, ack: TcpSeqNumber)
    requires
        v.inv(),
        v.state == State::Established,
        window_left(v) >= 0,
        s.seq_number == expected(v),
        s.payload.len() == 0,
        s.control == TcpControl::Plain,
        s.ack_number == Some(ack),
        0 <= ack.diff(v.local_seq_no) <= v.tx.length,
    ensures
        ({
            let w = v.processed(now, s).0;
            let scale = match v.remote_win_scale {
                Some(k) => k as nat,
                None => 0,
            };
            let repeats = v.local_rx_last_ack == Some(ack) && ack.diff(v.remote_last_seq) < 0
                && s.window_len * power2::pow2(scale) == v.remote_win_len;
            &&& repeats && v.local_rx_dup_acks < 255 ==> w.local_rx_dup_acks
                == v.local_rx_dup_acks + 1
            &&& repeats && v.local_rx_dup_acks == 255 ==> w.local_rx_dup_acks == 255
            &&& !repeats ==> w.local_rx_dup_acks == 0
            &&& w.local_rx_last_ack == Some(ack)
            &&& repeats && ack == v.local_seq_no && w.local_rx_dup_acks == 3 ==> w.timer
                == Timer::FastRetransmit
            &&& v.timer !is FastRetransmit && !(repeats && w.local_rx_dup_acks == 3) ==> w.timer
                !is FastRetransmit
            &&& repeats ==> w.rtte == v.rtte
        }),
{
    lemma_next_segment(v, now, s, ack);
    power2::lemma2_to64();
    match v.remote_win_scale {
        Some(k) => {
            lemma_scaled_is_product(s.window_len, k);
        },
        None => {
            lemma_scaled_is_product(s.window_len, 0);
        },
    }
}

/// What an acknowledgement does to the timer. When nothing is left in flight, it stops,
/// and only a keep-alive is waited for; when something was acknowledged but not all, it
/// starts anew. As long as the remote grants no window but there is something to send, the
/// window is probed; when it opens, that stops.
pub proof fn law_acknowledgement_sets_the_timer(
    v: TcpView,
    now: Instant,
    s: Segment,
    ack: TcpSeqNumber,
)
    requires
        v.inv(),
        v.state == State::Established,
        window_left(v) >= 0,
        s.seq_number == expected(v),
        s.payload.len() == 0,
        s.control == TcpControl::Plain,
        s.ack_number == Some(ack),
        0 <= ack.diff(v.local_seq_no) <= v.tx.length,
        v.local_rx_last_ack != Some(ack),
        now.micros + v.processed(now, s).0.rtte.rto * 1000 <= i64::MAX,
        v.keep_alive matches Some(d) ==> now.micros + d.micros <= i64::MAX,
    ensures
        ({
            let w = v.processed(now, s).0;
            let n = ack.diff(v.local_seq_no);
            let idle = Timer::Idle {
                keep_alive_at: match v.keep_alive {
                    Some(d) => Some(Instant { micros: (now.micros + d.micros) as i64 }),
                    None => None,
                },
            };
            let after_rto = Instant { micros: (now.micros + w.rtte.rto * 1000) as i64 };
            let retransmits = v.timer is Retransmit || v.timer is FastRetransmit;
            &&& w.remote_win_len > 0 && retransmits && v.remote_last_seq.diff(ack) <= 0 ==> w.timer
                == idle
            &&& w.remote_win_len > 0 && retransmits && v.remote_last_seq.diff(ack) > 0 && n > 0
                ==> w.timer == (Timer::Retransmit { expires_at: after_rto })
            &&& w.remote_win_len > 0 && retransmits && v.remote_last_seq.diff(ack) > 0 && n == 0
                ==> w.timer == v.timer
            &&& w.remote_win_len > 0 && (v.timer is Idle || v.timer is ZeroWindowProbe) ==> w.timer
                == idle
            &&& w.remote_win_len == 0 && n < v.tx.length && (n > 0 || v.timer is Idle) ==> (w.timer
                matches Timer::ZeroWindowProbe { expires_at, delay } && expires_at == after_rto
                && delay.micros == w.rtte.rto * 1000)
            &&& w.remote_win_len == 0 && n == 0 && v.timer is ZeroWindowProbe ==> w.timer
                == v.timer
        }),
{
    lemma_next_segment(v, now, s, ack);
}

/// A segment with payload that lies in the window as a whole.
pub open spec fn arrives_whole(v: TcpView, s: Segment, ack: TcpSeqNumber, offset: int) -> bool {
    &&& v.inv()
    &&& v.state == State::Established
    &&& s.control == TcpControl::Plain || s.control == TcpControl::Psh
    &&& s.ack_number == Some(ack)
    &&& 0 <= ack.diff(v.local_seq_no) <= v.tx.length
    &&& 0 < s.payload.len() <= 65535
    &&& s.seq_number == expected(v).plus(offset)
    &&& 0 <= offset
    &&& offset + s.payload.len() <= window_left(v)
    &&& offset + s.payload.len() <= v.rx.window()
}

/// What follows of a segment that lies in the window as a whole.
proof fn lemma_whole_segment(v: TcpView, now: Instant, s: Segment, ack: TcpSeqNumber, offset: int)
    requires
        arrives_whole(v, s, ack, offset),
    ensures
        v.is_acceptable(s),
        v.transition(now, s) == Step::Continue(v),
        v.payload_in_window(s) == s.payload,
        v.payload_offset(s) == offset,
        v.processed(now, s) == v.noted(v, now, s).payload_taken(now, s, s.payload, offset),
        ({
            let v2 = v.noted(v, now, s);
            &&& v2.rx == v.rx
            &&& v2.assembler == v.assembler
            &&& v2.remote_seq_no == v.remote_seq_no
            &&& v2.remote_last_ack == v.remote_last_ack
            &&& v2.ack_delay == v.ack_delay
            &&& v2.ack_delay_timer == v.ack_delay_timer
            &&& v2.remote_mss == v.remote_mss
        }),
{
    lemma_window_facts(v);
    assert(v.ack_verdict(s) is Accept);
    assert(v.in_window(s));
    assert(v.effective_control(s) == TcpControl::Plain);
    assert(v.overlap_start(s) == s.seq_number);
    assert(v.overlap_end(s) == s.seq_number.plus(s.payload.len() as int));
    assert(v.payload_in_window(s) =~= s.payload);
}

/// Payload that is expected next, with nothing held behind it, is received as it is. It is
/// not acknowledged at once: an acknowledgement is due after the delay that has been
/// configured, at once if more than a full segment has not been acknowledged, or with
/// whatever is sent next if there is no delay.
pub proof fn law_expected_payload_is_received(
    v: TcpView,
    now: Instant,
    s: Segment,
    ack: TcpSeqNumber,
)
    requires
        arrives_whole(v, s, ack, 0),
        v.assembler.len() == 0,
        v.ack_delay matches Some(d) ==> now.micros + d.micros <= i64::MAX,
    ensures
        ({
            let (w, reply) = v.processed(now, s);
            let due = expected(v).plus(s.payload.len() as int);
            &&& w.rx.data() == v.rx.data() + s.payload
            &&& expected(w) == due
            &&& w.assembler.len() == 0
            &&& reply is None
            &&& v.ack_delay is None ==> w.ack_delay_timer == v.ack_delay_timer
            &&& v.ack_delay matches Some(d) ==> (v.remote_last_ack matches Some(last) ==> (0
                < due.diff(last) ==> {
                &&& v.ack_delay_timer == AckDelayTimer::Idle ==> w.ack_delay_timer
                    == AckDelayTimer::Waiting(Instant { micros: (now.micros + d.micros) as i64 })
                &&& v.ack_delay_timer is Waiting && due.diff(last) > v.remote_mss
                    && v.remote_mss <= 65535 && due.diff(last) <= 0x4000_0000 ==> w.ack_delay_timer
                    == AckDelayTimer::Immediate
                &&& v.ack_delay_timer is Waiting && due.diff(last) <= v.remote_mss <= 65535
                    ==> w.ack_delay_timer == v.ack_delay_timer
                &&& v.ack_delay_timer == AckDelayTimer::Immediate ==> w.ack_delay_timer
                    == AckDelayTimer::Immediate
            }))
        }),
{
    lemma_whole_segment(v, now, s, ack, 0);
    let v2 = v.noted(v, now, s);
    let n = s.payload.len() as usize;
    let (held, outcome) = crate::storage::assembler::assemble(v.assembler, 0, n);
    reveal_with_fuel(crate::storage::assembler::insert_range, 2);
    assert(outcome == Ok::<usize, crate::storage::assembler::TooManyHolesError>(n));
    assert(held =~= Seq::empty());
    v.rx.law_written_behind_queue(0, s.payload);
    v.rx.written(0, s.payload).law_grown_takes_free(n as int);
    assert(crate::storage::slices::splice(v.rx.free(), 0, s.payload).take(n as int)
        =~= s.payload);
    let v3 = v2.payload_placed(s.seq_number, s.payload, 0, held, n as int);
    assert(v.processed(now, s) == (v3.ack_delayed(now), None::<Segment>));
    assert(v3.ack_delayed(now).rx == v3.rx);
    assert(v3.next_ack() == expected(v).plus(s.payload.len() as int));
}

/// Payload behind a hole is not received yet, but held, and what is expected next is
/// acknowledged once more at once. As long as fewer than four parts are held, none is
/// turned away.
pub proof fn law_early_payload_is_held(
    v: TcpView,
    now: Instant,
    s: Segment,
    ack: TcpSeqNumber,
    offset: int,
)
    requires
        arrives_whole(v, s, ack, offset),
        offset > 0,
        v.assembler.len() < 4,
    ensures
        ({
            let (w, reply) = v.processed(now, s);
            &&& w.rx.data() == v.rx.data()
            &&& expected(w) == expected(v)
            &&& forall|x: int|
                x >= 0 ==> (#[trigger] crate::storage::assembler::covers(w.assembler, x) <==> (
                crate::storage::assembler::covers(v.assembler, x) || offset <= x < offset
                    + s.payload.len()))
            &&& forall|x: int|
                offset <= x < offset + s.payload.len() ==> #[trigger] w.rx.free()[x]
                    == s.payload[x - offset]
            &&& reply matches Some(r) && r.ack_number == Some(expected(v)) && r.control
                == TcpControl::Plain
            &&& w.local_rx_last_seq == Some(s.seq_number) || w.assembler.len() == 0
        }),
{
    lemma_whole_segment(v, now, s, ack, offset);
    let v2 = v.noted(v, now, s);
    let n = s.payload.len() as usize;
    let (held, outcome) = crate::storage::assembler::assemble(v.assembler, offset as usize, n);
    crate::storage::assembler::law_assemble(v.assembler, offset as usize, n);
    let contig = outcome->Ok_0;
    if contig > 0 {
        assert(crate::storage::assembler::covers(v.assembler, 0) || offset <= 0 < offset + n);
        let r = v.assembler;
        let i = choose|i: int| 0 <= i < r.len() && (#[trigger] r[i]).0 <= 0 < r[i].1;
        assert(r[0].0 > 0);
        if i > 0 {
            assert(r[0].1 < r[i].0);
        }
    }
    assert(contig == 0);
    assert forall|x: int| x >= 0 implies (#[trigger] crate::storage::assembler::covers(held, x)
        <==> (crate::storage::assembler::covers(v.assembler, x) || offset <= x < offset
        + s.payload.len())) by {
        let y = x + contig;
        assert(crate::storage::assembler::covers(held, y - contig) <==> (
        crate::storage::assembler::covers(v.assembler, y) || offset <= y < offset + n));
    }
    assert(crate::storage::assembler::covers(held, offset as int));
    v.rx.law_written_behind_queue(offset, s.payload);
    let v3 = v2.payload_placed(s.seq_number, s.payload, offset, held, 0);
    let v4 = v3.ack_delayed(now);
    assert(v4.rx == v3.rx && v4.assembler == held);
    assert(held.len() > 0);
    assert(v.processed(now, s) == (v4.ack_sent(), Some(v4.ack_segment(now, s))));
    let w = v4.ack_sent();
    assert(w.rx == v.rx.written(offset, s.payload).grown(0));
    assert(w.rx.data() =~= v.rx.written(offset, s.payload).data());
    assert(w.rx.free() =~= v.rx.written(offset, s.payload).free());
}

/// While its SYN has not been answered, a connection takes nothing but a SYN or a reset.
/// What acknowledges the SYN without being either is dropped.
pub proof fn law_nothing_precedes_the_syn(v: TcpView, now: Instant, s: Segment)
    requires
        v.state == State::SynSent,
        s.control != TcpControl::Syn,
        s.control != TcpControl::Rst,
        s.ack_number is None || s.ack_number == Some(v.local_seq_no.plus(1)) || s.control
            != TcpControl::Plain,
    ensures
        v.processed(now, s) == (v, None::<Segment>),
{
}

/// Once the remote has said that nothing follows, a FIN that comes again changes nothing,
/// and neither does a SYN on a connection that is synchronized.
pub proof fn law_repeated_fin_and_late_syn_change_nothing(
    v: TcpView,
    now: Instant,
    s: Segment,
    ack: TcpSeqNumber,
)
    requires
        v.inv(),
        v.state != State::SynSent,
        v.state != State::SynReceived,
        v.state != State::Closed,
        window_left(v) >= 0,
        s.seq_number == expected(v),
        s.payload.len() == 0,
        s.ack_number == Some(ack),
        0 <= ack.diff(v.local_seq_no) <= v.tx.length,
        s.control == TcpControl::Syn || (s.control == TcpControl::Fin && (v.state
            == State::CloseWait || v.state == State::Closing || v.state == State::LastAck || v.state
            == State::TimeWait)),
    ensures
        v.processed(now, s) == (v, None::<Segment>),
{
    lemma_window_facts(v);
    assert(v.ack_verdict(s) is Accept);
    assert(v.in_window(s));
    assert(s.seq_number.plus(0) == s.seq_number);
    assert(v.window_end().diff(s.seq_number) >= 0);
}

/// A connection that waits for the acknowledgement of its FIN answers what acknowledges
/// nothing new, once a second.
pub proof fn law_last_ack_is_asked_for(v: TcpView, now: Instant, s: Segment)
    requires
        v.inv(),
        v.state == State::LastAck,
        window_left(v) >= 0,
        s.seq_number == expected(v),
        s.payload.len() == 0,
        s.control == TcpControl::Plain || s.control == TcpControl::Psh,
        s.ack_number == Some(v.local_seq_no),
    ensures
        ({
            let (w, reply) = v.processed(now, s);
            &&& now.micros >= v.challenge_ack_timer.micros ==> (reply matches Some(r)
                && r.ack_number == Some(expected(v)))
            &&& now.micros < v.challenge_ack_timer.micros ==> w == v && reply is None
            &&& w.state == v.state
            &&& w.tx == v.tx
        }),
{
    lemma_next_segment(v, now, s, v.local_seq_no);
}

/// A connection that has been answered with a SYN can be closed by the remote at once.
pub proof fn law_fin_can_follow_the_syn(v: TcpView, now: Instant, s: Segment)
    requires
        v.inv(),
        v.state == State::SynReceived,
        window_left(v) >= 0,
        s.seq_number == expected(v),
        s.payload.len() == 0,
        s.control == TcpControl::Fin,
        s.ack_number == Some(v.local_seq_no.plus(1)),
    ensures
        ({
            let w = v.processed(now, s).0;
            &&& w.state == State::CloseWait
            &&& w.rx_fin_received
            &&& expected(w) == expected(v).plus(1)
            &&& w.local_seq_no == v.local_seq_no.plus(1)
        }),
{
    lemma_window_facts(v);
    assert(v.in_window(s));
    assert(s.seq_number.plus(0) == s.seq_number);
    assert(v.window_end().diff(s.seq_number) >= 0);
    assert(v.effective_control(s) == TcpControl::Fin);
    assert(v.overlap_start(s) == s.seq_number);
    assert(v.overlap_end(s) == s.seq_number);
    assert(v.payload_in_window(s).len() == 0);
    assert(v.acked_by(s).len == 0);
}

/// A FIN behind the end of the window that was announced is not counted.
pub proof fn law_fin_behind_the_window_waits(v: TcpView, now: Instant, s: Segment)
    requires
        v.inv(),
        v.awaits_data(),
        s.payload.len() <= 65535,
        s.control == TcpControl::Fin,
        s.seq_number == expected(v),
        0 <= window_left(v) < s.payload.len(),
    ensures
        !v.processed(now, s).0.rx_fin_received || v.rx_fin_received,
        v.processed(now, s).0.state != State::CloseWait,
        v.processed(now, s).0.state != State::Closing,
        v.processed(now, s).0.state != State::TimeWait,
{
    lemma_window_facts(v);
    assert(v.effective_control(s) == TcpControl::Plain);
    assert(v.challenge(now, s).0.state == v.state);
    assert(v.out_of_window(now, s).0.state == v.state);
    if let Step::Continue(v1) = v.transition(now, s) {
        let v2 = v1.noted(v, now, s);
        let w = v2.payload_taken(now, s, v.payload_in_window(s), v.payload_offset(s)).0;
        assert(v2.state == v1.state);
        assert(w.state == v1.state);
        assert(w.rx_fin_received == v1.rx_fin_received);
    }
}

/// A fresh acknowledgement ends a measurement of the round trip and lets the congestion
/// window grow by what it acknowledges; a repeated one does neither. Congestion control
/// learns of the window that the remote grants.
pub proof fn law_acknowledgement_is_accounted_for(
    v: TcpView,
    now: Instant,
    s: Segment,
    ack: TcpSeqNumber,
)
    requires
        v.inv(),
        v.state == State::Established,
        window_left(v) >= 0,
        s.seq_number == expected(v),
        s.payload.len() == 0,
        s.control == TcpControl::Plain,
        s.ack_number == Some(ack),
        0 <= ack.diff(v.local_seq_no) <= v.tx.length,
    ensures
        ({
            let w = v.processed(now, s).0;
            let before = v.congestion_controller.with_remote_window(w.remote_win_len);
            let repeats = v.local_rx_last_ack == Some(ack) && ack.diff(v.remote_last_seq) < 0
                && w.remote_win_len == v.remote_win_len;
            &&& !repeats ==> w.rtte == v.rtte.acked(now, ack) && w.congestion_controller
                == before.acked(ack.diff(v.local_seq_no) as usize)
            &&& repeats ==> w.rtte == v.rtte && w.congestion_controller == before.dup_acked()
        }),
{
    lemma_next_segment(v, now, s, ack);
}

/// Payload that fills a hole is acknowledged at once, together with what is then complete.
pub proof fn law_filled_hole_is_acknowledged(
    v: TcpView,
    now: Instant,
    s: Segment,
    ack: TcpSeqNumber,
)
    requires
        arrives_whole(v, s, ack, 0),
        v.assembler.len() > 0,
    ensures
        ({
            let (w, reply) = v.processed(now, s);
            &&& reply matches Some(r) && r.ack_number == Some(expected(w))
            &&& expected(w).diff(expected(v)) >= s.payload.len()
            &&& w.rx.length >= v.rx.length + s.payload.len()
        }),
{
    lemma_whole_segment(v, now, s, ack, 0);
    let v2 = v.noted(v, now, s);
    let n = s.payload.len() as usize;
    let (held, outcome) = crate::storage::assembler::assemble(v.assembler, 0, n);
    crate::storage::assembler::law_assemble(v.assembler, 0, n);
    model::lemma_assembled_in_window(v.assembler, 0, n, v.rx.window());
    let contig = outcome->Ok_0;
    assert(contig >= n);
    let v3 = v2.payload_placed(s.seq_number, s.payload, 0, held, contig as int);
    let v4 = v3.ack_delayed(now);
    assert(v4.rx == v3.rx);
    assert(v.processed(now, s) == (v4.ack_sent(), Some(v4.ack_segment(now, s))));
}

/// Payload that would have to be held as one part too many is not taken in, and what is
/// expected next is acknowledged once more.
pub proof fn law_too_many_holes_are_refused(
    v: TcpView,
    now: Instant,
    s: Segment,
    ack: TcpSeqNumber,
    offset: int,
)
    requires
        arrives_whole(v, s, ack, offset),
        crate::storage::assembler::assemble(
            v.assembler,
            offset as usize,
            s.payload.len() as usize,
        ).1 is Err,
    ensures
        ({
            let (w, reply) = v.processed(now, s);
            &&& w.rx == v.rx
            &&& w.assembler == v.assembler
            &&& expected(w) == expected(v)
            &&& reply matches Some(r) && r.ack_number == Some(expected(v))
            &&& v.assembler.len() == 4
        }),
{
    lemma_whole_segment(v, now, s, ack, offset);
    crate::storage::assembler::law_assemble(
        v.assembler,
        offset as usize,
        s.payload.len() as usize,
    );
}

} // verus!
