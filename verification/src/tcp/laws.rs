//! Rules that a TCP socket keeps, whatever segments arrive and whatever time it is.
use super::egress;
use super::errors::ConnectError;
use super::listener;
use super::listener::PendingSyn;
use super::model::{self, Step, TcpView};
use super::repr::{Segment, TcpControl};
use super::socket;
use super::socket::ConnectOutcome;
use super::state::TcpSocketState;
use super::timer::{AckDelayTimer, Timer};
use super::{State, Tuple, MAX_WIN_SHIFT};
use crate::icmp_error::IcmpError;
use crate::stack;
use crate::stack::NetView;
use crate::storage::assembler;
use crate::time::Instant;
use crate::wire::{IpEndpoint, IpListenEndpoint, TcpSeqNumber};
use vstd::prelude::*;

verus! {

// ----------------------------------------------------------------------
// Resets
// ----------------------------------------------------------------------
/// A reset ends a connection if it lies in the window, and does nothing at all if it
/// does not. It is never answered.
pub proof fn law_reset_needs_the_window(v: TcpView, now: Instant, s: Segment)
    requires
        v.state != State::SynSent,
        s.control == TcpControl::Rst,
    ensures
        v.processed(now, s).1 is None,
        v.in_window(s) ==> v.processed(now, s).0.state == State::Closed && v.processed(
            now,
            s,
        ).0.tuple is None,
        !v.in_window(s) ==> v.processed(now, s).0 == v,
{
}

/// Before the connection is synchronized, a reset ends it if it acknowledges the SYN,
/// and does nothing at all if it does not.
pub proof fn law_reset_needs_the_syn(v: TcpView, now: Instant, s: Segment)
    requires
        v.state == State::SynSent,
        s.control == TcpControl::Rst,
    ensures
        v.processed(now, s).1 is None,
        s.ack_number == Some(v.local_seq_no.plus(1)) ==> v.processed(now, s).0.state
            == State::Closed && v.processed(now, s).0.tuple is None,
        s.ack_number != Some(v.local_seq_no.plus(1)) ==> v.processed(now, s).0 == v,
{
}

/// A connection that is refused is closed: the reset that answers a SYN ends the
/// attempt of the socket that sent it.
pub proof fn law_refused_connection_is_closed(v: TcpView, made_at: Instant, now: Instant)
    requires
        v.inv(),
        v.tuple is Some,
        v.state == State::SynSent,
        !v.plan(made_at).is_keep_alive,
    ensures
        ({
            let refused = v.plan(made_at).segment.rst_reply();
            let waiting = v.sent(made_at, v.plan(made_at));
            &&& waiting.takes(v.tuple->0.remote.addr, v.tuple->0.local.addr, refused)
            &&& waiting.processed(now, refused).0.state == State::Closed
            &&& waiting.processed(now, refused).0.tuple is None
            &&& waiting.processed(now, refused).1 is None
        }),
{
    reveal(TcpView::next_segment);
    reveal(TcpView::sent);
}

/// An acknowledgement of something that was never sent is refused with a reset as
/// long as the connection is not synchronized. The reset has the sequence number
/// that was acknowledged, and the socket stays as it is.
pub proof fn law_wrong_acknowledgement_is_refused(
    v: TcpView,
    now: Instant,
    s: Segment,
    ack: TcpSeqNumber,
)
    requires
        v.state == State::SynReceived || (v.state == State::SynSent && (s.control
            == TcpControl::Plain || s.control == TcpControl::Syn)),
        s.control != TcpControl::Rst,
        s.ack_number == Some(ack),
        ack != v.local_seq_no.plus(1),
    ensures
        v.processed(now, s).0 == v,
        ({
            let reply = v.processed(now, s).1;
            &&& reply is Some
            &&& reply->0.control == TcpControl::Rst
            &&& reply->0.seq_number == ack
            &&& reply->0.ack_number is None
            &&& reply->0.src_port == s.dst_port
            &&& reply->0.dst_port == s.src_port
        }),
{
}

/// A connection that is given up ends with a reset without payload, whatever the route.
/// Once that has been sent, the socket is free for another connection: no later turn has
/// anything to send, or changes the socket.
pub proof fn law_abort_sends_one_reset(
    v: TcpView,
    now: Instant,
    sent_at: Instant,
    mtu: Option<usize>,
)
    requires
        v.gives_up(now),
    ensures
        ({
            let (ready, plan) = v.prepared(now, mtu);
            let w = ready.sent(sent_at, plan->0);
            &&& plan is Some
            &&& plan->0.segment.control == TcpControl::Rst
            &&& plan->0.segment.payload.len() == 0
            &&& !plan->0.is_keep_alive
            &&& w.state == State::Closed
            &&& w.tuple is None
            &&& forall|later: Instant, m: Option<usize>|
                #[trigger] w.prepared(later, m) == (w, None::<egress::Plan>)
        }),
{
    reveal(TcpView::prepared);
    reveal(TcpView::wants_to_send);
    reveal(TcpView::next_segment);
    reveal(TcpView::sent);
}

// ----------------------------------------------------------------------
// Answers
// ----------------------------------------------------------------------
/// Once a segment has been challenged, none is for a second.
pub proof fn law_challenges_are_rare(v: TcpView, now: Instant, s: Segment, later: Instant, t: Segment)
    requires
        v.challenge(now, s).1 is Some,
        later.micros < now.micros + 1_000_000,
        now.micros + 1_000_000 <= i64::MAX,
    ensures
        v.challenge(now, s).0.challenge(later, t) == (v.challenge(now, s).0, None::<Segment>),
{
}

/// A keep-alive is answered with what is expected next, and its octet is not taken.
pub proof fn law_keep_alive_is_answered(v: TcpView, now: Instant, s: Segment)
    requires
        v.inv(),
        v.state != State::SynSent,
        v.ack_verdict(s) is Accept,
        s.control == TcpControl::Plain || s.control == TcpControl::Psh,
        s.payload.len() == 1,
        s.seq_number == v.next_ack().plus(-1),
    ensures
        v.processed(now, s).0.rx == v.rx,
        v.processed(now, s).0.state == v.state,
        v.processed(now, s).1 matches Some(reply) && reply.ack_number == Some(v.next_ack())
            && reply.seq_number == v.remote_last_seq,
{
}

/// Taking in payload moves what is expected next on, if at all.
proof fn lemma_payload_moves_on(
    v: TcpView,
    now: Instant,
    s: Segment,
    payload: Seq<u8>,
    offset: int,
)
    requires
        v.inv(),
        0 <= offset,
        offset + payload.len() <= usize::MAX,
        payload.len() > 0 && assembler::assemble(
            v.assembler,
            offset as usize,
            payload.len() as usize,
        ).1 is Ok ==> offset + payload.len() <= v.rx.window(),
    ensures
        0 <= v.payload_taken(now, s, payload, offset).0.next_ack().diff(v.next_ack())
            <= v.rx.window(),
{
    if payload.len() > 0 {
        let size = payload.len() as usize;
        let (held, outcome) = assembler::assemble(v.assembler, offset as usize, size);
        if let Ok(contig) = outcome {
            model::lemma_assembled_in_window(v.assembler, offset as usize, size, v.rx.window());
            let v1 = v.payload_placed(s.seq_number, payload, offset, held, contig as int);
            assert(v1.next_ack().diff(v.next_ack()) == contig);
            let r = v.payload_taken(now, s, payload, offset).0;
            assert(r.remote_seq_no == v1.remote_seq_no && r.rx == v1.rx);
        } else {
            let r = v.payload_taken(now, s, payload, offset).0;
            assert(r.remote_seq_no == v.remote_seq_no && r.rx == v.rx);
        }
    }
}

/// What is not acceptable does not change what is expected next.
proof fn lemma_refusal_moves_nothing(v: TcpView, now: Instant, s: Segment)
    requires
        !(v.ack_verdict(s) is Accept && v.in_window(s)),
        v.state != State::SynSent,
    ensures
        v.processed(now, s).0.next_ack() == v.next_ack(),
{
    let challenged = v.challenge(now, s).0;
    assert(challenged.remote_seq_no == v.remote_seq_no && challenged.rx == v.rx);
    let outside = v.out_of_window(now, s).0;
    assert(outside.remote_seq_no == v.remote_seq_no && outside.rx == v.rx);
}

/// The transition itself moves what is expected next on by the FIN, if at all.
proof fn lemma_transition_moves_on(v: TcpView, now: Instant, s: Segment)
    requires
        v.awaits_data(),
        v.transition(now, s) is Continue,
    ensures
        ({
            let v2 = v.transition(now, s)->Continue_0.noted(v, now, s);
            &&& v2.rx == v.rx
            &&& v2.remote_seq_no == v.remote_seq_no || v2.remote_seq_no
                == v.remote_seq_no.plus(1)
        }),
{
    let v1 = v.transition(now, s)->Continue_0;
    assert(v1.rx == v.rx);
    assert(v1.remote_seq_no == v.remote_seq_no || v1.remote_seq_no == v.remote_seq_no.plus(1));
}

/// What has been received is never taken back: what is expected next only moves on.
#[verifier::spinoff_prover]
pub proof fn law_expectation_moves_on(v: TcpView, now: Instant, s: Segment)
    requires
        v.inv(),
        v.awaits_data(),
        v.segment_fits(now, s),
        v.measurement_fits(now, s),
        s.window_scale matches Some(scale) ==> scale <= MAX_WIN_SHIFT,
        s.payload.len() < i32::MAX,
    ensures
        v.processed(now, s).0.next_ack().diff(v.next_ack()) >= 0,
{
    if v.ack_verdict(s) is Accept && v.in_window(s) {
        if v.transition(now, s) is Continue {
            let v1 = v.transition(now, s)->Continue_0;
            let v2 = v1.noted(v, now, s);
            let payload = v.payload_in_window(s);
            let offset = v.payload_offset(s);
            model::lemma_accepted(v, now, s);
            lemma_transition_moves_on(v, now, s);
            lemma_payload_moves_on(v2, now, s, payload, offset);
        }
    } else {
        lemma_refusal_moves_nothing(v, now, s);
    }
}

// ----------------------------------------------------------------------
// The window
// ----------------------------------------------------------------------
/// The window announced last ends within the receive buffer.
pub open spec fn window_is_backed(v: TcpView) -> bool {
    v.remote_last_ack matches Some(last_ack) ==> model::scale_up(
        v.remote_last_win,
        v.remote_win_shift,
    ) - v.next_ack().diff(last_ack) <= v.rx.window()
}

/// The part of a segment in the window lies between what is expected next and the end
/// of the window.
proof fn lemma_overlap_is_backed(v: TcpView, s: Segment)
    requires
        v.inv(),
        v.awaits_data(),
        v.in_window(s),
        window_is_backed(v),
        s.payload.len() <= 65535,
        v.window_end().diff(v.next_ack()) >= 0 || i32::MIN < s.seq_number.diff(v.next_ack())
            < i32::MAX - s.payload.len(),
    ensures
        0 <= v.overlap_start(s).diff(s.seq_number) <= v.overlap_end(s).diff(s.seq_number)
            <= s.payload.len(),
        0 <= v.overlap_start(s).diff(v.next_ack()),
        v.payload_in_window(s).len() > 0 ==> v.payload_offset(s) + v.payload_in_window(s).len()
            <= v.rx.window(),
{
    model::lemma_scale_up(v.remote_last_win, v.remote_win_shift);
}

/// As long as the window that was announced is backed by the buffer, every segment
/// fits, whatever it carries. (Before any window has been announced, that does not hold
/// of a segment that is as far ahead as sequence numbers can tell.)
pub proof fn law_announced_window_fits(v: TcpView, now: Instant, s: Segment)
    requires
        v.inv(),
        v.awaits_data(),
        window_is_backed(v),
        s.payload.len() <= 65535,
        v.window_end().diff(v.next_ack()) >= 0 || i32::MIN < s.seq_number.diff(v.next_ack())
            < i32::MAX - s.payload.len(),
    ensures
        v.segment_fits(now, s),
{
    if v.in_window(s) {
        lemma_overlap_is_backed(v, s);
    }
}

/// A segment without payload fits, however large the window is that was announced. (An
/// exception is one that is as far away as sequence numbers can tell, where what is
/// expected next has passed the end of the window.)
pub proof fn law_bare_segment_fits(v: TcpView, now: Instant, s: Segment)
    requires
        v.inv(),
        s.payload.len() == 0,
        v.window_end().diff(v.next_ack()) >= 0 || i32::MIN < s.seq_number.diff(v.next_ack())
            < i32::MAX + v.window_end().diff(v.next_ack()),
    ensures
        v.segment_fits(now, s),
{
    model::lemma_scale_up(v.remote_last_win, v.remote_win_shift);
    if v.state != State::SynSent && v.in_window(s) {
        assert(v.overlap_start(s) == s.seq_number);
        assert(v.overlap_end(s) == s.seq_number);
        assert(v.payload_in_window(s).len() == 0);
    }
}

/// Every acknowledgement announces a window that is backed by the buffer.
pub proof fn law_announcement_is_backed(v: TcpView, made_at: Instant, now: Instant)
    requires
        v.inv(),
        v.tuple is Some,
        !v.sent_syn(),
        window_is_backed(v),
    ensures
        window_is_backed(v.ack_sent()),
        window_is_backed(v.sent(now, v.plan(made_at))),
{
    reveal(TcpView::next_segment);
    reveal(TcpView::sent);
    model::lemma_scale_down(v.rx.window(), v.remote_win_shift);
    model::lemma_scale_up(v.remote_last_win, v.remote_win_shift);
}

/// Taking in payload leaves the announced window backed by the buffer.
proof fn lemma_payload_keeps_backing(
    v: TcpView,
    now: Instant,
    s: Segment,
    payload: Seq<u8>,
    offset: int,
)
    requires
        v.inv(),
        v.has_window(),
        0 <= offset,
        offset + payload.len() <= usize::MAX,
        payload.len() > 0 && assembler::assemble(
            v.assembler,
            offset as usize,
            payload.len() as usize,
        ).1 is Ok ==> offset + payload.len() <= v.rx.window(),
        window_is_backed(v),
        payload.len() > 0 && v.remote_last_ack is Some && offset == 0 ==> (v.next_ack().diff(
            v.remote_last_ack->0,
        ) + payload.len() <= model::scale_up(v.remote_last_win, v.remote_win_shift)),
    ensures
        window_is_backed(v.payload_taken(now, s, payload, offset).0),
{
    if payload.len() > 0 {
        let size = payload.len() as usize;
        let (held, outcome) = assembler::assemble(v.assembler, offset as usize, size);
        model::lemma_scale_up(v.remote_last_win, v.remote_win_shift);
        model::lemma_scale_down(v.rx.window(), v.remote_win_shift);
        if let Ok(contig) = outcome {
            model::lemma_assembled_in_window(v.assembler, offset as usize, size, v.rx.window());
            let v1 = v.payload_placed(s.seq_number, payload, offset, held, contig as int);
            model::lemma_scale_down(v1.rx.window(), v1.remote_win_shift);
            if held.len() > 0 || v.assembler.len() > 0 {
                assert(window_is_backed(v1.ack_delayed(now).ack_sent()));
            } else {
                assert(window_is_backed(v1));
                assert(window_is_backed(v1.ack_delayed(now)));
            }
        } else {
            assert(window_is_backed(v.ack_sent()));
        }
    }
}

/// What is not acceptable leaves the announced window backed by the buffer.
proof fn lemma_refusal_keeps_backing(v: TcpView, now: Instant, s: Segment)
    requires
        v.inv(),
        v.awaits_data(),
        window_is_backed(v),
        !(v.ack_verdict(s) is Accept && v.in_window(s)),
    ensures
        window_is_backed(v.processed(now, s).0),
{
    model::lemma_scale_down(v.rx.window(), v.remote_win_shift);
    assert(window_is_backed(v.ack_sent()));
    assert(window_is_backed(v.challenge(now, s).0));
    assert(window_is_backed(v.out_of_window(now, s).0));
}

/// An acceptable segment that moves the connection on leaves alone what the window
/// depends on, up to its payload, which lies within the window.
proof fn lemma_noted_keeps_backing(v: TcpView, now: Instant, s: Segment)
    requires
        v.inv(),
        v.awaits_data(),
        v.ack_verdict(s) is Accept,
        v.in_window(s),
        v.segment_fits(now, s),
        window_is_backed(v),
        v.transition(now, s) is Continue,
        v.transition(now, s)->Continue_0.awaits_data(),
    ensures
        ({
            let v2 = v.transition(now, s)->Continue_0.noted(v, now, s);
            let payload = v.payload_in_window(s);
            &&& window_is_backed(v2)
            &&& v2.has_window()
            &&& payload.len() > 0 && v2.remote_last_ack is Some && v.payload_offset(s) == 0 ==> (
            v2.next_ack().diff(v2.remote_last_ack->0) + payload.len() <= model::scale_up(
                v2.remote_last_win,
                v2.remote_win_shift,
            ))
        }),
{
    let v1 = v.transition(now, s)->Continue_0;
    let v2 = v1.noted(v, now, s);
    assert(v1.rx == v.rx && v1.remote_seq_no == v.remote_seq_no);
    assert(v2.rx == v.rx && v2.remote_seq_no == v.remote_seq_no);
    assert(v2.remote_last_ack == v.remote_last_ack);
    assert(v2.remote_last_win == v.remote_last_win);
    assert(v2.remote_win_shift == v.remote_win_shift);
    model::lemma_scale_up(v.remote_last_win, v.remote_win_shift);
}

/// What arrives leaves the announced window backed by the buffer, as long as more is
/// awaited.
pub proof fn law_window_stays_backed(v: TcpView, now: Instant, s: Segment)
    requires
        v.inv(),
        v.awaits_data(),
        v.segment_fits(now, s),
        v.measurement_fits(now, s),
        s.window_scale matches Some(scale) ==> scale <= MAX_WIN_SHIFT,
        s.payload.len() < i32::MAX,
        window_is_backed(v),
        v.processed(now, s).0.awaits_data(),
    ensures
        window_is_backed(v.processed(now, s).0),
{
    if v.ack_verdict(s) is Accept && v.in_window(s) {
        if v.transition(now, s) is Continue {
            let v1 = v.transition(now, s)->Continue_0;
            let v2 = v1.noted(v, now, s);
            let payload = v.payload_in_window(s);
            let offset = v.payload_offset(s);
            model::lemma_accepted(v, now, s);
            assert(v2.payload_taken(now, s, payload, offset).0.state == v1.state);
            lemma_noted_keeps_backing(v, now, s);
            lemma_payload_keeps_backing(v2, now, s, payload, offset);
        }
    } else {
        lemma_refusal_keeps_backing(v, now, s);
    }
}

/// Data is sent within the window of the remote and within the congestion window.
/// (Exempt are the probe of a closed window, and a fast retransmission, which only
/// repeats.)
pub proof fn law_window_is_respected(v: TcpView, now: Instant)
    requires
        v.inv(),
        v.tuple is Some,
        !v.pending_fast_retransmit,
        !v.plan(now).is_keep_alive,
        !v.plan(now).is_zero_window_probe,
        v.plan(now).segment.payload.len() > 0,
    ensures
        v.flight_size() + v.plan(now).segment.payload.len() <= v.remote_win_len,
        v.flight_size() + v.plan(now).segment.payload.len()
            <= v.congestion_controller.spec_window(),
        v.plan(now).segment.payload.len() <= v.remote_mss,
{
    reveal(TcpView::next_segment);
    assert(v.tx.data().len() == v.tx.length);
}

/// A closed window is probed with a single octet, the next one to send, which does
/// not count as sent.
pub proof fn law_probe_is_one_octet(v: TcpView, now: Instant)
    requires
        v.inv(),
        v.tuple is Some,
        v.sends_data(),
        v.probes_window(now),
        v.flight_size() < v.tx.length,
        v.effective_mss() > 0,
    ensures
        ({
            let plan = v.plan(now);
            &&& plan.is_zero_window_probe
            &&& plan.segment.payload == seq![v.tx.data()[v.flight_size()]]
            &&& plan.segment.seq_number == v.remote_last_seq
            &&& v.sent(now, plan).remote_last_seq == v.remote_last_seq
        }),
{
    reveal(TcpView::next_segment);
    reveal(TcpView::sent);
    let plan = v.plan(now);
    assert(v.tx.data().len() == v.tx.length);
    assert(v.next_segment(now).payload =~= seq![v.tx.data()[v.flight_size()]]);
    assert(!v.timer.keeps_alive(now));
}

/// By Nagle's algorithm, data that does not fill a segment waits as long as something is
/// in flight, unless it is the last.
pub proof fn law_small_segments_wait(v: TcpView)
    requires
        v.inv(),
        v.nagle,
        v.flight_size() > 0,
        v.max_send() < v.effective_mss(),
        !v.sent_fin(),
        !v.pending_fast_retransmit,
    ensures
        !v.seq_to_transmit(),
{
}

/// An acknowledgement that is held back goes out when its time has come, with whatever
/// else there is to send.
pub proof fn law_acknowledgement_is_not_late(
    v: TcpView,
    at: Instant,
    now: Instant,
    mtu: Option<usize>,
)
    requires
        v.inv(),
        v.tuple is Some,
        v.state != State::SynSent,
        v.ack_to_transmit(),
        v.ack_delay_timer == AckDelayTimer::Waiting(at),
        at.micros <= now.micros,
    ensures
        v.prepared(now, mtu).1 matches Some(plan) && plan.segment.ack_number == Some(
            v.next_ack(),
        ),
{
    reveal(TcpView::prepared);
    reveal(TcpView::wants_to_send);
    reveal(TcpView::next_segment);
}

// ----------------------------------------------------------------------
// Retransmission
// ----------------------------------------------------------------------
/// The third repetition of an acknowledgement asks for a fast retransmission. Nothing
/// else changes that it depends on.
proof fn lemma_third_repetition(v: TcpView, now: Instant, s: Segment)
    requires
        v.inv(),
        v.state == State::Established,
        v.local_rx_dup_acks == 2,
        v.in_window(s),
        v.segment_fits(now, s),
        v.ack_verdict(s) is Accept,
        s.control == TcpControl::Plain,
        v.is_dup_ack(s),
        s.ack_number == Some(v.local_seq_no),
    ensures
        ({
            let again = v.processed(now, s).0;
            &&& again.timer == Timer::FastRetransmit
            &&& again.state == v.state
            &&& again.tuple == v.tuple
            &&& again.tx == v.tx
            &&& again.assembler == v.assembler
            &&& again.local_seq_no == v.local_seq_no
            &&& again.remote_mss == v.remote_mss
            &&& again.ip_mtu == v.ip_mtu
            &&& again.remote_has_sack == v.remote_has_sack
            &&& again.timestamps == v.timestamps
            &&& again.remote_last_ts == Some(now)
        }),
{
    let acked = v.acked_by(s);
    assert(acked.len == 0 && !acked.all);
    assert(v.payload_in_window(s).len() == 0);
    let v1 = v.window_granted(now, s, 0);
    let v2 = v1.ack_noted(now, s, 0, true);
    assert(v2.timer == Timer::FastRetransmit);
    assert(v2.timers_set(now, 0, false).timer == Timer::FastRetransmit);
    assert(v.noted(v, now, s).timer == Timer::FastRetransmit);
}

/// A fast retransmission repeats the oldest octets, as many as fit into a segment.
proof fn lemma_fast_retransmission(v: TcpView, now: Instant, mtu: Option<usize>)
    requires
        v.tx.inv(),
        v.timer == Timer::FastRetransmit,
        v.state == State::Established,
        v.tuple is Some,
        v.remote_last_ts is Some,
        !v.timed_out(now),
        v.tx.length > 0,
        v.with_mtu(mtu).effective_mss() > 0,
    ensures
        ({
            let (_, plan) = v.prepared(now, mtu);
            &&& plan is Some
            &&& plan->0.segment.seq_number == v.local_seq_no
            &&& plan->0.segment.payload == v.tx.data().take(
                egress::min(v.with_mtu(mtu).effective_mss(), v.tx.length),
            )
        }),
{
    reveal(TcpView::prepared);
    reveal(TcpView::wants_to_send);
    reveal(TcpView::next_segment);
    let w = v.ticked(now).with_mtu(mtu);
    let mss = v.with_mtu(mtu).effective_mss();
    assert(w.pending_fast_retransmit && w.tx == v.tx);
    assert(w.wants_to_send(now));
    assert(v.tx.data().len() == v.tx.length);
    assert(w.effective_mss() == mss);
    assert(w.send_payload(now) =~= v.tx.data().take(egress::min(mss, v.tx.length)));
    assert(w.next_segment(now) == w.data_segment(now));
}

/// The third repetition of an acknowledgement makes the socket send the oldest
/// segment again at once, as much of it as the route takes, unless the connection times
/// out.
pub proof fn law_third_repetition_retransmits(
    v: TcpView,
    now: Instant,
    s: Segment,
    mtu: Option<usize>,
)
    requires
        v.inv(),
        v.state == State::Established,
        v.tuple is Some,
        v.local_rx_dup_acks == 2,
        v.in_window(s),
        v.segment_fits(now, s),
        v.ack_verdict(s) is Accept,
        s.control == TcpControl::Plain,
        v.is_dup_ack(s),
        s.ack_number == Some(v.local_seq_no),
        v.tx.length > 0,
        !v.processed(now, s).0.timed_out(now),
        v.with_mtu(mtu).effective_mss() > 0,
    ensures
        ({
            let again = v.processed(now, s).0;
            let (_, plan) = again.prepared(now, mtu);
            &&& again.timer == Timer::FastRetransmit
            &&& plan is Some
            &&& plan->0.segment.seq_number == v.local_seq_no
            &&& plan->0.segment.payload == v.tx.data().take(
                egress::min(v.with_mtu(mtu).effective_mss(), v.tx.length),
            )
        }),
{
    lemma_third_repetition(v, now, s);
    let again = v.processed(now, s).0;
    assert(again.with_mtu(mtu).effective_mss() == v.with_mtu(mtu).effective_mss());
    lemma_fast_retransmission(again, now, mtu);
}

/// When the retransmission timer runs out, everything that has not been acknowledged
/// is sent again, from the oldest octet on.
pub proof fn law_timeout_retransmits_everything(v: TcpView, now: Instant)
    requires
        v.inv(),
        v.timer is Retransmit,
        v.timer.retransmits(now),
        v.remote_last_ts is Some,
        !v.timed_out(now),
    ensures
        v.ticked(now).remote_last_seq == v.local_seq_no,
        v.ticked(now).flight_size() == 0,
        v.ticked(now).tx == v.tx,
{
}

// ----------------------------------------------------------------------
// Time
// ----------------------------------------------------------------------
/// Before the instant at which the socket wants to be asked, by what it knows of the
/// route, it has nothing to send, and asking it changes nothing.
pub proof fn law_nothing_is_sent_early(v: TcpView, now: Instant, mtu: Option<usize>)
    requires
        now.micros < v.with_mtu(mtu).next_poll().micros,
    ensures
        v.prepared(now, mtu).1 is None,
        v.prepared(now, mtu).0 == if v.tuple is Some {
            v.with_mtu(mtu)
        } else {
            v
        },
{
    reveal(TcpView::prepared);
    reveal(TcpView::wants_to_send);
}

/// From that instant on, asking it has an effect.
pub proof fn law_something_is_due(v: TcpView, now: Instant, mtu: Option<usize>)
    requires
        v.with_mtu(mtu).next_poll().micros <= now.micros,
        v.with_mtu(mtu).next_poll().micros < i64::MAX,
    ensures
        v.prepared(now, mtu).1 is Some || v.prepared(now, mtu).0 != v.with_mtu(mtu),
{
    reveal(TcpView::prepared);
    reveal(TcpView::wants_to_send);
}

/// A connection from which nothing arrives for the time configured is given up with
/// a reset.
pub proof fn law_silence_ends_the_connection(v: TcpView, now: Instant, mtu: Option<usize>)
    requires
        v.inv(),
        v.tuple is Some,
        v.remote_last_ts is Some,
        v.timed_out(now),
    ensures
        v.prepared(now, mtu).0.state == State::Closed,
        v.prepared(now, mtu).1 matches Some(plan) && plan.segment.control == TcpControl::Rst,
{
    reveal(TcpView::prepared);
    reveal(TcpView::wants_to_send);
    reveal(TcpView::next_segment);
}

/// A socket in TIME-WAIT stays as it is until ten seconds after its timer was set, and is
/// closed then, unless there is something left to send.
pub proof fn law_time_wait_ends(v: TcpView, since: Instant, now: Instant, mtu: Option<usize>)
    requires
        v.inv(),
        v.tuple is Some,
        v.state == State::TimeWait,
        v.timer == Timer::closing(since),
        v.remote_last_ts is Some,
        !v.timed_out(now),
        !v.with_mtu(mtu).wants_to_send(now),
        since.micros + 10_000_000 <= i64::MAX,
    ensures
        now.micros < since.micros + 10_000_000 ==> v.prepared(now, mtu).0 == v.with_mtu(mtu),
        now.micros >= since.micros + 10_000_000 ==> v.prepared(now, mtu).0 == v.reset(),
        v.prepared(now, mtu).1 is None,
        v.reset().state == State::Closed,
        v.reset().tuple is None,
{
    reveal(TcpView::prepared);
}

/// Giving up a connection forgets it, and keeps what has been configured.
pub proof fn law_reset_keeps_configuration(v: TcpView)
    ensures
        v.reset().state == State::Closed,
        v.reset().tuple is None,
        v.reset().rx.length == 0,
        v.reset().tx.length == 0,
        v.reset().timeout == v.timeout,
        v.reset().keep_alive == v.keep_alive,
        v.reset().hop_limit == v.hop_limit,
        v.reset().ack_delay == v.ack_delay,
        v.reset().nagle == v.nagle,
        v.reset().rx.cap() == v.rx.cap(),
        v.reset().tx.cap() == v.tx.cap(),
        !v.reset().timestamps,
        v.reset().tsval_offset == 0,
        v.reset().reset() == v.reset(),
{
}

// ----------------------------------------------------------------------
// ICMP errors
// ----------------------------------------------------------------------
/// An ICMP error about a segment that is not in flight is ignored; one about a
/// segment in flight is kept for the application. It ends a connection that is being
/// set up, and leaves any other open.
pub proof fn law_errors_concern_the_flight(v: TcpView, error: IcmpError, seq: TcpSeqNumber)
    ensures
        ({
            let w = v.error_reported(error, seq);
            if seq.diff(v.local_seq_no) < 0 || seq.diff(v.remote_last_seq) > 0 {
                w == v
            } else {
                &&& w.icmp_error == Some(error)
                &&& v.sent_syn() ==> w.state == State::Closed && w.tuple is None
                &&& !v.sent_syn() ==> w.state == v.state && w.tuple == v.tuple
            }
        }),
{
}

/// What can happen to a socket with a connection.
pub enum Event {
    /// An ICMP error about the segment with the given sequence number is reported.
    Report(IcmpError, TcpSeqNumber),
    /// A segment arrives.
    Arrival(Instant, Segment),
    /// The socket gets the chance to send, with the MTU of the route, if there is one.
    Turn(Instant, Option<usize>),
    /// The same, but the segment is held back.
    BlockedTurn(Instant, Option<usize>),
    /// Anything that has nothing to do with errors leaves the given socket, which keeps
    /// its error.
    Other(TcpView),
}

/// The socket after an event.
pub open spec fn after(v: TcpView, event: Event) -> TcpView {
    match event {
        Event::Report(error, seq) => v.error_reported(error, seq),
        Event::Arrival(now, s) => v.processed(now, s).0,
        Event::Turn(now, mtu) => match v.prepared(now, mtu) {
            (ready, Some(plan)) => ready.sent(now, plan),
            (ready, None) => ready,
        },
        Event::BlockedTurn(now, mtu) => v.prepared(now, mtu).0,
        Event::Other(w) => TcpView { icmp_error: v.icmp_error, ..w },
    }
}

/// The socket after all events, one after the other.
pub open spec fn after_all(v: TcpView, events: Seq<Event>) -> TcpView
    decreases events.len(),
{
    if events.len() == 0 {
        v
    } else {
        after(after_all(v, events.drop_last()), events.last())
    }
}

/// The event is an error that concerns the connection.
pub open spec fn is_recorded(v: TcpView, event: Event) -> bool {
    event matches Event::Report(_, seq) && seq.diff(v.local_seq_no) >= 0 && seq.diff(
        v.remote_last_seq,
    ) <= 0
}

/// The event gives up the connection: the wait after its end is over.
pub open spec fn is_reset(v: TcpView, event: Event) -> bool {
    let turn = match event {
        Event::Turn(now, mtu) => Some((now, mtu)),
        Event::BlockedTurn(now, mtu) => Some((now, mtu)),
        _ => None,
    };
    turn matches Some((now, mtu)) && v.tuple is Some && v.prepared(now, mtu).1 is None && v.ticked(
        now,
    ).with_mtu(mtu).timer.closes(now)
}

/// The last error recorded since the connection was given up last, if it ever was. Where
/// none has been, what was there at the start is left.
pub open spec fn last_recorded(v: TcpView, events: Seq<Event>) -> Option<IcmpError>
    decreases events.len(),
{
    if events.len() == 0 {
        v.icmp_error
    } else {
        let before = after_all(v, events.drop_last());
        if is_recorded(before, events.last()) {
            Some(events.last()->Report_0)
        } else if is_reset(before, events.last()) {
            None
        } else {
            last_recorded(v, events.drop_last())
        }
    }
}

/// A segment that arrives leaves the error alone.
proof fn lemma_arrival_keeps_error(v: TcpView, now: Instant, s: Segment)
    ensures
        v.processed(now, s).0.icmp_error == v.icmp_error,
{
    assert(v.challenge(now, s).0.icmp_error == v.icmp_error);
    assert(v.out_of_window(now, s).0.icmp_error == v.icmp_error);
    if let Step::Continue(v1) = v.transition(now, s) {
        assert(v1.icmp_error == v.icmp_error);
        let v2 = v1.noted(v, now, s);
        assert(v2.icmp_error == v.icmp_error);
        let payload = v.payload_in_window(s);
        lemma_payload_keeps_error(v2, now, s, payload, v.payload_offset(s));
    }
}

proof fn lemma_payload_keeps_error(
    v: TcpView,
    now: Instant,
    s: Segment,
    payload: Seq<u8>,
    offset: int,
)
    ensures
        v.payload_taken(now, s, payload, offset).0.icmp_error == v.icmp_error,
{
}

/// A turn that does not give up the connection leaves the error alone.
proof fn lemma_turn_keeps_error(v: TcpView, now: Instant, mtu: Option<usize>)
    ensures
        v.prepared(now, mtu).0.icmp_error == if is_reset(v, Event::Turn(now, mtu)) {
            None
        } else {
            v.icmp_error
        },
{
    reveal(TcpView::prepared);
    assert(v.ticked(now).with_mtu(mtu).icmp_error == v.icmp_error);
}

proof fn lemma_sending_keeps_error(v: TcpView, now: Instant, plan: egress::Plan)
    ensures
        v.sent(now, plan).icmp_error == v.icmp_error,
{
    reveal(TcpView::sent);
}

/// Nothing but a report and the end of the connection changes the error.
proof fn lemma_error_stays(v: TcpView, event: Event)
    ensures
        after(v, event).icmp_error == if is_recorded(v, event) {
            Some(event->Report_0)
        } else if is_reset(v, event) {
            None
        } else {
            v.icmp_error
        },
{
    match event {
        Event::Arrival(now, s) => {
            lemma_arrival_keeps_error(v, now, s);
        },
        Event::Turn(now, mtu) => {
            lemma_turn_keeps_error(v, now, mtu);
            let (ready, plan) = v.prepared(now, mtu);
            if plan is Some {
                lemma_sending_keeps_error(ready, now, plan->0);
            }
        },
        Event::BlockedTurn(now, mtu) => {
            lemma_turn_keeps_error(v, now, mtu);
        },
        _ => {},
    }
}

/// Of the errors that have been recorded since an application has last taken one,
/// whatever else has happened, the last one is there to be taken, and only once: a newer
/// error takes the place of an older one, and with none there is nothing to take.
pub proof fn law_last_error_is_taken(v: TcpView, events: Seq<Event>)
    ensures
        ({
            let taken = TcpView { icmp_error: None, ..v };
            let w = after_all(taken, events);
            &&& w.icmp_error == last_recorded(taken, events)
            &&& (forall|i: int|
                0 <= i < events.len() ==> !is_recorded(
                    after_all(taken, #[trigger] events.take(i)),
                    events[i],
                )) ==> w.icmp_error is None
        }),
    decreases events.len(),
{
    let taken = TcpView { icmp_error: None, ..v };
    if events.len() > 0 {
        let fewer = events.drop_last();
        law_last_error_is_taken(v, fewer);
        lemma_error_stays(after_all(taken, fewer), events.last());
        if forall|i: int|
            0 <= i < events.len() ==> !is_recorded(
                after_all(taken, #[trigger] events.take(i)),
                events[i],
            ) {
            assert(events.take(events.len() - 1) =~= fewer);
            assert forall|i: int| 0 <= i < fewer.len() implies !is_recorded(
                after_all(taken, #[trigger] fewer.take(i)),
                fewer[i],
            ) by {
                assert(fewer.take(i) =~= events.take(i));
            }
        }
    }
}

// ----------------------------------------------------------------------
// Connecting
// ----------------------------------------------------------------------
/// A connection that is started goes to the remote that was asked for, from the address
/// and the port that were given, if they were, and no other socket of the stack connects
/// the same two endpoints. An attempt fails for want of a port only if all of them are
/// taken, and as a duplicate only if it is one.
pub proof fn law_connection_is_unique<'d>(
    slots: Seq<Option<TcpSocketState<'d>>>,
    i: int,
    net: NetView,
    remote: IpEndpoint,
    local: IpListenEndpoint,
)
    ensures
        match socket::connect_outcome(slots, i, net, remote, local) {
            ConnectOutcome::Started { tuple, .. } => {
                &&& !socket::tuple_in_use(slots, i, tuple)
                &&& tuple.remote == remote
                &&& tuple.local.port != 0
                &&& local.port != 0 ==> tuple.local.port == local.port
                &&& local.concrete_addr() matches Some(addr) ==> tuple.local.addr == addr
            },
            ConnectOutcome::NoPort => forall|port: u16|
                port >= stack::EPHEMERAL_PORT_MIN ==> #[trigger] socket::port_taken(
                    slots,
                    i,
                    socket::connect_addr(net, remote, local)->0,
                    remote,
                )(port),
            ConnectOutcome::Refused(e) => e == ConnectError::InUse ==> socket::tuple_in_use(
                slots,
                i,
                Tuple {
                    local: IpEndpoint {
                        addr: socket::connect_addr(net, remote, local)->0,
                        port: local.port,
                    },
                    remote,
                },
            ),
        },
{
    if let Some(addr) = socket::connect_addr(net, remote, local) {
        stack::law_port_is_free(
            net.inner.rand.next().value(),
            socket::port_taken(slots, i, addr, remote),
        );
    }
}

/// A connection that is answered is established: the answer to a SYN that
/// acknowledges it sets the receive position to what follows the SYN of the remote.
pub proof fn law_answered_syn_establishes(v: TcpView, now: Instant, s: Segment)
    requires
        v.inv(),
        v.state == State::SynSent,
        s.control == TcpControl::Syn,
        s.ack_number == Some(v.local_seq_no.plus(1)),
        s.payload.len() == 0,
    ensures
        v.processed(now, s).0.state == State::Established,
        v.processed(now, s).0.remote_seq_no == s.seq_number.plus(1),
        v.processed(now, s).0.local_seq_no == v.local_seq_no.plus(1),
        v.processed(now, s).0.remote_has_sack == s.sack_permitted,
        v.processed(now, s).0.remote_win_scale == s.window_scale,
        v.processed(now, s).0.timestamps == (s.timestamp is Some),
        v.processed(now, s).1 is None,
{
}

/// An attempt that is accepted is answered with a SYN that acknowledges it.
pub proof fn law_accepted_attempt_is_answered(
    v: TcpView,
    syn: PendingSyn,
    seq: TcpSeqNumber,
    tsval_offset: u32,
    now: Instant,
)
    requires
        v.core_inv(),
        listener::scale_is_allowed(syn),
    ensures
        ({
            let a = v.accepting(syn, seq, tsval_offset);
            let s = a.plan(now).segment;
            &&& a.inv()
            &&& a.state == State::SynReceived
            &&& a.tuple == Some(syn.tuple)
            &&& a.wants_to_send(now)
            &&& s.control == TcpControl::Syn
            &&& s.seq_number == seq
            &&& s.ack_number == Some(syn.seq_number.plus(1))
            &&& s.sack_permitted == syn.sack_permitted
            &&& s.window_scale is Some <==> syn.window_scale is Some
            &&& s.timestamp is Some <==> syn.timestamp is Some
        }),
{
    egress::lemma_reset_inv(v);
    reveal(TcpView::next_segment);
    reveal(TcpView::wants_to_send);
}

/// Two sockets that have shaken hands number both streams alike: what the client sends
/// next is what the server expects next, and the other way round.
pub proof fn law_handshake_aligns(
    client: TcpView,
    server: TcpView,
    seq: TcpSeqNumber,
    tsval_offset: u32,
    sent_at: Instant,
    answered_at: Instant,
    now: Instant,
)
    requires
        client.inv(),
        client.tuple is Some,
        client.state == State::SynSent,
        client.remote_win_shift <= MAX_WIN_SHIFT,
        !client.plan(sent_at).is_keep_alive,
        server.core_inv(),
    ensures
        ({
            let t = client.tuple->0;
            let hello = client.plan(sent_at).segment;
            let waiting = client.sent(sent_at, client.plan(sent_at));
            let syn = listener::attempt(t.local.addr, t.remote.addr, hello);
            let a = server.accepting(syn, seq, tsval_offset);
            let answer = a.plan(answered_at).segment;
            let b = waiting.processed(now, answer).0;
            &&& waiting.takes(t.remote.addr, t.local.addr, answer)
            &&& b.state == State::Established
            &&& b.local_seq_no == a.remote_seq_no
            &&& b.remote_seq_no == a.local_seq_no.plus(1)
        }),
{
    let t = client.tuple->0;
    let hello = client.plan(sent_at).segment;
    reveal(TcpView::next_segment);
    reveal(TcpView::sent);
    let waiting = client.sent(sent_at, client.plan(sent_at));
    let syn = listener::attempt(t.local.addr, t.remote.addr, hello);
    law_accepted_attempt_is_answered(server, syn, seq, tsval_offset, answered_at);
    let answer = server.accepting(syn, seq, tsval_offset).plan(answered_at).segment;
    egress::lemma_sent_inv(client, sent_at, sent_at);
    law_answered_syn_establishes(waiting, now, answer);
}

} // verus!
