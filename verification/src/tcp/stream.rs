//! What a connection is for: the octets that one end sends are those that the other
//! end receives, in the same order, whatever becomes of the segments in between.
//!
//! A stream is a function from positions to octets. A sender is at the position of
//! its oldest octet that has not been acknowledged, a receiver at that of its oldest
//! octet that has not been read.
use super::model::{self, Step, TcpView};
use super::repr::{Segment, TcpControl};
use super::{State, MAX_WIN_SHIFT};
use crate::storage::assembler;
use crate::storage::slices;
use crate::time::Instant;
use vstd::prelude::*;

verus! {

/// Everything that `v` has received, in order or behind a hole, is part of the
/// stream. Reading starts at position `pos`.
pub open spec fn receives(v: TcpView, stream: spec_fn(int) -> u8, pos: int) -> bool {
    &&& forall|i: int| 0 <= i < v.rx.length ==> #[trigger] v.rx.data()[i] == stream(pos + i)
    &&& forall|x: int| #[trigger]
        assembler::covers(v.assembler, x) ==> v.rx.free()[x] == stream(pos + v.rx.length + x)
}

/// The payload of `s` is part of the stream, by the reckoning of a receiver at
/// position `pos`.
pub open spec fn carries(v: TcpView, s: Segment, stream: spec_fn(int) -> u8, pos: int) -> bool {
    forall|i: int|
        0 <= i < s.payload.len() ==> #[trigger] s.payload[i] == stream(
            pos + s.seq_number.diff(v.remote_seq_no) + i,
        )
}

/// Everything in the transmit buffer is part of the stream, from position `pos` on.
pub open spec fn sends(v: TcpView, stream: spec_fn(int) -> u8, pos: int) -> bool {
    forall|i: int| 0 <= i < v.tx.length ==> #[trigger] v.tx.data()[i] == stream(pos + i)
}

/// Sender `a` and receiver `b` number the octets of their stream alike, and are less
/// far apart than sequence numbers can tell.
pub open spec fn aligned(a: TcpView, pos_a: int, b: TcpView, pos_b: int) -> bool {
    &&& a.local_seq_no == b.remote_seq_no.plus(pos_a - pos_b)
    &&& i32::MIN <= pos_a - pos_b
    &&& pos_a - pos_b + a.tx.length + 1 <= i32::MAX
}

/// The number of octets that a segment removes from the transmit buffer.
pub open spec fn octets_acked(v: TcpView, now: Instant, s: Segment) -> int {
    if v.is_acceptable(s) && v.transition(now, s) is Continue {
        v.acked_by(s).len
    } else {
        0
    }
}

/// What is held behind a hole lies in the free part of the buffer.
proof fn lemma_held_is_free(v: TcpView, x: int)
    requires
        v.core_inv(),
        assembler::covers(v.assembler, x),
    ensures
        0 <= x < v.rx.window(),
{
    let r = v.assembler;
    let i = choose|i: int| 0 <= i < r.len() && (#[trigger] r[i]).0 <= x < r[i].1;
    if i < r.len() - 1 {
        assert(r[i].1 < r[r.len() - 1].0);
        assert(r[r.len() - 1].0 < r[r.len() - 1].1);
    }
}

/// The part of a segment in the window belongs where it is put.
proof fn lemma_payload_position(
    v: TcpView,
    now: Instant,
    s: Segment,
    stream: spec_fn(int) -> u8,
    pos: int,
)
    requires
        v.inv(),
        v.state != State::SynSent,
        v.is_acceptable(s),
        v.segment_fits(now, s),
        v.payload_offset(s) + v.payload_in_window(s).len() <= v.rx.window(),
        s.payload.len() < i32::MAX,
        carries(v, s, stream, pos),
    ensures
        forall|j: int|
            0 <= j < v.payload_in_window(s).len() ==> #[trigger] v.payload_in_window(s)[j]
                == stream(pos + v.rx.length + v.payload_offset(s) + j),
{
    let p = v.payload_in_window(s);
    let from = v.overlap_start(s).diff(s.seq_number);
    assert(from + s.seq_number.diff(v.remote_seq_no) == v.rx.length + v.payload_offset(s));
    assert forall|j: int| 0 <= j < p.len() implies #[trigger] p[j] == stream(
        pos + v.rx.length + v.payload_offset(s) + j,
    ) by {
        assert(p[j] == s.payload[from + j]);
    }
}

/// Placing payload where it belongs.
proof fn lemma_payload_taken(
    v: TcpView,
    now: Instant,
    s: Segment,
    payload: Seq<u8>,
    offset: int,
    stream: spec_fn(int) -> u8,
    pos: int,
)
    requires
        v.inv(),
        0 <= offset,
        offset + payload.len() <= usize::MAX,
        receives(v, stream, pos),
        payload.len() > 0 && assembler::assemble(
            v.assembler,
            offset as usize,
            payload.len() as usize,
        ).1 is Ok ==> {
            &&& offset + payload.len() <= v.rx.window()
            &&& forall|j: int|
                0 <= j < payload.len() ==> #[trigger] payload[j] == stream(
                    pos + v.rx.length + offset + j,
                )
        },
    ensures
        receives(v.payload_taken(now, s, payload, offset).0, stream, pos),
        v.payload_taken(now, s, payload, offset).0.remote_seq_no == v.remote_seq_no,
{
    if payload.len() > 0 {
        let size = payload.len() as usize;
        let (held, outcome) = assembler::assemble(v.assembler, offset as usize, size);
        if let Ok(contig) = outcome {
            let n = contig as int;
            let v1 = v.payload_placed(s.seq_number, payload, offset, held, n);
            assembler::law_assemble(v.assembler, offset as usize, size);
            model::lemma_assembled_in_window(v.assembler, offset as usize, size, v.rx.window());
            v.rx.law_written_behind_queue(offset, payload);
            let w = v.rx.written(offset, payload);
            w.law_grown_takes_free(n);
            let free = slices::splice(v.rx.free(), offset, payload);
            assert forall|x: int|
                assembler::covers(v.assembler, x) || offset <= x < offset + size implies free[x]
                == stream(pos + v.rx.length + x) by {
                if offset <= x < offset + size {
                    assert(free[x] == payload[x - offset]);
                } else {
                    lemma_held_is_free(v, x);
                    assert(free[x] == v.rx.free()[x]);
                }
            }
            assert forall|i: int| 0 <= i < v1.rx.length implies #[trigger] v1.rx.data()[i]
                == stream(pos + i) by {
                if i < v.rx.length {
                    assert(v1.rx.data()[i] == v.rx.data()[i]);
                } else {
                    let x = i - v.rx.length;
                    assert(v1.rx.data()[i] == free[x]);
                    assert(assembler::covers(v.assembler, x) || offset <= x < offset + size);
                }
            }
            assert forall|x: int| #[trigger] assembler::covers(v1.assembler, x) implies v1.rx.free(
            )[x] == stream(pos + v1.rx.length + x) by {
                let y = x + n;
                assert(assembler::covers(held, y - n));
                assert(0 <= x) by {
                    let i = choose|i: int|
                        0 <= i < held.len() && (#[trigger] held[i]).0 <= x < held[i].1;
                }
                assert(assembler::covers(v.assembler, y) || offset <= y < offset + size);
                if assembler::covers(v.assembler, y) {
                    lemma_held_is_free(v, y);
                }
                assert(v1.rx.free()[x] == free[y]);
            }
            assert(receives(v1, stream, pos));
        }
    }
}

/// Whatever segments arrive, in whatever order, however often and however cut, as
/// long as they carry parts of the stream, a receiver has received the stream and
/// nothing else.
pub proof fn law_stream_is_received(
    v: TcpView,
    now: Instant,
    s: Segment,
    stream: spec_fn(int) -> u8,
    pos: int,
)
    requires
        v.inv(),
        v.awaits_data(),
        v.segment_fits(now, s),
        v.measurement_fits(now, s),
        s.window_scale matches Some(scale) ==> scale <= MAX_WIN_SHIFT,
        s.payload.len() < i32::MAX,
        receives(v, stream, pos),
        carries(v, s, stream, pos),
    ensures
        receives(v.processed(now, s).0, stream, pos),
        v.processed(now, s).0.awaits_data() ==> v.processed(now, s).0.remote_seq_no
            == v.remote_seq_no,
{
    if v.ack_verdict(s) is Accept && v.in_window(s) {
        if let Step::Continue(v1) = v.transition(now, s) {
            model::lemma_accepted(v, now, s);
            let v2 = v1.noted(v, now, s);
            assert(v2.rx == v.rx && v2.assembler == v.assembler);
            assert(v2.remote_seq_no == v1.remote_seq_no);
            if v.payload_offset(s) + v.payload_in_window(s).len() <= v.rx.window() {
                lemma_payload_position(v, now, s, stream, pos);
            }
            lemma_payload_taken(
                v2,
                now,
                s,
                v.payload_in_window(s),
                v.payload_offset(s),
                stream,
                pos,
            );
            assert(v2.payload_taken(now, s, v.payload_in_window(s), v.payload_offset(s)).0.state
                == v1.state);
        }
    }
}

/// The segment that is expected next is taken in at once, as far as the window goes,
/// and counts as received.
pub proof fn law_expected_segment_is_taken(v: TcpView, now: Instant, s: Segment)
    requires
        v.inv(),
        v.awaits_data(),
        v.ack_verdict(s) is Accept,
        v.in_window(s),
        v.segment_fits(now, s),
        v.measurement_fits(now, s),
        s.window_scale matches Some(scale) ==> scale <= MAX_WIN_SHIFT,
        0 < s.payload.len() < i32::MAX,
        s.control == TcpControl::Plain || s.control == TcpControl::Psh,
        s.seq_number == v.next_ack(),
        v.assembler.len() == 0,
    ensures
        v.processed(now, s).0.rx.data() == v.rx.data() + v.payload_in_window(s),
        v.payload_in_window(s).len() > 0,
        v.processed(now, s).0.next_ack() == v.next_ack().plus(
            v.payload_in_window(s).len() as int,
        ),
{
    let v1 = v.transition(now, s)->Continue_0;
    let payload = v.payload_in_window(s);
    model::lemma_accepted(v, now, s);
    let v2 = v1.noted(v, now, s);
    assert(v2.rx == v.rx && v2.assembler == v.assembler);
    assert(v.payload_offset(s) == 0);
    model::lemma_scale_up(v.remote_last_win, v.remote_win_shift);
    assert(payload.len() > 0);
    let n = payload.len() as usize;
    let (held, outcome) = assembler::assemble(v.assembler, 0, n);
    reveal_with_fuel(assembler::insert_range, 2);
    assert(outcome is Ok);
    assembler::law_assemble(v.assembler, 0, n);
    model::lemma_assembled_in_window(v.assembler, 0, n, v.rx.window());
    assert(held.len() == 0);
    v.rx.law_written_behind_queue(0, payload);
    v.rx.written(0, payload).law_grown_takes_free(n as int);
    assert(slices::splice(v.rx.free(), 0, payload).take(n as int) =~= payload);
}

/// The end of the stream counts only once everything before it has arrived: the receive
/// buffer then reaches up to it.
pub proof fn law_finished_stream_is_complete(v: TcpView, now: Instant, s: Segment)
    requires
        v.inv(),
        v.awaits_data(),
        v.segment_fits(now, s),
        v.measurement_fits(now, s),
        s.window_scale matches Some(scale) ==> scale <= MAX_WIN_SHIFT,
        s.payload.len() < i32::MAX,
        !v.rx_fin_received,
        v.processed(now, s).0.rx_fin_received,
    ensures
        s.control == TcpControl::Fin,
        ({
            let end = s.seq_number.plus(s.payload.len() as int);
            0 <= end.diff(v.next_ack()) <= v.processed(now, s).0.rx.length - v.rx.length
        }),
{
    assert(v.challenge(now, s).0.rx_fin_received == v.rx_fin_received);
    assert(v.out_of_window(now, s).0.rx_fin_received == v.rx_fin_received);
    assert(v.is_acceptable(s));
    assert(v.transition(now, s) is Continue);
    let v1 = v.transition(now, s)->Continue_0;
    let v2 = v1.noted(v, now, s);
    let payload = v.payload_in_window(s);
    let offset = v.payload_offset(s);
    model::lemma_accepted(v, now, s);
    model::lemma_scale_up(v.remote_last_win, v.remote_win_shift);
    assert(v2.rx_fin_received == v1.rx_fin_received);
    assert(v2.payload_taken(now, s, payload, offset).0.rx_fin_received == v2.rx_fin_received);
    assert(v2.rx == v.rx && v2.assembler == v.assembler);
    assert(v.effective_control(s) == TcpControl::Fin);
    assert(offset == 0);
    let end = s.seq_number.plus(s.payload.len() as int);
    assert(end.diff(v.next_ack()) == payload.len());
    if payload.len() > 0 {
        let n = payload.len() as usize;
        assembler::law_assemble(v.assembler, 0, n);
        let contig = assembler::assemble(v.assembler, 0, n).1->Ok_0;
        assert(contig >= n);
    }
}

/// What is read is the stream from where reading had got to, and reading goes on
/// behind it.
pub proof fn law_stream_is_read(v: TcpView, n: int, stream: spec_fn(int) -> u8, pos: int)
    requires
        v.inv(),
        0 <= n <= v.rx.length,
        receives(v, stream, pos),
    ensures
        receives(v.consumed(v.rx.shrunk(n), n), stream, pos + n),
        forall|i: int| 0 <= i < n ==> #[trigger] v.rx.data().take(n)[i] == stream(pos + i),
{
    let v1 = v.consumed(v.rx.shrunk(n), n);
    v.rx.law_dequeued_leaves_front(n);
    assert forall|i: int| 0 <= i < v1.rx.length implies #[trigger] v1.rx.data()[i] == stream(
        pos + n + i,
    ) by {
        assert(v1.rx.data()[i] == v.rx.data()[n + i]);
    }
    assert forall|x: int| #[trigger] assembler::covers(v1.assembler, x) implies v1.rx.free()[x]
        == stream(pos + n + v1.rx.length + x) by {
        lemma_held_is_free(v, x);
        assert(v1.rx.free()[x] == v.rx.free()[x]);
    }
    assert forall|i: int| 0 <= i < n implies #[trigger] v.rx.data().take(n)[i] == stream(
        pos + i,
    ) by {
        assert(v.rx.data().take(n)[i] == v.rx.data()[i]);
    }
}

/// What is written follows what has been written before.
pub proof fn law_stream_is_written(v: TcpView, d: Seq<u8>, stream: spec_fn(int) -> u8, pos: int)
    requires
        v.inv(),
        d.len() <= v.tx.window(),
        sends(v, stream, pos),
        forall|j: int| 0 <= j < d.len() ==> #[trigger] d[j] == stream(pos + v.tx.length + j),
    ensures
        sends(
            v.queued(v.tx.rewound().written(0, d).grown(d.len() as int), d.len() as int),
            stream,
            pos,
        ),
{
    v.tx.law_enqueued_comes_last(d);
    let v1 = v.queued(v.tx.rewound().written(0, d).grown(d.len() as int), d.len() as int);
    assert(v1.tx.data() == v.tx.data() + d);
    assert forall|i: int| 0 <= i < v1.tx.length implies #[trigger] v1.tx.data()[i] == stream(
        pos + i,
    ) by {
        if i >= v.tx.length {
            assert(v1.tx.data()[i] == d[i - v.tx.length]);
        } else {
            assert(v1.tx.data()[i] == v.tx.data()[i]);
        }
    }
}

/// Every segment that is sent, for the first time or again, carries the stream, each
/// octet with the sequence number that belongs to it. The octet of a keep-alive is no
/// part of the stream.
pub proof fn law_stream_is_sent(v: TcpView, now: Instant, stream: spec_fn(int) -> u8, pos: int)
    requires
        v.inv(),
        v.tuple is Some,
        sends(v, stream, pos),
        !v.plan(now).is_keep_alive,
    ensures
        ({
            let s = v.plan(now).segment;
            forall|i: int|
                0 <= i < s.payload.len() ==> #[trigger] s.payload[i] == stream(
                    pos + s.seq_number.diff(v.local_seq_no) + i,
                )
        }),
        0 <= v.plan(now).segment.payload.len() <= v.tx.length,
        v.plan(now).segment.payload.len() > 0 ==> 0 <= v.plan(now).segment.seq_number.diff(
            v.local_seq_no,
        ) <= v.tx.length,
{
    reveal(TcpView::next_segment);
    let s = v.plan(now).segment;
    assert(s == v.next_segment(now));
    if v.state != State::Closed && !v.sent_syn() && v.sends_data() {
        let from = v.send_offset();
        assert(v.tx.data().len() == v.tx.length);
        assert(s.seq_number.diff(v.local_seq_no) == from);
        assert forall|i: int| 0 <= i < s.payload.len() implies #[trigger] s.payload[i] == stream(
            pos + s.seq_number.diff(v.local_seq_no) + i,
        ) by {
            assert(s.payload[i] == v.tx.data()[from + i]);
        }
    }
}

/// What is acknowledged leaves the front of the transmit buffer, and nothing else
/// does: the sender moves on in the stream by just as much. Without a SYN or a FIN in
/// flight, its sequence number moves on by just as much, too.
pub proof fn law_stream_is_acknowledged(
    v: TcpView,
    now: Instant,
    s: Segment,
    stream: spec_fn(int) -> u8,
    pos: int,
)
    requires
        v.inv(),
        v.segment_fits(now, s),
        v.measurement_fits(now, s),
        s.window_scale matches Some(scale) ==> scale <= MAX_WIN_SHIFT,
        s.payload.len() < i32::MAX,
        sends(v, stream, pos),
    ensures
        0 <= octets_acked(v, now, s) <= v.tx.length,
        v.processed(now, s).0.tx.data() == v.tx.data().skip(octets_acked(v, now, s)),
        sends(v.processed(now, s).0, stream, pos + octets_acked(v, now, s)),
        !v.sent_syn() && !v.sent_fin() ==> v.processed(now, s).0.local_seq_no
            == v.local_seq_no.plus(octets_acked(v, now, s)),
{
    let n = octets_acked(v, now, s);
    let v3 = v.processed(now, s).0;
    if v.ack_verdict(s) is Accept {
        model::lemma_acked_within_tx(v, s);
    }
    v.tx.law_dequeued_leaves_front(n);
    assert(v.tx.data().skip(0) =~= v.tx.data());
    if v.is_acceptable(s) && v.transition(now, s) is Continue {
        let v1 = v.transition(now, s)->Continue_0;
        let v2 = v1.noted(v, now, s);
        assert(v1.tx == v.tx);
        assert(v2.tx == if n > 0 {
            v.tx.shrunk(n)
        } else {
            v.tx
        });
        assert(v3.tx == v2.tx);
        assert(v3.local_seq_no == v2.local_seq_no);
    } else {
        assert(v3.tx == v.tx);
        assert(v3.local_seq_no == v.local_seq_no);
    }
    assert forall|i: int| 0 <= i < v3.tx.length implies #[trigger] v3.tx.data()[i] == stream(
        pos + n + i,
    ) by {
        assert(v3.tx.data()[i] == v.tx.data()[n + i]);
    }
}

/// The segments of a sender are parts of the stream to an aligned receiver.
pub proof fn law_sent_is_understood(
    a: TcpView,
    pos_a: int,
    b: TcpView,
    pos_b: int,
    now: Instant,
    stream: spec_fn(int) -> u8,
)
    requires
        a.inv(),
        a.tuple is Some,
        sends(a, stream, pos_a),
        !a.plan(now).is_keep_alive,
        aligned(a, pos_a, b, pos_b),
    ensures
        carries(b, a.plan(now).segment, stream, pos_b),
{
    law_stream_is_sent(a, now, stream, pos_a);
    let s = a.plan(now).segment;
    if s.payload.len() > 0 {
        assert(s.seq_number.diff(b.remote_seq_no) == s.seq_number.diff(a.local_seq_no) + pos_a
            - pos_b);
    }
}

/// A segment of a sender, whenever it gets to the receiver of the stream, leaves it
/// with the stream.
pub proof fn law_stream_is_delivered(
    a: TcpView,
    pos_a: int,
    b: TcpView,
    pos_b: int,
    sent_at: Instant,
    now: Instant,
    stream: spec_fn(int) -> u8,
)
    requires
        a.inv(),
        a.tuple is Some,
        sends(a, stream, pos_a),
        !a.plan(sent_at).is_keep_alive,
        aligned(a, pos_a, b, pos_b),
        b.inv(),
        b.awaits_data(),
        receives(b, stream, pos_b),
        b.segment_fits(now, a.plan(sent_at).segment),
        b.measurement_fits(now, a.plan(sent_at).segment),
        a.plan(sent_at).segment.window_scale matches Some(scale) ==> scale <= MAX_WIN_SHIFT,
    ensures
        receives(b.processed(now, a.plan(sent_at).segment).0, stream, pos_b),
{
    law_stream_is_sent(a, sent_at, stream, pos_a);
    law_sent_is_understood(a, pos_a, b, pos_b, sent_at, stream);
    law_stream_is_received(b, now, a.plan(sent_at).segment, stream, pos_b);
}

} // verus!
