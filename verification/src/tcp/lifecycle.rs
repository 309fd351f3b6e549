//! How a connection begins and ends, and what its user sees of it.
use super::arrivals;
use super::errors::{ConnectError, RecvError};
use super::listener::{self, ListenerView, PendingSyn, TcpListenerState};
use super::model::{self, TcpView};
use super::repr::{Segment, TcpControl};
use super::socket::{self, ConnectOutcome};
use super::state::{self, TcpSocketState};
use super::timer::Timer;
use super::{State, Tuple};
use crate::matching;
use crate::stack;
use crate::stack::NetView;
use crate::storage::slab;
use crate::storage::RingView;
use crate::time::Instant;
use crate::wire::{IpAddress, IpEndpoint, IpListenEndpoint, Ipv4Address, Ipv6Address, TcpSeqNumber};
use vstd::prelude::*;

verus! {

/// The size of segments that a remote takes in, by what its SYN says: nothing and zero
/// leave it as it was, and anything below 48 octets counts as 48.
pub open spec fn announced_mss(option: Option<u16>, before: usize) -> int {
    match option {
        None => before as int,
        Some(mss) => if mss == 0 {
            before as int
        } else if mss < 48 {
            48
        } else {
            mss as int
        },
    }
}

/// The SYN of the remote sets the terms of the connection: where its stream starts, the
/// size of its segments, its window, and which of the options that we have offered are
/// used. If it acknowledges our SYN, the connection is established; if not, ours has
/// crossed it on the way. What it says is yet to be acknowledged.
pub proof fn law_syn_sets_the_terms(v: TcpView, now: Instant, s: Segment)
    requires
        v.inv(),
        v.state == State::SynSent,
        s.control == TcpControl::Syn,
        s.ack_number is None || s.ack_number == Some(v.local_seq_no.plus(1)),
        s.window_scale matches Some(scale) ==> scale <= 14,
    ensures
        ({
            let (w, reply) = v.processed(now, s);
            &&& reply is None
            &&& s.ack_number is Some ==> w.state == State::Established && w.local_seq_no
                == v.local_seq_no.plus(1)
            &&& s.ack_number is None ==> w.state == State::SynReceived && w.local_seq_no
                == v.local_seq_no
            &&& w.rx == v.rx
            &&& arrivals::expected(w) == s.seq_number.plus(1)
            &&& w.remote_last_ack == Some(s.seq_number)
            &&& w.remote_mss == announced_mss(s.max_seg_size, v.remote_mss)
            &&& w.remote_win_len == s.window_len
            &&& w.remote_win_scale == s.window_scale
            &&& s.window_scale is Some ==> w.remote_win_shift == v.remote_win_shift
            &&& s.window_scale is None ==> w.remote_win_shift == 0
            &&& w.remote_has_sack == s.sack_permitted
            &&& w.timestamps == (s.timestamp is Some)
            &&& s.timestamp is Some ==> w.last_remote_tsval == s.timestamp->0.tsval
            &&& w.tuple == v.tuple
        }),
{
    arrivals::law_peer_window_is_scaled(v, now, s);
    assert(v.rx.length == 0);
    assert(v.payload_in_window(s).len() == 0);
}

/// An attempt that is accepted sets the same terms. The socket answers from the given
/// sequence number on, and nothing of a connection before is left.
pub proof fn law_attempt_sets_the_terms(
    v: TcpView,
    syn: PendingSyn,
    seq: TcpSeqNumber,
    tsval_offset: u32,
)
    ensures
        ({
            let w = v.accepting(syn, seq, tsval_offset);
            &&& w.state == State::SynReceived
            &&& w.tuple == Some(syn.tuple)
            &&& w.local_seq_no == seq
            &&& w.remote_last_seq == seq
            &&& w.rx.length == 0
            &&& w.tx.length == 0
            &&& w.remote_seq_no == syn.seq_number.plus(1)
            &&& w.remote_mss == announced_mss(syn.max_seg_size, 536)
            &&& w.remote_win_len == syn.window_len
            &&& w.remote_win_scale == syn.window_scale
            &&& syn.window_scale is None ==> w.remote_win_shift == 0
            &&& syn.window_scale is Some ==> w.remote_win_shift
                == super::egress::own_shift(v.rx.cap())
            &&& w.remote_has_sack == syn.sack_permitted
            &&& w.timestamps == (syn.timestamp is Some)
            &&& syn.timestamp matches Some(t) ==> w.last_remote_tsval == t.tsval
            &&& w.tsval_offset == tsval_offset
            &&& w.rtte.rto == 1000
            &&& w.timer == (Timer::Idle { keep_alive_at: None })
            &&& w.icmp_error is None
            &&& !w.rx_fin_received
            &&& w.remote_last_ack is None
            &&& w.timeout == v.timeout
            &&& w.keep_alive == v.keep_alive
            &&& w.hop_limit == v.hop_limit
            &&& w.ack_delay == v.ack_delay
            &&& w.nagle == v.nagle
        }),
{
}

/// A connection that has been answered with a SYN is established once that SYN is
/// acknowledged.
pub proof fn law_acknowledged_syn_establishes(v: TcpView, now: Instant, s: Segment)
    requires
        v.inv(),
        v.state == State::SynReceived,
        arrivals::window_left(v) >= 0,
        s.seq_number == arrivals::expected(v),
        s.payload.len() == 0,
        s.control == TcpControl::Plain || s.control == TcpControl::Psh,
        s.ack_number == Some(v.local_seq_no.plus(1)),
    ensures
        ({
            let (w, reply) = v.processed(now, s);
            &&& w.state == State::Established
            &&& w.local_seq_no == v.local_seq_no.plus(1)
            &&& w.tx == v.tx
            &&& w.tuple == v.tuple
            &&& reply is None
        }),
{
    arrivals::lemma_window_facts(v);
    assert(v.in_window(s));
    assert(v.effective_control(s) == TcpControl::Plain);
    assert(v.overlap_start(s) == s.seq_number);
    assert(v.overlap_end(s) == s.seq_number);
    assert(v.payload_in_window(s).len() == 0);
    assert(v.acked_by(s).len == 0);
}

/// A connection starts with a SYN from the given sequence number on, and offers
/// timestamps. Nothing of a connection before is left, and what has been configured is
/// kept.
pub proof fn law_connection_starts_afresh(
    v: TcpView,
    tuple: Tuple,
    seq: TcpSeqNumber,
    tsval_offset: u32,
)
    ensures
        ({
            let w = v.connecting(tuple, seq, tsval_offset);
            &&& w.state == State::SynSent
            &&& w.tuple == Some(tuple)
            &&& w.local_seq_no == seq
            &&& w.remote_last_seq == seq
            &&& w.timestamps
            &&& w.tsval_offset == tsval_offset
            &&& w.rx.length == 0
            &&& w.tx.length == 0
            &&& w.assembler.len() == 0
            &&& w.remote_last_ack is None
            &&& w.icmp_error is None
            &&& !w.rx_fin_received
            &&& !w.pending_fast_retransmit
            &&& w.timer == (Timer::Idle { keep_alive_at: None })
            &&& w.rtte.rto == 1000
            &&& !w.rtte.have_measurement
            &&& w.remote_mss == 536
            &&& w.remote_win_len == 0
            &&& w.timeout == v.timeout
            &&& w.keep_alive == v.keep_alive
            &&& w.hop_limit == v.hop_limit
            &&& w.ack_delay == v.ack_delay
            &&& w.nagle == v.nagle
        }),
{
}

/// Why an attempt to connect is refused: the socket has a connection already, there is no
/// address or port to connect to, there is no address to connect from, or the connection
/// exists. A port that is allocated is one of those from 49152 on.
pub proof fn law_connecting_fails_for_a_reason<'d>(
    slots: Seq<Option<TcpSocketState<'d>>>,
    i: int,
    net: NetView,
    remote: IpEndpoint,
    local: IpListenEndpoint,
)
    ensures
        ({
            let outcome = socket::connect_outcome(slots, i, net, remote, local);
            let state = slots[i]->0@.state;
            let busy = state != State::Closed && state != State::TimeWait;
            let nowhere = remote.port == 0 || remote.addr == IpAddress::Ipv4(Ipv4Address(0))
                || remote.addr == IpAddress::Ipv6(Ipv6Address(0));
            let concrete = local.addr is Some && local.addr != Some(
                IpAddress::Ipv4(Ipv4Address(0)),
            ) && local.addr != Some(IpAddress::Ipv6(Ipv6Address(0)));
            let mixed = !concrete && local.addr is Some && (local.addr->0 is Ipv4
                != remote.addr is Ipv4);
            &&& busy <==> outcome == ConnectOutcome::Refused(ConnectError::InvalidState)
            &&& !busy && nowhere ==> outcome == ConnectOutcome::Refused(ConnectError::Unaddressable)
            &&& !busy && mixed ==> outcome == ConnectOutcome::Refused(ConnectError::Unaddressable)
            &&& !busy && !nowhere && !concrete && net.source(remote.addr) is None ==> outcome
                == ConnectOutcome::Refused(ConnectError::Unaddressable)
            &&& !busy && !nowhere && !mixed && (concrete || net.source(remote.addr) is Some)
                ==> outcome != ConnectOutcome::Refused(ConnectError::Unaddressable)
            &&& outcome matches ConnectOutcome::Started { tuple, allocated } ==> {
                &&& allocated <==> local.port == 0
                &&& allocated ==> tuple.local.port >= 49152
                &&& concrete ==> Some(tuple.local.addr) == local.addr
                &&& !concrete ==> Some(tuple.local.addr) == net.source(remote.addr)
            }
        }),
{
    if let Some(addr) = socket::connect_addr(net, remote, local) {
        stack::law_port_is_free(
            net.inner.rand.next().value(),
            socket::port_taken(slots, i, addr, remote),
        );
    }
}

/// Closing ends what is sent, and only that: what has been written is still sent, what
/// arrives is still received, and the remote is told by a FIN. A connection that has not
/// been answered is given up.
pub proof fn law_closing_ends_sending(v: TcpView)
    ensures
        ({
            let w = v.closed();
            &&& !w.may_send()
            &&& w.tx == v.tx
            &&& w.rx == v.rx
            &&& w.tuple == v.tuple
            &&& v.state == State::Established || v.state == State::SynReceived ==> w.state
                == State::FinWait1
            &&& v.state == State::CloseWait ==> w.state == State::LastAck
            &&& v.state == State::SynSent ==> w.state == State::Closed
            &&& v.state != State::Established && v.state != State::SynReceived && v.state
                != State::CloseWait && v.state != State::SynSent ==> w == v
            &&& w.closed() == w
            &&& v.state == State::Established ==> w.may_recv()
        }),
{
}

/// Data can be written while the transmit half is open, that is, from when the connection
/// is established until it is closed here.
pub proof fn law_writing_needs_an_open_half(v: TcpView)
    ensures
        v.may_send() <==> v.state == State::Established || v.state == State::CloseWait,
        v.is_open() <==> v.state != State::Closed && v.state != State::TimeWait,
{
}

/// Nothing can be received only if there is nothing left, and either the remote has said
/// that nothing will follow, or there is no connection from which anything could.
pub proof fn law_reading_ends_with_the_stream(v: TcpView)
    ensures
        ({
            let open = v.state == State::Established || v.state == State::FinWait1 || v.state
                == State::FinWait2;
            &&& v.recv_error() is None <==> open || v.rx.length > 0
            &&& v.recv_error() == Some(RecvError::Finished) <==> !open && v.rx.length <= 0
                && v.rx_fin_received
            &&& v.recv_error() == Some(RecvError::InvalidState) <==> !open && v.rx.length <= 0
                && !v.rx_fin_received
        }),
{
}

/// Reading makes room, and does not change what is expected next.
pub proof fn law_reading_makes_room(v: TcpView, n: int)
    requires
        v.inv(),
        0 <= n <= v.rx.length,
    ensures
        ({
            let w = v.consumed(v.rx.shrunk(n), n);
            &&& arrivals::expected(w) == arrivals::expected(v)
            &&& w.rx.window() == v.rx.window() + n
            &&& w.rx.data() == v.rx.data().skip(n)
            &&& w.tx == v.tx
            &&& w.state == v.state
            &&& w.remote_last_ack == v.remote_last_ack
        }),
{
    v.rx.law_dequeued_leaves_front(n);
}

/// Writing to a connection that had nothing to send lets its timeout count anew, and
/// probes the window at once if the remote grants none.
pub proof fn law_writing_starts_the_timers(v: TcpView, tx: RingView<u8>, size: int)
    ensures
        ({
            let w = v.queued(tx, size);
            &&& w.tx == tx
            &&& size > 0 && v.tx.length == 0 ==> w.remote_last_ts is None
            &&& size > 0 && v.tx.length > 0 ==> w.remote_last_ts == v.remote_last_ts
            &&& size > 0 && v.remote_win_len == 0 && v.timer is Idle ==> (w.timer
                matches Timer::ZeroWindowProbe { expires_at, delay } && expires_at.micros
                == v.rtte.rto * 1000 && delay.micros == v.rtte.rto * 1000)
            &&& v.remote_win_len > 0 || v.timer !is Idle ==> w.timer == v.timer
            &&& size <= 0 ==> w == (TcpView { tx, ..v })
            &&& w.rx == v.rx
            &&& w.state == v.state
            &&& w.local_seq_no == v.local_seq_no
            &&& w.remote_last_seq == v.remote_last_seq
        }),
{
}

/// A segment belongs to the connection between its two ends, as long as that is not
/// closed.
pub proof fn law_segment_belongs_to_its_ends(v: TcpView, src: IpAddress, dst: IpAddress, s: Segment)
    ensures
        v.takes(src, dst, s) <==> v.state != State::Closed && (v.tuple matches Some(t)
            && t.local.addr == dst && t.local.port == s.dst_port && t.remote.addr == src
            && t.remote.port == s.src_port),
{
}

/// A segment to nobody is refused with a reset, from the place to which it was sent. The
/// reset has the sequence number that the segment acknowledges. A bare SYN acknowledges
/// nothing, and is acknowledged with all that it occupies.
pub proof fn law_refusal_answers_the_segment(s: Segment)
    ensures
        ({
            let r = s.rst_reply();
            let n = s.payload.len() + if s.control == TcpControl::Syn || s.control
                == TcpControl::Fin {
                1int
            } else {
                0
            };
            &&& r.control == TcpControl::Rst
            &&& r.src_port == s.dst_port
            &&& r.dst_port == s.src_port
            &&& r.payload.len() == 0
            &&& s.ack_number matches Some(ack) ==> r.seq_number == ack && r.ack_number is None
            &&& s.ack_number is None ==> r.seq_number == TcpSeqNumber(0)
            &&& s.ack_number is None && s.control == TcpControl::Syn ==> r.ack_number == Some(
                s.seq_number.plus(n),
            )
            &&& s.ack_number is None && s.control != TcpControl::Syn ==> r.ack_number is None
            &&& r.max_seg_size is None
            &&& r.window_scale is None
            &&& !r.sack_permitted
            &&& r.timestamp is None
        }),
{
}

/// An ICMP error goes to the connection between the two ends of the segment it is about,
/// and to no other.
pub proof fn law_error_finds_its_connection<'d>(
    slots: Seq<Option<TcpSocketState<'d>>>,
    local: IpEndpoint,
    remote: IpEndpoint,
    k: int,
)
    requires
        slots.len() <= usize::MAX,
        0 <= k < slots.len(),
    ensures
        ({
            let found = state::connection(slots, 0, local, remote);
            let fits = |j: int|
                slots[j] is Some && slots[j]->0.state != State::Closed && slots[j]->0.tuple == Some(
                    Tuple { local, remote },
                );
            &&& found matches Some(i) ==> i < slots.len() && fits(i as int)
            &&& fits(k) ==> (found matches Some(i) && i <= k)
        }),
{
    lemma_connection(slots, 0, local, remote, k);
}

proof fn lemma_connection<'d>(
    slots: Seq<Option<TcpSocketState<'d>>>,
    from: int,
    local: IpEndpoint,
    remote: IpEndpoint,
    k: int,
)
    requires
        slots.len() <= usize::MAX,
        0 <= from <= slots.len(),
        0 <= k < slots.len(),
    ensures
        ({
            let found = state::connection(slots, from, local, remote);
            &&& found matches Some(i) ==> from <= i < slots.len() && state::is_connection(
                slots,
                i as int,
                local,
                remote,
            )
            &&& from <= k && state::is_connection(slots, k, local, remote) ==> (found matches Some(i)
                && i <= k)
        }),
    decreases slots.len() - from,
{
    if from < slots.len() {
        lemma_connection(slots, from + 1, local, remote, k);
    }
}

/// The listener listens for connections to the given address and port.
pub open spec fn listens_for(l: ListenerView, dst: IpAddress, port: u16) -> bool {
    &&& l.endpoint.port == port
    &&& port != 0
    &&& match l.endpoint.addr {
        None => true,
        Some(IpAddress::Ipv4(own)) => dst is Ipv4 && (own.0 == 0 || dst == IpAddress::Ipv4(own)),
        Some(IpAddress::Ipv6(own)) => dst is Ipv6 && (own.0 == 0 || dst == IpAddress::Ipv6(own)),
    }
}

/// An attempt goes to a listener that listens for it, if there is one. One that listens on
/// exactly its address comes before one that listens on all of its version, and that before
/// one that listens on all addresses.
pub proof fn law_attempt_finds_a_listener(
    slots: Seq<Option<TcpListenerState>>,
    dst: IpAddress,
    port: u16,
    k: int,
)
    requires
        slots.len() <= usize::MAX,
        0 <= k < slots.len(),
        dst != IpAddress::Ipv4(Ipv4Address(0)),
        dst != IpAddress::Ipv6(Ipv6Address(0)),
    ensures
        match matching::winner(listener::scores(slots, dst, port)) {
            Some((i, _)) => {
                &&& i < slots.len()
                &&& slots[i as int] is Some
                &&& listens_for(slots[i as int]->0@, dst, port)
                &&& slots[k] is Some && listens_for(slots[k]->0@, dst, port) ==> {
                    let found = slots[i as int]->0@.endpoint.addr;
                    let other = slots[k]->0@.endpoint.addr;
                    &&& other == Some(dst) ==> found == Some(dst)
                    &&& other is Some ==> found is Some
                }
            },
            None => !(slots[k] is Some && listens_for(slots[k]->0@, dst, port)),
        },
{
    let n = listener::scores(slots, dst, port);
    matching::law_best_fit_wins(n, n.len() as int);
    if slots[k] is Some {
        assert(n[k] == slots[k]->0@.score(dst, port));
    } else {
        assert(n[k] is None);
    }
    if let Some((i, _)) = matching::winner(n) {
        assert(n[i as int] is Some);
    }
}

/// An attempt is what its SYN says, between the address and port that it came from and
/// those that it went to.
pub proof fn law_attempt_is_its_syn(src: IpAddress, dst: IpAddress, s: Segment)
    ensures
        ({
            let a = listener::attempt(src, dst, s);
            &&& a.tuple.local == (IpEndpoint { addr: dst, port: s.dst_port })
            &&& a.tuple.remote == (IpEndpoint { addr: src, port: s.src_port })
            &&& a.seq_number == s.seq_number
            &&& a.window_len == s.window_len
            &&& a.window_scale == s.window_scale
            &&& a.max_seg_size == s.max_seg_size
            &&& a.sack_permitted == s.sack_permitted
            &&& a.timestamp == s.timestamp
        }),
{
}

proof fn lemma_position(queue: Seq<PendingSyn>, tuple: Tuple)
    ensures
        0 <= listener::position(queue, tuple) <= queue.len(),
        listener::position(queue, tuple) < queue.len() ==> queue[listener::position(
            queue,
            tuple,
        )].tuple == tuple,
        forall|i: int|
            0 <= i < listener::position(queue, tuple) ==> (#[trigger] queue[i]).tuple != tuple,
    decreases queue.len(),
{
    if queue.len() > 0 && queue[0].tuple != tuple {
        lemma_position(queue.skip(1), tuple);
        assert forall|i: int| 0 <= i < listener::position(queue, tuple) implies (
        #[trigger] queue[i]).tuple != tuple by {
            if i > 0 {
                assert(queue.skip(1)[i - 1] == queue[i]);
            }
        }
    }
}

/// A listener keeps up to four attempts in the order in which they came. One that comes
/// again takes the place of the one before, and the others stay as they are.
pub proof fn law_attempts_wait_in_order(v: ListenerView, syn: PendingSyn, at: int)
    requires
        v.inv(),
        0 <= at < v.queue.len(),
    ensures
        ({
            let w = v.noted(syn);
            let is_new = forall|i: int|
                0 <= i < v.queue.len() ==> (#[trigger] v.queue[i]).tuple != syn.tuple;
            &&& w.endpoint == v.endpoint
            &&& is_new && v.queue.len() < 4 ==> w.queue == v.queue.push(syn)
            &&& is_new && v.queue.len() >= 4 ==> w == v
            &&& v.queue[at].tuple == syn.tuple ==> w.queue == v.queue.update(at, syn)
        }),
{
    lemma_position(v.queue, syn.tuple);
    let p = listener::position(v.queue, syn.tuple);
    if v.queue[at].tuple == syn.tuple {
        assert(p <= at);
        assert(p == at) by {
            if p < at {
                assert(v.queue[p].tuple != v.queue[at].tuple);
            }
        }
    }
}

/// A reset withdraws the attempt between its two ends, but only with exactly the sequence
/// number that follows its SYN, and leaves the other attempts as they are. Without such an
/// attempt there is nothing to withdraw.
pub proof fn law_reset_withdraws_its_attempt(
    slots: Seq<Option<TcpListenerState>>,
    tuple: Tuple,
    seq: TcpSeqNumber,
    k: int,
    at: int,
)
    requires
        slots.len() <= usize::MAX,
        listener::listeners_inv(slots),
        0 <= k < slots.len(),
        slots[k] is Some,
        0 <= at < slots[k]->0@.queue.len(),
        slots[k]->0@.queue[at].tuple == tuple,
    ensures
        ({
            let v = slots[k]->0@;
            let found = listener::expecting(slots, 0, tuple, seq);
            &&& v.withdrawn(tuple).queue == v.queue.remove(at)
            &&& v.withdrawn(tuple).endpoint == v.endpoint
            &&& v.queue[at].seq_number.plus(1) == seq ==> (found matches Some(i) && i <= k)
            &&& found == Some(k as usize) ==> v.queue[at].seq_number.plus(1) == seq
        }),
{
    let v = slots[k]->0@;
    assert(slab::occupied(slots, k));
    lemma_position(v.queue, tuple);
    let p = listener::position(v.queue, tuple);
    assert(p == at) by {
        if p < at {
            assert(v.queue[p].tuple != v.queue[at].tuple);
        }
    }
    lemma_expecting(slots, 0, tuple, seq, k);
}

proof fn lemma_expecting(
    slots: Seq<Option<TcpListenerState>>,
    from: int,
    tuple: Tuple,
    seq: TcpSeqNumber,
    k: int,
)
    requires
        slots.len() <= usize::MAX,
        0 <= from <= slots.len(),
        0 <= k < slots.len(),
    ensures
        ({
            let found = listener::expecting(slots, from, tuple, seq);
            &&& found matches Some(i) ==> from <= i < slots.len() && slab::occupied(slots, i as int)
                && slots[i as int]->0@.expects(tuple, seq)
            &&& from <= k && slab::occupied(slots, k) && slots[k]->0@.expects(tuple, seq) ==> (found
                matches Some(i) && i <= k)
        }),
    decreases slots.len() - from,
{
    if from < slots.len() {
        lemma_expecting(slots, from + 1, tuple, seq, k);
    }
}

/// A random number becomes the sequence number with the same thirty-two bits.
pub proof fn law_every_sequence_number_can_be_drawn(value: u32)
    ensures
        (socket::as_seq(value).0 - value) % 0x1_0000_0000 == 0,
{
    assert(value <= 0x7fff_ffff ==> (value as i32) == value) by (bit_vector);
    assert(value > 0x7fff_ffff ==> (value as i32) == value - 0x1_0000_0000) by (bit_vector);
}

/// No two sockets connect the same two ends: a connection starts only if no other socket
/// has it, is refused as a duplicate only if one has, and finds no port only if for every
/// port from 49152 on one has.
pub proof fn law_connections_are_not_shared<'d>(
    slots: Seq<Option<TcpSocketState<'d>>>,
    i: int,
    net: NetView,
    remote: IpEndpoint,
    local: IpListenEndpoint,
    k: int,
    port: u16,
)
    requires
        0 <= k < slots.len(),
        port >= 49152,
    ensures
        match socket::connect_outcome(slots, i, net, remote, local) {
            ConnectOutcome::Started { tuple, .. } => k != i && slots[k] is Some ==> slots[k]->0.tuple
                != Some(tuple),
            ConnectOutcome::NoPort => exists|j: int|
                0 <= j < slots.len() && j != i && (#[trigger] slots[j]) is Some && (
                slots[j]->0.tuple matches Some(t) && t.remote == remote && t.local.port == port),
            ConnectOutcome::Refused(ConnectError::InUse) => exists|j: int|
                0 <= j < slots.len() && j != i && (#[trigger] slots[j]) is Some && (
                slots[j]->0.tuple matches Some(t) && t.remote == remote && t.local.port
                    == local.port),
            _ => true,
        },
{
    if let Some(addr) = socket::connect_addr(net, remote, local) {
        let taken = socket::port_taken(slots, i, addr, remote);
        stack::law_port_is_free(net.inner.rand.next().value(), taken);
        if slots[k] is Some {
            assert(slab::occupied(slots, k));
        }
        match socket::connect_outcome(slots, i, net, remote, local) {
            ConnectOutcome::NoPort => {
                assert(taken(port));
                let tuple = Tuple { local: IpEndpoint { addr, port }, remote };
                let j = choose|j: int|
                    j != i && #[trigger] slab::occupied(slots, j) && slots[j]->0.tuple == Some(
                        tuple,
                    );
                assert(slots[j] is Some);
            },
            ConnectOutcome::Refused(ConnectError::InUse) => {
                let tuple = Tuple { local: IpEndpoint { addr, port: local.port }, remote };
                let j = choose|j: int|
                    j != i && #[trigger] slab::occupied(slots, j) && slots[j]->0.tuple == Some(
                        tuple,
                    );
                assert(slots[j] is Some);
            },
            _ => {},
        }
    }
}

/// An endpoint is in use if another listener listens on exactly it.
pub proof fn law_endpoint_is_used_by_another(
    slots: Seq<Option<TcpListenerState>>,
    i: int,
    endpoint: IpListenEndpoint,
)
    ensures
        listener::endpoint_in_use(slots, i, endpoint) <==> exists|k: int|
            0 <= k < slots.len() && k != i && (#[trigger] slots[k]) is Some
                && slots[k]->0@.endpoint == endpoint,
{
    if listener::endpoint_in_use(slots, i, endpoint) {
        let k = choose|k: int|
            k != i && #[trigger] slab::occupied(slots, k) && slots[k]->0.endpoint == endpoint;
        assert(slots[k] is Some && slots[k]->0@.endpoint == endpoint);
    }
    if exists|k: int|
        0 <= k < slots.len() && k != i && (#[trigger] slots[k]) is Some && slots[k]->0@.endpoint
            == endpoint {
        let k = choose|k: int|
            0 <= k < slots.len() && k != i && (#[trigger] slots[k]) is Some
                && slots[k]->0@.endpoint == endpoint;
        assert(slab::occupied(slots, k));
    }
}

/// Accepting takes the oldest attempt, and the others move up.
pub proof fn law_oldest_attempt_is_taken(v: ListenerView, i: int)
    requires
        0 <= i < v.queue.len() - 1,
    ensures
        v.taken().queue.len() == v.queue.len() - 1,
        v.taken().queue[i] == v.queue[i + 1],
        v.taken().endpoint == v.endpoint,
{
}

/// A listener that has been closed listens for nothing, and keeps no attempt.
pub proof fn law_closed_listener_listens_for_nothing(dst: IpAddress, port: u16)
    ensures
        ListenerView::initial().score(dst, port) is None,
        ListenerView::initial().queue.len() == 0,
        ListenerView::initial().endpoint.port == 0,
{
}

} // verus!
