//! TCP sockets as the application sees them.
use super::errors::{ConnectError, RecvError, SendError};
use super::model::TcpView;
use super::state::TcpSocketState;
use super::timer::Timer;
use super::{State, Tuple};
use crate::icmp_error::IcmpError;
use crate::rand::Rand;
use crate::stack;
use crate::stack::{alloc_ephemeral_port, NetView, TxContext};
use crate::storage::slab;
use crate::storage::slices;
use crate::storage::{Full, RingView, Slab};
use crate::time::{Duration, Instant};
use crate::wire::{IpAddress, IpEndpoint, IpListenEndpoint, TcpSeqNumber};
use core::task::Waker;
use vstd::prelude::*;
use vstd::string::StringSliceAdditionalSpecFns;

verus! {

/// The number of TCP sockets that a stack has room for.
pub const TCP_SOCKET_COUNT: usize = 4;

/// A TCP socket, borrowed from its stack. It represents a single connection.
pub struct TcpSocket<'a, 'd> {
    pub sockets: &'a mut Slab<TcpSocketState<'d>, TCP_SOCKET_COUNT>,
    pub index: usize,
    pub tx: TxContext<'a>,
}

/// Every socket is sound.
pub open spec fn sockets_inv<'d>(slots: Seq<Option<TcpSocketState<'d>>>) -> bool {
    forall|i: int| #[trigger] slab::occupied(slots, i) ==> slots[i]->0.inv()
}

/// Another socket than number `i` connects the same two endpoints.
pub open spec fn tuple_in_use<'d>(
    slots: Seq<Option<TcpSocketState<'d>>>,
    i: int,
    tuple: Tuple,
) -> bool {
    exists|k: int|
        k != i && #[trigger] slab::occupied(slots, k) && slots[k]->0.tuple == Some(tuple)
}

/// What becomes of an attempt to connect.
pub enum ConnectOutcome {
    /// It is refused.
    Refused(ConnectError),
    /// No port is free.
    NoPort,
    /// It starts, from a port that was given or allocated.
    Started { tuple: Tuple, allocated: bool },
}

/// The local address of a connection.
pub open spec fn connect_addr(
    net: NetView,
    remote: IpEndpoint,
    local: IpListenEndpoint,
) -> Option<IpAddress> {
    match local.concrete_addr() {
        Some(addr) => Some(addr),
        None => if local.version() matches Some(version) && version != remote.addr.version() {
            None
        } else {
            net.source(remote.addr)
        },
    }
}

/// What becomes of an attempt to connect socket number `i`.
pub open spec fn connect_outcome<'d>(
    slots: Seq<Option<TcpSocketState<'d>>>,
    i: int,
    net: NetView,
    remote: IpEndpoint,
    local: IpListenEndpoint,
) -> ConnectOutcome {
    if slots[i]->0@.is_open() {
        ConnectOutcome::Refused(ConnectError::InvalidState)
    } else if remote.port == 0 || remote.addr.is_unspecified() {
        ConnectOutcome::Refused(ConnectError::Unaddressable)
    } else {
        match connect_addr(net, remote, local) {
            None => ConnectOutcome::Refused(ConnectError::Unaddressable),
            Some(addr) => if local.port != 0 {
                let tuple = Tuple { local: IpEndpoint { addr, port: local.port }, remote };
                if tuple_in_use(slots, i, tuple) {
                    ConnectOutcome::Refused(ConnectError::InUse)
                } else {
                    ConnectOutcome::Started { tuple, allocated: false }
                }
            } else {
                match stack::free_port(
                    net.inner.rand.next().value(),
                    0,
                    port_taken(slots, i, addr, remote),
                ) {
                    None => ConnectOutcome::NoPort,
                    Some(port) => ConnectOutcome::Started {
                        tuple: Tuple { local: IpEndpoint { addr, port }, remote },
                        allocated: true,
                    },
                }
            },
        }
    }
}

/// A connection from the given address and port would duplicate another.
pub open spec fn port_taken<'d>(
    slots: Seq<Option<TcpSocketState<'d>>>,
    i: int,
    addr: IpAddress,
    remote: IpEndpoint,
) -> spec_fn(u16) -> bool {
    |port: u16| tuple_in_use(slots, i, Tuple { local: IpEndpoint { addr, port }, remote })
}

/// A random number as a sequence number.
pub open spec fn as_seq(value: u32) -> TcpSeqNumber {
    TcpSeqNumber(value as i32)
}

impl TcpView {
    /// The socket at the start of a connection.
    pub open spec fn connecting(self, tuple: Tuple, seq: TcpSeqNumber, tsval_offset: u32) -> TcpView {
        TcpView {
            tuple: Some(tuple),
            state: State::SynSent,
            local_seq_no: seq,
            remote_last_seq: seq,
            timestamps: true,
            tsval_offset,
            ..self.reset()
        }
    }

    /// Closing the transmit half.
    pub open spec fn closed(self) -> TcpView {
        match self.state {
            State::SynSent => self.with_state(State::Closed),
            State::SynReceived | State::Established => self.with_state(State::FinWait1),
            State::CloseWait => self.with_state(State::LastAck),
            _ => self,
        }
    }

    /// The transmit half is open.
    pub open spec fn may_send(self) -> bool {
        self.state == State::Established || self.state == State::CloseWait
    }

    /// The receive half is open, or there is something left to receive.
    pub open spec fn may_recv(self) -> bool {
        ||| self.state == State::Established
        ||| self.state == State::FinWait1
        ||| self.state == State::FinWait2
        ||| self.rx.length > 0
    }

    /// Why nothing can be received, if so.
    pub open spec fn recv_error(self) -> Option<RecvError> {
        if self.may_recv() {
            None
        } else if self.rx_fin_received {
            Some(RecvError::Finished)
        } else {
            Some(RecvError::InvalidState)
        }
    }

    /// `size` octets have been added to the transmit buffer, which is `tx` now. An
    /// idle connection starts counting its timeout anew, and a closed window is
    /// probed at once.
    pub open spec fn queued(self, tx: RingView<u8>, size: int) -> TcpView {
        if size > 0 {
            TcpView {
                tx,
                remote_last_ts: if self.tx.length == 0 {
                    None
                } else {
                    self.remote_last_ts
                },
                timer: if self.remote_win_len == 0 && self.timer is Idle {
                    Timer::probing(Instant { micros: 0 }, self.rtte.timeout())
                } else {
                    self.timer
                },
                ..self
            }
        } else {
            TcpView { tx, ..self }
        }
    }

    /// `size` octets have been taken from the receive buffer, which is `rx` now.
    pub open spec fn consumed(self, rx: RingView<u8>, size: int) -> TcpView {
        TcpView { rx, remote_seq_no: self.remote_seq_no.plus(size), ..self }
    }
}

/// Taking from the receive buffer keeps the invariant, and does not change what is
/// expected next.
proof fn lemma_consumed_inv(v: TcpView, rx: RingView<u8>, size: int)
    requires
        v.inv(),
        0 <= size <= v.rx.length,
        rx.inv(),
        rx.cap() == v.rx.cap(),
        rx.length == v.rx.length - size,
    ensures
        v.consumed(rx, size).inv(),
        v.consumed(rx, size).next_ack() == v.next_ack(),
{
}

/// Adding to the transmit buffer keeps the invariant.
proof fn lemma_queued_inv(v: TcpView, tx: RingView<u8>, size: int)
    requires
        v.inv(),
        0 <= size,
        tx.inv(),
        tx.cap() == v.tx.cap(),
        tx.length == v.tx.length + size,
    ensures
        v.queued(tx, size).inv(),
{
}

/// A change of state on behalf of the application keeps the invariant.
proof fn lemma_closed_inv(v: TcpView)
    requires
        v.inv(),
    ensures
        v.closed().inv(),
        v.with_state(State::Closed).inv(),
{
}

/// A connection starts with the invariant.
proof fn lemma_connecting_inv(v: TcpView, tuple: Tuple, seq: TcpSeqNumber, tsval_offset: u32)
    requires
        v.inv(),
    ensures
        v.connecting(tuple, seq, tsval_offset).inv(),
{
    super::egress::lemma_reset_inv(v);
}

/// A random initial sequence number.
pub fn random_seq_no(rand: &mut Rand) -> (r: TcpSeqNumber)
    ensures
        *final(rand) == old(rand).next(),
        r == as_seq(old(rand).next().value()),
{
    let value: u32 = rand.rand_u32();
    TcpSeqNumber(#[verifier::truncate] (value as i32))
}

/// Whether another socket than number `index` connects the same two endpoints.
fn slots_use_tuple<'d>(
    sockets: &Slab<TcpSocketState<'d>, TCP_SOCKET_COUNT>,
    index: usize,
    tuple: Tuple,
) -> (r: bool)
    ensures
        r == tuple_in_use(sockets@, index as int, tuple),
{
    let mut i: usize = 0;
    while i < sockets.len()
        invariant
            i <= sockets@.len(),
            forall|k: int|
                k < i && k != index && #[trigger] slab::occupied(sockets@, k) ==> sockets@[k]->0.tuple
                    != Some(tuple),
        decreases sockets@.len() - i,
    {
        if i != index && sockets.is_occupied(i) {
            if let Some(other) = sockets.get(i).tuple {
                if other == tuple {
                    assert(slab::occupied(sockets@, i as int));
                    return true;
                }
            }
        }
        i = i + 1;
    }
    false
}

impl<'a, 'd> TcpSocket<'a, 'd> {
    /// The sockets of the stack.
    pub open spec fn slots(&self) -> Seq<Option<TcpSocketState<'d>>> {
        self.sockets@
    }

    /// This socket.
    pub open spec fn socket(&self) -> TcpView {
        self.sockets@[self.index as int]->0@
    }

    /// What there is to send with.
    pub open spec fn net(&self) -> NetView {
        self.tx@
    }

    pub open spec fn inv(&self) -> bool {
        &&& self.slots().len() <= TCP_SOCKET_COUNT
        &&& slab::occupied(self.slots(), self.index as int)
        &&& sockets_inv(self.slots())
        &&& self.net().inv()
    }

    /// This socket's state.
    fn inner(&self) -> (r: &TcpSocketState<'d>)
        requires
            self.inv(),
        ensures
            r@ == self.socket(),
            r.inv(),
            *r == self.slots()[self.index as int]->0,
    {
        self.sockets.get(self.index)
    }

    /// This socket's state, mutably.
    fn inner_mut(&mut self) -> (r: &mut TcpSocketState<'d>)
        requires
            old(self).inv(),
        ensures
            r@ == old(self).socket(),
            r.inv(),
            final(self).index == old(self).index,
            final(self).tx == old(self).tx,
            *final(final(self).sockets) == *final(old(self).sockets),
            final(self).slots() == old(self).slots().update(
                old(self).index as int,
                Some(*final(r)),
            ),
            final(r).inv() ==> final(self).inv(),
            final(self).socket() == final(r)@,
            slab::only_changed(old(self).slots(), final(self).slots(), old(self).index),
    {
        let ghost slots = self.slots();
        let index: usize = self.index;
        assert forall|st: TcpSocketState<'d>| #[trigger] st.inv() implies sockets_inv(
            slots.update(index as int, Some(st)),
        ) by {
            let u = slots.update(index as int, Some(st));
            assert forall|i: int| #[trigger] slab::occupied(u, i) implies u[i]->0.inv() by {
                if i != index {
                    assert(slab::occupied(slots, i));
                }
            }
        }
        self.sockets.get_mut(index)
    }

    /// Registers a waker for receive operations, in place of any other. It is woken
    /// once, on the next change of state that might affect them.
    pub fn register_recv_waker(&mut self, waker: &Waker)
        requires
            old(self).inv(),
        ensures
            final(self).inv(),
            final(self).index == old(self).index,
            final(self).tx == old(self).tx,
            *final(final(self).sockets) == *final(old(self).sockets),
            slab::only_changed(old(self).slots(), final(self).slots(), old(self).index),
            final(self).socket().rx_waker matches Some(kept) && cloned(*waker, kept),
            final(self).socket() == (TcpView {
                rx_waker: final(self).socket().rx_waker,
                ..old(self).socket()
            }),
    {
        self.inner_mut().rx_waker.register(waker);
    }

    /// Registers a waker for send operations, in place of any other. It is woken
    /// once, on the next change of state that might affect them.
    pub fn register_send_waker(&mut self, waker: &Waker)
        requires
            old(self).inv(),
        ensures
            final(self).inv(),
            final(self).index == old(self).index,
            final(self).tx == old(self).tx,
            *final(final(self).sockets) == *final(old(self).sockets),
            slab::only_changed(old(self).slots(), final(self).slots(), old(self).index),
            final(self).socket().tx_waker matches Some(kept) && cloned(*waker, kept),
            final(self).socket() == (TcpView {
                tx_waker: final(self).socket().tx_waker,
                ..old(self).socket()
            }),
    {
        self.inner_mut().tx_waker.register(waker);
    }

    /// The timeout duration.
    pub fn timeout(&self) -> (r: Option<Duration>)
        requires
            self.inv(),
        ensures
            r == self.socket().timeout,
    {
        self.inner().timeout
    }

    /// The ACK delay duration.
    pub fn ack_delay(&self) -> (r: Option<Duration>)
        requires
            self.inv(),
        ensures
            r == self.socket().ack_delay,
    {
        self.inner().ack_delay
    }

    /// Whether Nagle's algorithm is enabled.
    pub fn nagle_enabled(&self) -> (r: bool)
        requires
            self.inv(),
        ensures
            r == self.socket().nagle,
    {
        self.inner().nagle
    }

    /// Sets the timeout duration. The connection is aborted if the remote does not
    /// answer within it, while it is being established or there is data to send, or
    /// does not answer keep-alives within it.
    pub fn set_timeout(&mut self, duration: Option<Duration>)
        requires
            old(self).inv(),
        ensures
            final(self).inv(),
            final(self).index == old(self).index,
            final(self).tx == old(self).tx,
            *final(final(self).sockets) == *final(old(self).sockets),
            slab::only_changed(old(self).slots(), final(self).slots(), old(self).index),
            final(self).socket() == (TcpView { timeout: duration, ..old(self).socket() }),
    {
        self.inner_mut().timeout = duration;
    }

    /// Sets the ACK delay duration.
    pub fn set_ack_delay(&mut self, duration: Option<Duration>)
        requires
            old(self).inv(),
        ensures
            final(self).inv(),
            final(self).index == old(self).index,
            final(self).tx == old(self).tx,
            *final(final(self).sockets) == *final(old(self).sockets),
            slab::only_changed(old(self).slots(), final(self).slots(), old(self).index),
            final(self).socket() == (TcpView { ack_delay: duration, ..old(self).socket() }),
    {
        self.inner_mut().ack_delay = duration;
    }

    /// Enables or disables Nagle's algorithm, which keeps segments that are not full
    /// back as long as there is data in flight.
    pub fn set_nagle_enabled(&mut self, enabled: bool)
        requires
            old(self).inv(),
        ensures
            final(self).inv(),
            final(self).index == old(self).index,
            final(self).tx == old(self).tx,
            *final(final(self).sockets) == *final(old(self).sockets),
            slab::only_changed(old(self).slots(), final(self).slots(), old(self).index),
            final(self).socket() == (TcpView { nagle: enabled, ..old(self).socket() }),
    {
        self.inner_mut().nagle = enabled;
    }

    /// The keep-alive interval.
    pub fn keep_alive(&self) -> (r: Option<Duration>)
        requires
            self.inv(),
        ensures
            r == self.socket().keep_alive,
    {
        self.inner().keep_alive
    }

    /// Sets the keep-alive interval, after which an idle connection sends a segment
    /// that the remote has to answer.
    pub fn set_keep_alive(&mut self, interval: Option<Duration>)
        requires
            old(self).inv(),
        ensures
            final(self).inv(),
            final(self).index == old(self).index,
            final(self).tx == old(self).tx,
            *final(final(self).sockets) == *final(old(self).sockets),
            slab::only_changed(old(self).slots(), final(self).slots(), old(self).index),
            final(self).socket() == (TcpView {
                keep_alive: interval,
                timer: if interval is Some {
                    old(self).socket().timer.with_keep_alive()
                } else {
                    old(self).socket().timer
                },
                ..old(self).socket()
            }),
    {
        let s = self.inner_mut();
        s.keep_alive = interval;
        if interval.is_some() {
            // Without this, an idle connection would not notice before the next
            // segment.
            s.timer.set_keep_alive();
        }
    }

    /// The hop limit of outgoing packets, if it has been set.
    pub fn hop_limit(&self) -> (r: Option<u8>)
        requires
            self.inv(),
        ensures
            r == self.socket().hop_limit,
    {
        self.inner().hop_limit
    }

    /// Sets the hop limit of outgoing packets, which is 64 otherwise. Zero is not a hop
    /// limit (RFC 1122).
    pub fn set_hop_limit(&mut self, hop_limit: Option<u8>)
        requires
            old(self).inv(),
            hop_limit != Some(0u8),
        ensures
            final(self).inv(),
            final(self).index == old(self).index,
            final(self).tx == old(self).tx,
            *final(final(self).sockets) == *final(old(self).sockets),
            slab::only_changed(old(self).slots(), final(self).slots(), old(self).index),
            final(self).socket() == (TcpView { hop_limit, ..old(self).socket() }),
    {
        self.inner_mut().hop_limit = hop_limit;
    }

    /// The local endpoint, if connected.
    pub fn local_endpoint(&self) -> (r: Option<IpEndpoint>)
        requires
            self.inv(),
        ensures
            r == match self.socket().tuple {
                Some(tuple) => Some(tuple.local),
                None => None,
            },
    {
        match self.inner().tuple {
            Some(tuple) => Some(tuple.local),
            None => None,
        }
    }

    /// The remote endpoint, if connected.
    pub fn remote_endpoint(&self) -> (r: Option<IpEndpoint>)
        requires
            self.inv(),
        ensures
            r == match self.socket().tuple {
                Some(tuple) => Some(tuple.remote),
                None => None,
            },
    {
        match self.inner().tuple {
            Some(tuple) => Some(tuple.remote),
            None => None,
        }
    }

    /// The connection state.
    pub fn state(&self) -> (r: State)
        requires
            self.inv(),
        ensures
            r == self.socket().state,
    {
        self.inner().state
    }

    /// Whether another socket connects the same two endpoints.
    fn is_tuple_in_use(&self, tuple: Tuple) -> (r: bool)
        requires
            self.inv(),
        ensures
            r == tuple_in_use(self.slots(), self.index as int, tuple),
    {
        slots_use_tuple(&*self.sockets, self.index, tuple)
    }

    /// Connects to the given endpoint.
    ///
    /// A local port of zero stands for a free port of the ephemeral range. A local
    /// address that is left open is selected from the remote address. The full
    /// 4-tuple must be unique among the sockets of the stack.
    pub fn connect(
        &mut self,
        remote_endpoint: IpEndpoint,
        local_endpoint: IpListenEndpoint,
    ) -> (ret: Result<(), ConnectError>)
        requires
            old(self).inv(),
        ensures
            final(self).inv(),
            final(self).index == old(self).index,
            *final(final(self).sockets) == *final(old(self).sockets),
            *final(final(self).tx.inner) == *final(old(self).tx.inner),
            *final(final(self).tx.ifaces) == *final(old(self).tx.ifaces),
            match connect_outcome(
                old(self).slots(),
                old(self).index as int,
                old(self).net(),
                remote_endpoint,
                local_endpoint,
            ) {
                ConnectOutcome::Refused(e) => {
                    &&& ret == Err::<(), ConnectError>(e)
                    &&& final(self).slots() == old(self).slots()
                    &&& final(self).net() == old(self).net()
                },
                ConnectOutcome::NoPort => {
                    &&& ret == Err::<(), ConnectError>(ConnectError::NoFreePorts)
                    &&& final(self).slots() == old(self).slots()
                    &&& final(self).net() == stack::with_rand(
                        old(self).net(),
                        old(self).net().inner.rand.next(),
                    )
                },
                ConnectOutcome::Started { tuple, allocated } => {
                    let rand = if allocated {
                        old(self).net().inner.rand.next()
                    } else {
                        old(self).net().inner.rand
                    };
                    &&& ret is Ok
                    &&& slab::only_changed(
                        old(self).slots(),
                        final(self).slots(),
                        old(self).index,
                    )
                    &&& final(self).socket() == old(self).socket().connecting(
                        tuple,
                        as_seq(rand.next().value()),
                        rand.next().next().value(),
                    )
                    &&& final(self).net() == stack::with_rand(old(self).net(), rand.next().next())
                },
            },
    {
        if self.is_open() {
            return Err(ConnectError::InvalidState);
        }
        if remote_endpoint.port == 0 || remote_endpoint.addr.is_unspecified() {
            return Err(ConnectError::Unaddressable);
        }
        let local_addr: IpAddress = match local_endpoint.concrete_addr() {
            Some(addr) => addr,
            None => {
                if let Some(version) = local_endpoint.version() {
                    if version != remote_endpoint.addr.version() {
                        return Err(ConnectError::Unaddressable);
                    }
                }
                match self.tx.get_source_address(&remote_endpoint.addr) {
                    Some(addr) => addr,
                    None => {
                        return Err(ConnectError::Unaddressable);
                    },
                }
            },
        };
        let mut local: IpEndpoint = IpEndpoint::new(local_addr, local_endpoint.port);
        let ghost slots = self.slots();
        let ghost net = self.net();
        let index: usize = self.index;
        if local.port == 0 {
            let sockets: &Slab<TcpSocketState<'d>, TCP_SOCKET_COUNT> = &*self.sockets;
            let in_use = |port: u16| -> (r: bool)
                ensures
                    r == port_taken(sockets@, index as int, local_addr, remote_endpoint)(port),
                {
                    slots_use_tuple(
                        sockets,
                        index,
                        Tuple {
                            local: IpEndpoint { addr: local_addr, port },
                            remote: remote_endpoint,
                        },
                    )
                };
            let found: Option<u16> = alloc_ephemeral_port(&mut self.tx.inner.rand, in_use);
            let ghost start = net.inner.rand.next().value();
            let ghost taken = port_taken(slots, index as int, local_addr, remote_endpoint);
            match found {
                Some(port) => {
                    proof {
                        let k = choose|k: int|
                            {
                                &&& 0 <= k < stack::EPHEMERAL_PORT_COUNT
                                &&& port == #[trigger] stack::ephemeral_port(start, k)
                                &&& in_use.ensures((port,), false)
                                &&& forall|j: int|
                                    0 <= j < k ==> in_use.ensures(
                                        (#[trigger] stack::ephemeral_port(start, j),),
                                        true,
                                    )
                            };
                        stack::lemma_free_port(start, 0, k, taken);
                    }
                    local.port = port;
                },
                None => {
                    proof {
                        stack::lemma_free_port(
                            start,
                            0,
                            stack::EPHEMERAL_PORT_COUNT as int,
                            taken,
                        );
                    }
                    return Err(ConnectError::NoFreePorts);
                },
            }
        } else if self.is_tuple_in_use(Tuple { local, remote: remote_endpoint }) {
            return Err(ConnectError::InUse);
        }
        let seq: TcpSeqNumber = random_seq_no(&mut self.tx.inner.rand);
        let tsval_offset: u32 = self.tx.inner.rand.rand_u32();
        let tuple: Tuple = Tuple { local, remote: remote_endpoint };
        let ghost v = self.socket();
        proof {
            lemma_connecting_inv(v, tuple, seq, tsval_offset);
        }
        let s = self.inner_mut();
        s.reset();
        s.tuple = Some(tuple);
        s.set_state(State::SynSent);
        s.local_seq_no = seq;
        s.remote_last_seq = seq;
        // Every connection offers timestamps; the answer decides whether they stay
        // on.
        s.timestamps = true;
        s.last_remote_tsval = 0;
        s.tsval_offset = tsval_offset;
        assert(s@ =~= v.connecting(tuple, seq, tsval_offset));
        Ok(())
    }

    /// Closes the transmit half of the connection. Only the remote can close the
    /// receive half.
    pub fn close(&mut self)
        requires
            old(self).inv(),
        ensures
            final(self).inv(),
            final(self).index == old(self).index,
            final(self).tx == old(self).tx,
            *final(final(self).sockets) == *final(old(self).sockets),
            slab::only_changed(old(self).slots(), final(self).slots(), old(self).index),
            final(self).socket() == old(self).socket().closed(),
    {
        proof {
            lemma_closed_inv(self.socket());
        }
        let s = self.inner_mut();
        match s.state {
            State::SynSent => s.set_state(State::Closed),
            State::SynReceived | State::Established => s.set_state(State::FinWait1),
            State::CloseWait => s.set_state(State::LastAck),
            _ => {},
        }
    }

    /// Aborts the connection, if any. One reset will be sent to the remote.
    pub fn abort(&mut self)
        requires
            old(self).inv(),
        ensures
            final(self).inv(),
            final(self).index == old(self).index,
            final(self).tx == old(self).tx,
            *final(final(self).sockets) == *final(old(self).sockets),
            slab::only_changed(old(self).slots(), final(self).slots(), old(self).index),
            final(self).socket() == old(self).socket().with_state(State::Closed),
    {
        proof {
            lemma_closed_inv(self.socket());
        }
        self.inner_mut().set_state(State::Closed);
    }

    /// Whether the socket processes incoming or sends outgoing packets.
    pub fn is_open(&self) -> (r: bool)
        requires
            self.inv(),
        ensures
            r == self.socket().is_open(),
    {
        self.inner().is_open()
    }

    /// Whether a connection is active.
    pub fn is_active(&self) -> (r: bool)
        requires
            self.inv(),
        ensures
            r == self.socket().is_open(),
    {
        match self.inner().state {
            State::Closed => false,
            State::TimeWait => false,
            _ => true,
        }
    }

    /// Whether the transmit half of the connection is open.
    pub fn may_send(&self) -> (r: bool)
        requires
            self.inv(),
        ensures
            r == self.socket().may_send(),
    {
        match self.inner().state {
            State::Established => true,
            State::CloseWait => true,
            _ => false,
        }
    }

    /// Whether the receive half of the connection is open, or there is something left to
    /// receive.
    pub fn may_recv(&self) -> (r: bool)
        requires
            self.inv(),
        ensures
            r == self.socket().may_recv(),
    {
        match self.inner().state {
            State::Established => true,
            State::FinWait1 | State::FinWait2 => true,
            _ => self.can_recv(),
        }
    }

    /// Whether the transmit half is open and the transmit buffer is not full.
    pub fn can_send(&self) -> (r: bool)
        requires
            self.inv(),
        ensures
            r == (self.socket().may_send() && self.socket().tx.window() > 0),
    {
        self.may_send() && !self.inner().tx_buffer.is_full()
    }

    /// The size of the receive buffer.
    pub fn recv_capacity(&self) -> (r: usize)
        requires
            self.inv(),
        ensures
            r == self.socket().rx.cap(),
    {
        self.inner().rx_buffer.capacity()
    }

    /// The size of the transmit buffer.
    pub fn send_capacity(&self) -> (r: usize)
        requires
            self.inv(),
        ensures
            r == self.socket().tx.cap(),
    {
        self.inner().tx_buffer.capacity()
    }

    /// Whether the receive buffer is not empty.
    pub fn can_recv(&self) -> (r: bool)
        requires
            self.inv(),
        ensures
            r == (self.socket().rx.length > 0),
    {
        !self.inner().rx_buffer.is_empty()
    }

    /// Calls `f` with the longest run of free octets in the transmit buffer, and
    /// sends as many of them as `f` says.
    pub fn send<'b, F, R>(&'b mut self, f: F) -> (ret: Result<R, SendError>)
        where F: FnOnce(&'b mut [u8]) -> (usize, R)
        requires
            old(self).inv(),
            old(self).socket().may_send() ==> forall|s: &mut [u8]|
                s@ == old(self).socket().tx.rewound().enqueue_run() ==> #[trigger] f.requires((s,)),
            old(self).socket().may_send() ==> forall|s: &mut [u8], out: (usize, R)|
                s@ == old(self).socket().tx.rewound().enqueue_run() && #[trigger] f.ensures(
                    (s,),
                    out,
                ) ==> out.0 <= s@.len() && final(s)@.len() == s@.len(),
        ensures
            final(self).inv(),
            final(self).index == old(self).index,
            final(self).tx == old(self).tx,
            *final(final(self).sockets) == *final(old(self).sockets),
            slab::only_changed(old(self).slots(), final(self).slots(), old(self).index),
            ret is Err <==> !old(self).socket().may_send(),
            match ret {
                Err(_) => final(self).socket() == old(self).socket(),
                Ok(result) => exists|s: &mut [u8], out: (usize, R)|
                    {
                        let v = old(self).socket().tx.rewound();
                        &&& #[trigger] f.ensures((s,), out)
                        &&& result == out.1
                        &&& s@ == v.enqueue_run()
                        &&& final(self).socket() == old(self).socket().queued(
                            (RingView {
                                storage: slices::splice(v.storage, v.index(v.length), final(s)@),
                                ..v.grown(out.0 as int)
                            }),
                            out.0 as int,
                        )
                    },
            },
    {
        if !self.may_send() {
            return Err(SendError::InvalidState);
        }
        let ghost v = self.socket();
        let s = self.inner_mut();
        let old_length: usize = s.tx_buffer.len();
        let out = s.tx_buffer.enqueue_many_with(f);
        let ghost w = v.tx.rewound();
        let ghost run = choose|run: &mut [u8]|
            {
                &&& #[trigger] f.ensures((run,), out)
                &&& run@ == w.enqueue_run()
                &&& final(run)@.len() == run@.len()
                &&& s.tx_buffer@ == (RingView {
                    storage: slices::splice(w.storage, w.index(w.length), final(run)@),
                    ..w.grown(out.0 as int)
                })
            };
        let size: usize = out.0;
        if size > 0 {
            // Otherwise the connection, idle for a long time, would be taken to
            // have timed out.
            if old_length == 0 {
                s.remote_last_ts = None;
            }
            if s.remote_win_len == 0 && s.timer.is_idle() {
                let delay: Duration = s.rtte.retransmission_timeout();
                // The current time is not known here. The first probe is sent at
                // once.
                s.timer.set_for_zero_window_probe(Instant::zero(), delay);
            }
        }
        proof {
            let tx = RingView {
                storage: slices::splice(w.storage, w.index(w.length), final(run)@),
                ..w.grown(size as int)
            };
            lemma_queued_inv(v, tx, size as int);
            assert(s@ =~= v.queued(tx, size as int));
            assert(f.ensures((run,), out));
        }
        Ok(out.1)
    }

    /// Adds the octets of a text to the transmit buffer, as far as there is room. An
    /// error means that not all of it was added.
    pub fn write_str(&mut self, text: &str) -> (ret: Result<(), Full>)
        requires
            old(self).inv(),
        ensures
            final(self).inv(),
            final(self).index == old(self).index,
            final(self).tx == old(self).tx,
            *final(final(self).sockets) == *final(old(self).sockets),
            slab::only_changed(old(self).slots(), final(self).slots(), old(self).index),
            ({
                let bytes = text.spec_bytes();
                let size = old(self).socket().tx.writable(0, bytes.len() as int);
                &&& ret is Ok <==> old(self).socket().may_send() && size == bytes.len()
                &&& final(self).socket() == if old(self).socket().may_send() {
                    old(self).socket().queued(
                        old(self).socket().tx.rewound().written(0, bytes.take(size)).grown(size),
                        size,
                    )
                } else {
                    old(self).socket()
                }
            }),
    {
        let data = text.as_bytes();
        match self.send_slice(data) {
            Ok(size) => if size == data.len() {
                Ok(())
            } else {
                Err(Full)
            },
            Err(_) => Err(Full),
        }
    }

    /// Sends as much of `data` as fits into the transmit buffer, and returns how
    /// much that was.
    pub fn send_slice(&mut self, data: &[u8]) -> (ret: Result<usize, SendError>)
        requires
            old(self).inv(),
        ensures
            final(self).inv(),
            final(self).index == old(self).index,
            final(self).tx == old(self).tx,
            *final(final(self).sockets) == *final(old(self).sockets),
            slab::only_changed(old(self).slots(), final(self).slots(), old(self).index),
            ret is Err <==> !old(self).socket().may_send(),
            match ret {
                Err(_) => final(self).socket() == old(self).socket(),
                Ok(size) => {
                    &&& size == old(self).socket().tx.writable(0, data@.len() as int)
                    &&& final(self).socket() == old(self).socket().queued(
                        old(self).socket().tx.rewound().written(0, data@.take(size as int)).grown(
                            size as int,
                        ),
                        size as int,
                    )
                    &&& final(self).socket().tx.data() == old(self).socket().tx.data() + data@.take(
                        size as int,
                    )
                },
            },
    {
        if !self.may_send() {
            return Err(SendError::InvalidState);
        }
        let ghost v = self.socket();
        let s = self.inner_mut();
        let old_length: usize = s.tx_buffer.len();
        let size: usize = s.tx_buffer.enqueue_slice(data);
        proof {
            v.tx.law_enqueued_comes_last(data@.take(size as int));
            lemma_queued_inv(v, s.tx_buffer@, size as int);
        }
        if size > 0 {
            if old_length == 0 {
                s.remote_last_ts = None;
            }
            if s.remote_win_len == 0 && s.timer.is_idle() {
                let delay: Duration = s.rtte.retransmission_timeout();
                s.timer.set_for_zero_window_probe(Instant::zero(), delay);
            }
        }
        Ok(size)
    }

    fn recv_error_check(&self) -> (r: Result<(), RecvError>)
        requires
            self.inv(),
        ensures
            match r {
                Ok(()) => self.socket().recv_error() is None,
                Err(e) => self.socket().recv_error() == Some(e),
            },
    {
        if !self.may_recv() {
            if self.inner().rx_fin_received {
                return Err(RecvError::Finished);
            }
            return Err(RecvError::InvalidState);
        }
        Ok(())
    }

    /// Calls `f` with the longest run of octets in the receive buffer, and removes
    /// as many of them as `f` says.
    ///
    /// Fails with `Finished` if everything that the remote sent has been received.
    pub fn recv<'b, F, R>(&'b mut self, f: F) -> (ret: Result<R, RecvError>)
        where F: FnOnce(&'b mut [u8]) -> (usize, R)
        requires
            old(self).inv(),
            old(self).socket().recv_error() is None ==> forall|s: &mut [u8]|
                s@ == old(self).socket().rx.dequeue_run() ==> #[trigger] f.requires((s,)),
            old(self).socket().recv_error() is None ==> forall|s: &mut [u8], out: (usize, R)|
                s@ == old(self).socket().rx.dequeue_run() && #[trigger] f.ensures((s,), out)
                    ==> out.0 <= s@.len() && final(s)@.len() == s@.len(),
        ensures
            final(self).inv(),
            final(self).index == old(self).index,
            final(self).tx == old(self).tx,
            *final(final(self).sockets) == *final(old(self).sockets),
            slab::only_changed(old(self).slots(), final(self).slots(), old(self).index),
            match ret {
                Err(e) => {
                    &&& old(self).socket().recv_error() == Some(e)
                    &&& final(self).socket() == old(self).socket()
                },
                Ok(result) => {
                    &&& old(self).socket().recv_error() is None
                    &&& exists|s: &mut [u8], out: (usize, R)|
                        {
                            let v = old(self).socket().rx;
                            &&& #[trigger] f.ensures((s,), out)
                            &&& result == out.1
                            &&& s@ == v.dequeue_run()
                            &&& final(self).socket() == old(self).socket().consumed(
                                (RingView {
                                    storage: slices::splice(v.storage, v.read_at, final(s)@),
                                    ..v.shrunk(out.0 as int)
                                }),
                                out.0 as int,
                            )
                        }
                },
            },
    {
        match self.recv_error_check() {
            Err(e) => {
                return Err(e);
            },
            Ok(()) => {},
        }
        let ghost v = self.socket();
        let s = self.inner_mut();
        let out = s.rx_buffer.dequeue_many_with(f);
        let ghost run = choose|run: &mut [u8]|
            {
                &&& #[trigger] f.ensures((run,), out)
                &&& run@ == v.rx.dequeue_run()
                &&& final(run)@.len() == run@.len()
                &&& s.rx_buffer@ == (RingView {
                    storage: slices::splice(v.rx.storage, v.rx.read_at, final(run)@),
                    ..v.rx.shrunk(out.0 as int)
                })
            };
        let size: usize = out.0;
        s.remote_seq_no = s.remote_seq_no + size;
        proof {
            let rx = RingView {
                storage: slices::splice(v.rx.storage, v.rx.read_at, final(run)@),
                ..v.rx.shrunk(size as int)
            };
            lemma_consumed_inv(v, rx, size as int);
            assert(s@ =~= v.consumed(rx, size as int));
            assert(f.ensures((run,), out));
        }
        Ok(out.1)
    }

    /// Moves octets from the receive buffer to `data`, and returns how many there
    /// were.
    pub fn recv_slice(&mut self, data: &mut [u8]) -> (ret: Result<usize, RecvError>)
        requires
            old(self).inv(),
        ensures
            final(self).inv(),
            final(self).index == old(self).index,
            final(self).tx == old(self).tx,
            *final(final(self).sockets) == *final(old(self).sockets),
            slab::only_changed(old(self).slots(), final(self).slots(), old(self).index),
            match ret {
                Err(e) => {
                    &&& old(self).socket().recv_error() == Some(e)
                    &&& final(self).socket() == old(self).socket()
                    &&& final(data)@ == old(data)@
                },
                Ok(size) => {
                    let rx = old(self).socket().rx;
                    &&& old(self).socket().recv_error() is None
                    &&& size == rx.readable(0, old(data)@.len() as int)
                    &&& final(data)@ == slices::splice(old(data)@, 0, rx.data().take(size as int))
                    &&& final(self).socket() == old(self).socket().consumed(
                        rx.shrunk(size as int),
                        size as int,
                    )
                },
            },
    {
        match self.recv_error_check() {
            Err(e) => {
                return Err(e);
            },
            Ok(()) => {},
        }
        let ghost v = self.socket();
        let s = self.inner_mut();
        let size: usize = s.rx_buffer.dequeue_slice(data);
        s.remote_seq_no = s.remote_seq_no + size;
        proof {
            lemma_consumed_inv(v, s.rx_buffer@, size as int);
        }
        Ok(size)
    }

    /// The longest run of octets in the receive buffer, `size` of them at most,
    /// which stay there.
    pub fn peek(&mut self, size: usize) -> (ret: Result<&[u8], RecvError>)
        requires
            old(self).inv(),
        ensures
            *final(self) == *old(self),
            match ret {
                Err(e) => old(self).socket().recv_error() == Some(e),
                Ok(s) => {
                    &&& old(self).socket().recv_error() is None
                    &&& s@ == old(self).socket().rx.data().take(
                        old(self).socket().rx.allocated_len(0, size as int),
                    )
                },
            },
    {
        match self.recv_error_check() {
            Err(e) => {
                return Err(e);
            },
            Ok(()) => {},
        }
        let r = self.inner().rx_buffer.get_allocated(0, size);
        Ok(r)
    }

    /// Copies octets from the receive buffer, where they stay, to `data`, and
    /// returns how many there were.
    pub fn peek_slice(&mut self, data: &mut [u8]) -> (ret: Result<usize, RecvError>)
        requires
            old(self).inv(),
        ensures
            *final(self) == *old(self),
            match ret {
                Err(e) => old(self).socket().recv_error() == Some(e) && final(data)@ == old(data)@,
                Ok(size) => {
                    let rx = old(self).socket().rx;
                    &&& old(self).socket().recv_error() is None
                    &&& size == rx.readable(0, old(data)@.len() as int)
                    &&& final(data)@ == slices::splice(old(data)@, 0, rx.data().take(size as int))
                },
            },
    {
        match self.recv_error_check() {
            Err(e) => {
                return Err(e);
            },
            Ok(()) => {},
        }
        let size: usize = self.inner().rx_buffer.read_allocated(0, data);
        assert(self.socket().rx.data().skip(0) =~= self.socket().rx.data());
        Ok(size)
    }

    /// The number of octets in the transmit buffer.
    pub fn send_queue(&self) -> (r: usize)
        requires
            self.inv(),
        ensures
            r == self.socket().tx.length,
    {
        self.inner().tx_buffer.len()
    }

    /// The number of octets in the receive buffer. The next `recv` or `peek` can give
    /// fewer, up to the wrap of the buffer.
    pub fn recv_queue(&self) -> (r: usize)
        requires
            self.inv(),
        ensures
            r == self.socket().rx.length,
    {
        self.inner().rx_buffer.len()
    }

    /// Takes the ICMP error reported against this connection last, if any.
    pub fn take_icmp_error(&mut self) -> (r: Option<IcmpError>)
        requires
            old(self).inv(),
        ensures
            final(self).inv(),
            final(self).index == old(self).index,
            final(self).tx == old(self).tx,
            *final(final(self).sockets) == *final(old(self).sockets),
            slab::only_changed(old(self).slots(), final(self).slots(), old(self).index),
            r == old(self).socket().icmp_error,
            final(self).socket() == (TcpView { icmp_error: None, ..old(self).socket() }),
    {
        self.inner_mut().icmp_error.take()
    }
}

} // verus!
