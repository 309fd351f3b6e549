//! UDP sockets as the application sees them.
use super::errors::{BindError, RecvError, SendError};
use super::state;
use super::state::{parse_datagram, RecvPacket, UdpMetadata, UdpSocketState, UdpView};
use super::UDP_SOCKET_COUNT;
use crate::driver::{PacketBuf, PacketPool};
use crate::icmp_error::IcmpError;
use crate::stack;
use crate::stack::{alloc_ephemeral_port, EgressRoute, NetView, TxContext};
use crate::storage::slab;
use crate::storage::slices;
use crate::storage::Slab;
use crate::wire::packet;
use crate::wire::udp;
use crate::wire::{
    IpAddress, IpEndpoint, IpListenEndpoint, IpProtocol, LINK_HEADER_LEN, UDP_HEADER_LEN,
};
use core::task::Waker;
use vstd::prelude::*;

verus! {

/// A UDP socket, borrowed from its stack.
pub struct UdpSocket<'a> {
    pub sockets: &'a mut Slab<UdpSocketState, UDP_SOCKET_COUNT>,
    pub index: usize,
    pub tx: TxContext<'a>,
}

/// Every socket is sound.
pub open spec fn sockets_inv(slots: Seq<Option<UdpSocketState>>) -> bool {
    forall|i: int| #[trigger] slab::occupied(slots, i) ==> slots[i]->0.inv()
}

/// Another socket than number `i` has the same 4-tuple.
pub open spec fn tuple_in_use(
    slots: Seq<Option<UdpSocketState>>,
    i: int,
    local: IpListenEndpoint,
    remote: IpListenEndpoint,
) -> bool {
    exists|k: int|
        k != i && #[trigger] slab::occupied(slots, k) && slots[k]->0.local == local
            && slots[k]->0.remote == remote
}

/// A bind to the given port would duplicate another one.
pub open spec fn port_taken(
    slots: Seq<Option<UdpSocketState>>,
    i: int,
    addr: Option<IpAddress>,
    remote: IpListenEndpoint,
) -> spec_fn(u16) -> bool {
    |port: u16| tuple_in_use(slots, i, IpListenEndpoint { addr, port }, remote)
}

/// What becomes of an attempt to bind.
pub enum BindOutcome {
    /// It is refused.
    Refused(BindError),
    /// No port is free.
    NoPort,
    /// It succeeds, with a port that was given or allocated.
    Bound { local: IpListenEndpoint, allocated: bool },
}

/// The local address of a socket that is bound. One that is left open is resolved where
/// the remote is fully specified: a connected socket always has a concrete one.
pub open spec fn bind_addr(
    net: NetView,
    local: IpListenEndpoint,
    remote: IpListenEndpoint,
) -> Result<Option<IpAddress>, BindError> {
    match remote.concrete_addr() {
        Some(addr) => if remote.port != 0 && local.concrete_addr() is None {
            match net.source(addr) {
                Some(source) => Ok(Some(source)),
                None => Err(BindError::Unaddressable),
            }
        } else {
            Ok(local.addr)
        },
        None => Ok(local.addr),
    }
}

/// Neither half restricts the socket to a version that the other one excludes.
pub open spec fn versions_agree(local: IpListenEndpoint, remote: IpListenEndpoint) -> bool {
    match (local.version(), remote.version()) {
        (Some(a), Some(b)) => a == b,
        _ => true,
    }
}

/// What becomes of an attempt to bind socket number `i`.
pub open spec fn bind_outcome(
    slots: Seq<Option<UdpSocketState>>,
    i: int,
    net: NetView,
    local: IpListenEndpoint,
    remote: IpListenEndpoint,
) -> BindOutcome {
    if slots[i]->0.local.port != 0 {
        BindOutcome::Refused(BindError::InvalidState)
    } else if !versions_agree(local, remote) {
        BindOutcome::Refused(BindError::Unaddressable)
    } else {
        match bind_addr(net, local, remote) {
            Err(e) => BindOutcome::Refused(e),
            Ok(addr) => if local.port != 0 {
                let local = IpListenEndpoint { addr, port: local.port };
                if tuple_in_use(slots, i, local, remote) {
                    BindOutcome::Refused(BindError::InUse)
                } else {
                    BindOutcome::Bound { local, allocated: false }
                }
            } else {
                match stack::free_port(
                    net.inner.rand.next().value(),
                    0,
                    port_taken(slots, i, addr, remote),
                ) {
                    Some(port) => BindOutcome::Bound {
                        local: IpListenEndpoint { addr, port },
                        allocated: true,
                    },
                    None => BindOutcome::NoPort,
                }
            },
        }
    }
}

impl UdpView {
    /// The socket bound to the given halves.
    pub open spec fn bound(self, local: IpListenEndpoint, remote: IpListenEndpoint) -> UdpView {
        UdpView { local, remote, rx_waker: None, tx_waker: None, ..self }
    }

    /// The socket closed: unbound, and without what it received.
    pub open spec fn closed(self) -> UdpView {
        UdpView { hop_limit: self.hop_limit, ..UdpView::initial() }
    }

    /// Why nothing can be received, if so.
    pub open spec fn recv_error(self) -> Option<RecvError> {
        if self.local.port == 0 {
            Some(RecvError::InvalidState)
        } else {
            match self.pending_error {
                Some((error, remote)) => Some(RecvError::IcmpError { error, remote }),
                None => if self.rx_queue.len() == 0 {
                    Some(RecvError::Exhausted)
                } else {
                    None
                },
            }
        }
    }

    /// Why there is nothing to look at, if so.
    pub open spec fn peek_error(self) -> Option<RecvError> {
        if self.local.port == 0 {
            Some(RecvError::InvalidState)
        } else if self.rx_queue.len() == 0 {
            Some(RecvError::Exhausted)
        } else {
            None
        }
    }

    /// The socket after a receive: a pending error is reported first, and only once.
    pub open spec fn received(self) -> UdpView {
        if self.local.port == 0 {
            self
        } else if self.pending_error is Some {
            UdpView { pending_error: None, ..self }
        } else if self.rx_queue.len() > 0 {
            UdpView { rx_queue: self.rx_queue.skip(1), ..self }
        } else {
            self
        }
    }

    /// The destination of a datagram: parts that are not specified are those of the
    /// bound remote.
    pub open spec fn destination(self, endpoint: IpEndpoint) -> IpEndpoint {
        IpEndpoint {
            addr: match self.remote.concrete_addr() {
                Some(addr) => if endpoint.addr.is_unspecified() {
                    addr
                } else {
                    endpoint.addr
                },
                None => endpoint.addr,
            },
            port: if endpoint.port == 0 {
                self.remote.port
            } else {
                endpoint.port
            },
        }
    }
}

/// What becomes of a datagram.
pub enum SendOutcome {
    /// It is refused.
    Refused(SendError),
    /// It is refused for want of a buffer or of room.
    Starved(SendError),
    /// It is sent.
    Sent { src: IpAddress, dst: IpEndpoint, route: EgressRoute },
}

/// The room that the headers in front of a datagram need.
pub open spec fn headroom(dst: IpAddress) -> int {
    LINK_HEADER_LEN + dst.header_len() + UDP_HEADER_LEN
}

/// The source address of a datagram: the one that is asked for, else that of the
/// socket, else one of the interface that it goes out of.
pub open spec fn source_addr(
    socket: UdpView,
    net: NetView,
    meta: UdpMetadata,
    route: EgressRoute,
) -> Option<IpAddress> {
    match meta.local_address {
        Some(addr) => Some(addr),
        None => match socket.local.concrete_addr() {
            Some(addr) => Some(addr),
            None => crate::iface::source_towards(
                net.ifaces[route.iface as int]->0.ip_addrs@,
                route.next_hop,
            ),
        },
    }
}

/// Where a datagram comes from and goes to, and along which route. `None` if it cannot be
/// addressed: its destination is not specified or cannot be reached, the versions do not
/// agree, or the source address is not one of the stack.
pub open spec fn addressed(socket: UdpView, net: NetView, meta: UdpMetadata) -> Option<
    (IpAddress, IpEndpoint, EgressRoute),
> {
    let dst = socket.destination(meta.endpoint);
    if dst.addr.is_unspecified() || dst.port == 0 {
        None
    } else if socket.local.version() matches Some(version) && version != dst.addr.version() {
        None
    } else {
        match net.route(dst.addr) {
            None => None,
            Some(route) => match source_addr(socket, net, meta, route) {
                None => None,
                Some(src) => if src.version() != dst.addr.version() || !stack::owns(
                    net.ifaces,
                    src,
                ) {
                    None
                } else {
                    Some((src, dst, route))
                },
            },
        }
    }
}

/// What becomes of a datagram of at most `max_size` octets.
pub open spec fn send_outcome(
    socket: UdpView,
    net: NetView,
    meta: UdpMetadata,
    max_size: usize,
) -> SendOutcome {
    if socket.local.port == 0 {
        SendOutcome::Refused(SendError::InvalidState)
    } else {
        match addressed(socket, net, meta) {
            None => SendOutcome::Refused(SendError::Unaddressable),
            Some((src, dst, route)) => {
                if !net.ifaces[route.iface as int]->0.device@.has_room() {
                    SendOutcome::Starved(SendError::DeviceBusy)
                } else if net.inner.pool.free == 0 {
                    SendOutcome::Starved(SendError::NoBuffer)
                } else if max_size > net.inner.pool.buffer_len - headroom(dst.addr) {
                    SendOutcome::Refused(SendError::BufferFull)
                } else {
                    SendOutcome::Sent { src, dst, route }
                }
            },
        }
    }
}

/// The packet that carries a datagram.
pub open spec fn sent_packet(
    net: NetView,
    src: IpAddress,
    src_port: u16,
    dst: IpEndpoint,
    route: EgressRoute,
    hop_limit: u8,
    payload: Seq<u8>,
) -> Seq<u8> {
    let caps = net.ifaces[route.iface as int]->0.device@.checksum;
    let d = udp::datagram(src, src_port, dst.addr, dst.port, payload, caps.udp.tx);
    packet::header(src, dst.addr, IpProtocol::Udp, hop_limit, d.len() as int, caps.ipv4.tx) + d
}

/// The hop limit of outgoing packets.
pub open spec fn hop_limit_of(socket: UdpView) -> u8 {
    match socket.hop_limit {
        Some(hop_limit) => hop_limit,
        None => 64,
    }
}

/// Whether another socket than number `index` has the same 4-tuple.
fn slots_use_tuple(
    sockets: &Slab<UdpSocketState, UDP_SOCKET_COUNT>,
    index: usize,
    local: IpListenEndpoint,
    remote: IpListenEndpoint,
) -> (r: bool)
    ensures
        r == tuple_in_use(sockets@, index as int, local, remote),
{
    let mut i: usize = 0;
    while i < sockets.len()
        invariant
            i <= sockets@.len(),
            forall|k: int|
                k < i && k != index && #[trigger] slab::occupied(sockets@, k) ==> !(
                sockets@[k]->0.local == local && sockets@[k]->0.remote == remote),
        decreases sockets@.len() - i,
    {
        if i != index && sockets.is_occupied(i) {
            let other = sockets.get(i);
            if other.local == local && other.remote == remote {
                assert(slab::occupied(sockets@, i as int));
                return true;
            }
        }
        i = i + 1;
    }
    false
}

/// A pool with `n` more free buffers.
pub open spec fn grown_by(pool: PacketPool, n: nat) -> PacketPool
    decreases n,
{
    if n == 0 {
        pool
    } else {
        grown_by(pool, (n - 1) as nat).grown()
    }
}

impl<'a> UdpSocket<'a> {
    /// The sockets of the stack.
    pub open spec fn slots(&self) -> Seq<Option<UdpSocketState>> {
        self.sockets@
    }

    /// This socket.
    pub open spec fn socket(&self) -> UdpView {
        self.sockets@[self.index as int]->0@
    }

    /// What there is to send with.
    pub open spec fn net(&self) -> NetView {
        self.tx@
    }

    pub open spec fn inv(&self) -> bool {
        &&& self.slots().len() <= UDP_SOCKET_COUNT
        &&& slab::occupied(self.slots(), self.index as int)
        &&& sockets_inv(self.slots())
        &&& self.net().inv()
    }

    /// This socket's state.
    pub fn inner(&self) -> (r: &UdpSocketState)
        requires
            self.inv(),
        ensures
            r@ == self.socket(),
            r.inv(),
            *r == self.slots()[self.index as int]->0,
    {
        self.sockets.get(self.index)
    }

    /// This socket's state, mutably.
    pub fn inner_mut(&mut self) -> (r: &mut UdpSocketState)
        requires
            old(self).inv(),
        ensures
            r@ == old(self).socket(),
            r.inv(),
            final(self).index == old(self).index,
            final(self).tx == old(self).tx,
            *final(final(self).sockets) == *final(old(self).sockets),
            final(r).inv() ==> final(self).inv(),
            final(self).socket() == final(r)@,
            slab::only_changed(old(self).slots(), final(self).slots(), old(self).index),
    {
        let ghost slots = self.slots();
        let index: usize = self.index;
        assert forall|st: UdpSocketState| #[trigger] st.inv() implies sockets_inv(
            slots.update(index as int, Some(st)),
        ) by {
            let u = slots.update(index as int, Some(st));
            assert forall|i: int| #[trigger] slab::occupied(u, i) implies u[i]->0.inv() by {
                if i != index {
                    assert(slab::occupied(slots, i));
                }
            }
        }
        self.sockets.get_mut(index)
    }

    /// The bound local endpoint. A zero port means the socket is not bound.
    pub fn local_endpoint(&self) -> (r: IpListenEndpoint)
        requires
            self.inv(),
        ensures
            r == self.socket().local,
    {
        self.inner().local
    }

    /// The bound remote endpoint. Unspecified parts match any remote.
    pub fn remote_endpoint(&self) -> (r: IpListenEndpoint)
        requires
            self.inv(),
        ensures
            r == self.socket().remote,
    {
        self.inner().remote
    }

    /// The hop limit of outgoing packets, if it has been set.
    pub fn hop_limit(&self) -> (r: Option<u8>)
        requires
            self.inv(),
        ensures
            r == self.socket().hop_limit,
    {
        self.inner().hop_limit
    }

    /// Sets the hop limit of outgoing packets, which is 64 otherwise. Zero is not a hop
    /// limit (RFC 1122).
    pub fn set_hop_limit(&mut self, hop_limit: Option<u8>)
        requires
            old(self).inv(),
            hop_limit != Some(0u8),
        ensures
            final(self).inv(),
            final(self).index == old(self).index,
            final(self).tx == old(self).tx,
            *final(final(self).sockets) == *final(old(self).sockets),
            slab::only_changed(old(self).slots(), final(self).slots(), old(self).index),
            final(self).socket() == (UdpView { hop_limit, ..old(self).socket() }),
    {
        self.inner_mut().hop_limit = hop_limit;
    }

    /// Binds the socket, fixing parts of its 4-tuple: each part of `local` and `remote` is
    /// either exact or left open.
    ///
    /// A port that is left open is allocated from the ephemeral range, from a random
    /// starting point on. A fully specified remote makes a connected socket, whose local
    /// address is resolved if it is left open. Specified parts of `remote` filter what is
    /// received, and are the default destination for sends.
    ///
    /// Only an identical 4-tuple is rejected: each datagram is handed to the most
    /// specific match, so that overlapping ones are never ambiguous.
    pub fn bind(&mut self, local: IpListenEndpoint, remote: IpListenEndpoint) -> (ret: Result<
        (),
        BindError,
    >)
        requires
            old(self).inv(),
        ensures
            final(self).inv(),
            final(self).index == old(self).index,
            *final(final(self).sockets) == *final(old(self).sockets),
            *final(final(self).tx.inner) == *final(old(self).tx.inner),
            *final(final(self).tx.ifaces) == *final(old(self).tx.ifaces),
            match bind_outcome(
                old(self).slots(),
                old(self).index as int,
                old(self).net(),
                local,
                remote,
            ) {
                BindOutcome::Refused(e) => {
                    &&& ret == Err::<(), BindError>(e)
                    &&& final(self).slots() == old(self).slots()
                    &&& final(self).net() == old(self).net()
                },
                BindOutcome::NoPort => {
                    &&& ret == Err::<(), BindError>(BindError::NoFreePorts)
                    &&& final(self).slots() == old(self).slots()
                    &&& final(self).net() == stack::with_rand(
                        old(self).net(),
                        old(self).net().inner.rand.next(),
                    )
                },
                BindOutcome::Bound { local, allocated } => {
                    &&& ret is Ok
                    &&& slab::only_changed(
                        old(self).slots(),
                        final(self).slots(),
                        old(self).index,
                    )
                    &&& final(self).socket() == old(self).socket().bound(local, remote)
                    &&& final(self).net() == if allocated {
                        stack::with_rand(old(self).net(), old(self).net().inner.rand.next())
                    } else {
                        old(self).net()
                    }
                },
            },
    {
        let mut local = local;
        if self.is_open() {
            return Err(BindError::InvalidState);
        }
        // Neither half may restrict the socket to a version the other excludes.
        if let Some(local_version) = local.version() {
            if let Some(remote_version) = remote.version() {
                if local_version != remote_version {
                    return Err(BindError::Unaddressable);
                }
            }
        }
        // A connected socket always has a concrete local address.
        if let Some(remote_addr) = remote.concrete_addr() {
            if remote.port != 0 && local.concrete_addr().is_none() {
                match self.tx.get_source_address(&remote_addr) {
                    Some(addr) => {
                        local.addr = Some(addr);
                    },
                    None => {
                        return Err(BindError::Unaddressable);
                    },
                }
            }
        }
        let ghost slots = self.slots();
        let ghost net = self.net();
        let index: usize = self.index;
        if local.port == 0 {
            let addr = local.addr;
            let sockets: &Slab<UdpSocketState, UDP_SOCKET_COUNT> = &*self.sockets;
            let in_use = |port: u16| -> (r: bool)
                ensures
                    r == port_taken(sockets@, index as int, addr, remote)(port),
                { slots_use_tuple(sockets, index, IpListenEndpoint { addr, port }, remote) };
            let found: Option<u16> = alloc_ephemeral_port(&mut self.tx.inner.rand, in_use);
            let ghost start = net.inner.rand.next().value();
            let ghost taken = port_taken(slots, index as int, addr, remote);
            match found {
                Some(port) => {
                    proof {
                        let k = choose|k: int|
                            {
                                &&& 0 <= k < stack::EPHEMERAL_PORT_COUNT
                                &&& port == #[trigger] stack::ephemeral_port(start, k)
                                &&& in_use.ensures((port,), false)
                                &&& forall|j: int|
                                    0 <= j < k ==> in_use.ensures(
                                        (#[trigger] stack::ephemeral_port(start, j),),
                                        true,
                                    )
                            };
                        stack::lemma_free_port(start, 0, k, taken);
                    }
                    local.port = port;
                },
                None => {
                    proof {
                        stack::lemma_free_port(
                            start,
                            0,
                            stack::EPHEMERAL_PORT_COUNT as int,
                            taken,
                        );
                    }
                    return Err(BindError::NoFreePorts);
                },
            }
        } else if slots_use_tuple(&*self.sockets, index, local, remote) {
            return Err(BindError::InUse);
        }
        let state = self.inner_mut();
        state.local = local;
        state.remote = remote;
        // Sends are possible now, and receives can start failing differently.
        state.rx_waker.wake();
        state.tx_waker.wake();
        Ok(())
    }

    /// Whether the socket is open (bound to a port).
    pub fn is_open(&self) -> (r: bool)
        requires
            self.inv(),
        ensures
            r == (self.socket().local.port != 0),
    {
        self.inner().local.port != 0
    }

    /// Registers a waker for receive operations, in place of any other. It is woken once,
    /// on the next change that might affect them.
    pub fn register_recv_waker(&mut self, waker: &Waker)
        requires
            old(self).inv(),
        ensures
            final(self).inv(),
            final(self).index == old(self).index,
            final(self).tx == old(self).tx,
            *final(final(self).sockets) == *final(old(self).sockets),
            slab::only_changed(old(self).slots(), final(self).slots(), old(self).index),
            final(self).socket().rx_waker matches Some(kept) && cloned(*waker, kept),
            final(self).socket() == (UdpView {
                rx_waker: final(self).socket().rx_waker,
                ..old(self).socket()
            }),
    {
        self.inner_mut().rx_waker.register(waker);
    }

    /// Registers a waker for send operations, in place of any other. It is woken once, on
    /// the next change that might affect them.
    pub fn register_send_waker(&mut self, waker: &Waker)
        requires
            old(self).inv(),
        ensures
            final(self).inv(),
            final(self).index == old(self).index,
            final(self).tx == old(self).tx,
            *final(final(self).sockets) == *final(old(self).sockets),
            slab::only_changed(old(self).slots(), final(self).slots(), old(self).index),
            final(self).socket().tx_waker matches Some(kept) && cloned(*waker, kept),
            final(self).socket() == (UdpView {
                tx_waker: final(self).socket().tx_waker,
                ..old(self).socket()
            }),
    {
        self.inner_mut().tx_waker.register(waker);
    }

    /// Whether the RX queue is not empty.
    pub fn can_recv(&self) -> (r: bool)
        requires
            self.inv(),
        ensures
            r == (self.socket().rx_queue.len() > 0),
    {
        self.inner().rx_queue.len() > 0
    }

    /// Takes the pending ICMP error, if one has been reported against this socket: the
    /// kind of error and the remote endpoint the erring packet was sent to.
    pub fn take_icmp_error(&mut self) -> (r: Option<(IcmpError, IpEndpoint)>)
        requires
            old(self).inv(),
        ensures
            final(self).inv(),
            final(self).index == old(self).index,
            final(self).tx == old(self).tx,
            *final(final(self).sockets) == *final(old(self).sockets),
            slab::only_changed(old(self).slots(), final(self).slots(), old(self).index),
            r == old(self).socket().pending_error,
            final(self).socket() == (UdpView { pending_error: None, ..old(self).socket() }),
    {
        self.inner_mut().pending_error.take()
    }

    /// Closes the socket, unbinding it and dropping the packets in its queue.
    pub fn close(&mut self)
        requires
            old(self).inv(),
        ensures
            final(self).inv(),
            final(self).index == old(self).index,
            *final(final(self).sockets) == *final(old(self).sockets),
            *final(final(self).tx.inner) == *final(old(self).tx.inner),
            *final(final(self).tx.ifaces) == *final(old(self).tx.ifaces),
            slab::only_changed(old(self).slots(), final(self).slots(), old(self).index),
            final(self).socket() == old(self).socket().closed(),
            final(self).net() == old(self).net().with_pool(
                grown_by(old(self).net().inner.pool, old(self).socket().rx_queue.len()),
            ),
    {
        let ghost v = self.socket();
        let ghost net = self.net();
        let ghost pool = net.inner.pool;
        let state = self.inner_mut();
        state.local = IpListenEndpoint::unspecified();
        state.remote = IpListenEndpoint::unspecified();
        let mut queue: Vec<PacketBuf> = Vec::new();
        std::mem::swap(&mut queue, &mut state.rx_queue);
        state.pending_error = None;
        // The tasks waiting can notice that the socket is closed.
        state.rx_waker.wake();
        state.tx_waker.wake();
        assert(state@ =~= v.closed());
        let count: usize = queue.len();
        let ghost slots = self.slots();
        let mut freed: usize = 0;
        while freed < count
            invariant
                freed <= count,
                queue@.len() == count - freed,
                count == v.rx_queue.len(),
                self.slots() == slots,
                self.index == old(self).index,
                *final(self.sockets) == *final(old(self).sockets),
                *final(self.tx.inner) == *final(old(self).tx.inner),
                *final(self.tx.ifaces) == *final(old(self).tx.ifaces),
                pool == net.inner.pool,
                self.net() == net.with_pool(grown_by(pool, freed as nat)),
                grown_by(pool, freed as nat).inv() == pool.inv(),
            decreases count - freed,
        {
            if let Some(buf) = queue.pop() {
                self.tx.free_packet(buf);
            }
            freed = freed + 1;
        }
    }

    /// Dequeues a received datagram, as an owned packet: the buffer that it arrived in.
    ///
    /// A pending ICMP error is reported first, once, before any queued datagrams.
    pub fn recv(&mut self) -> (ret: Result<RecvPacket, RecvError>)
        requires
            old(self).inv(),
        ensures
            final(self).inv(),
            final(self).index == old(self).index,
            final(self).tx == old(self).tx,
            *final(final(self).sockets) == *final(old(self).sockets),
            slab::only_changed(old(self).slots(), final(self).slots(), old(self).index),
            final(self).socket() == old(self).socket().received(),
            match ret {
                Ok(p) => {
                    &&& old(self).socket().recv_error() is None
                    &&& p.inv()
                    &&& p.buf@ == old(self).socket().rx_queue[0]
                    &&& p.meta == state::datagram_meta(old(self).socket().rx_queue[0])
                    &&& p.data() == state::datagram_payload(old(self).socket().rx_queue[0])
                },
                Err(e) => old(self).socket().recv_error() == Some(e),
            },
    {
        if !self.is_open() {
            return Err(RecvError::InvalidState);
        }
        let ghost v = self.socket();
        let state = self.inner_mut();
        if let Some((error, remote)) = state.pending_error.take() {
            return Err(RecvError::IcmpError { error, remote });
        }
        if state.rx_queue.len() == 0 {
            assert(state@ =~= v);
            return Err(RecvError::Exhausted);
        }
        let buf: PacketBuf = state.rx_queue.remove(0);
        proof {
            assert(state::is_queueable(v.rx_queue[0]));
            assert(state@.rx_queue =~= v.rx_queue.skip(1));
            assert(state@ =~= v.received());
            assert forall|i: int| 0 <= i < state@.rx_queue.len() implies state::is_queueable(
                #[trigger] state@.rx_queue[i],
            ) by {
                assert(state::is_queueable(v.rx_queue[i + 1]));
            }
        }
        Ok(RecvPacket::new(buf))
    }

    /// Dequeues a received datagram, copying the payload into the given slice, and returns
    /// the number of octets copied along with its metadata.
    ///
    /// When the slice is smaller than the payload, the packet is dropped and
    /// `Err(RecvError::Truncated)` is returned.
    pub fn recv_slice(&mut self, data: &mut [u8]) -> (ret: Result<(usize, UdpMetadata), RecvError>)
        requires
            old(self).inv(),
        ensures
            final(self).inv(),
            final(self).index == old(self).index,
            *final(final(self).sockets) == *final(old(self).sockets),
            *final(final(self).tx.inner) == *final(old(self).tx.inner),
            *final(final(self).tx.ifaces) == *final(old(self).tx.ifaces),
            slab::only_changed(old(self).slots(), final(self).slots(), old(self).index),
            final(self).socket() == old(self).socket().received(),
            match old(self).socket().recv_error() {
                Some(e) => {
                    &&& ret == Err::<(usize, UdpMetadata), RecvError>(e)
                    &&& final(data)@ == old(data)@
                    &&& final(self).net() == old(self).net()
                },
                None => {
                    let p = old(self).socket().rx_queue[0];
                    let payload = state::datagram_payload(p);
                    &&& final(self).net() == old(self).net().with_pool(
                        old(self).net().inner.pool.grown(),
                    )
                    &&& if old(data)@.len() < payload.len() {
                        &&& ret == Err::<(usize, UdpMetadata), RecvError>(RecvError::Truncated)
                        &&& final(data)@ == old(data)@
                    } else {
                        &&& ret matches Ok((n, meta)) && n == payload.len() && meta
                            == state::datagram_meta(p)
                        &&& final(data)@ == slices::splice(old(data)@, 0, payload)
                    }
                },
            },
    {
        let packet = match self.recv() {
            Ok(packet) => packet,
            Err(e) => {
                return Err(e);
            },
        };
        let meta: UdpMetadata = packet.meta();
        let n: usize = packet.payload().len();
        if data.len() < n {
            self.tx.free_packet(packet.buf);
            return Err(RecvError::Truncated);
        }
        {
            let part = slices::part_mut(data, 0, n);
            slices::copy_slice(part, packet.payload());
        }
        self.tx.free_packet(packet.buf);
        Ok((n, meta))
    }

    /// The payload and the metadata of the next received datagram, which stays in the
    /// queue.
    pub fn peek(&mut self) -> (ret: Result<(&[u8], UdpMetadata), RecvError>)
        requires
            old(self).inv(),
        ensures
            *final(self) == *old(self),
            match ret {
                Ok((payload, meta)) => {
                    &&& old(self).socket().peek_error() is None
                    &&& payload@ == state::datagram_payload(old(self).socket().rx_queue[0])
                    &&& meta == state::datagram_meta(old(self).socket().rx_queue[0])
                },
                Err(e) => old(self).socket().peek_error() == Some(e),
            },
    {
        if !self.is_open() {
            return Err(RecvError::InvalidState);
        }
        let state: &UdpSocketState = self.inner();
        if state.rx_queue.len() == 0 {
            return Err(RecvError::Exhausted);
        }
        let buf = &state.rx_queue[0];
        proof {
            assert(state@.rx_queue[0] == buf@);
            assert(state::is_queueable(state@.rx_queue[0]));
        }
        let (meta, from, to): (UdpMetadata, usize, usize) = parse_datagram(buf);
        Ok((vstd::slice::slice_subrange(buf.bytes(), from, to), meta))
    }

    /// Copies the payload of the next received datagram into the given slice. The
    /// datagram stays in the queue.
    ///
    /// When the slice is smaller than the payload, nothing is copied and
    /// `Err(RecvError::Truncated)` is returned.
    pub fn peek_slice(&mut self, data: &mut [u8]) -> (ret: Result<(usize, UdpMetadata), RecvError>)
        requires
            old(self).inv(),
        ensures
            *final(self) == *old(self),
            match old(self).socket().peek_error() {
                Some(e) => {
                    &&& ret == Err::<(usize, UdpMetadata), RecvError>(e)
                    &&& final(data)@ == old(data)@
                },
                None => {
                    let p = old(self).socket().rx_queue[0];
                    let payload = state::datagram_payload(p);
                    if old(data)@.len() < payload.len() {
                        &&& ret == Err::<(usize, UdpMetadata), RecvError>(RecvError::Truncated)
                        &&& final(data)@ == old(data)@
                    } else {
                        &&& ret matches Ok((n, meta)) && n == payload.len() && meta
                            == state::datagram_meta(p)
                        &&& final(data)@ == slices::splice(old(data)@, 0, payload)
                    }
                },
            },
    {
        match self.peek() {
            Ok((payload, meta)) => {
                if data.len() < payload.len() {
                    return Err(RecvError::Truncated);
                }
                let part = slices::part_mut(data, 0, payload.len());
                slices::copy_slice(part, payload);
                Ok((payload.len(), meta))
            },
            Err(e) => Err(e),
        }
    }

    /// Where a datagram comes from and goes to, and along which route.
    fn address(&self, meta: &UdpMetadata) -> (r: Option<(IpAddress, IpEndpoint, EgressRoute)>)
        requires
            self.inv(),
        ensures
            r == addressed(self.socket(), self.net(), *meta),
            r matches Some((src, dst, route)) ==> {
                &&& slab::occupied(self.net().ifaces, route.iface as int)
                &&& src.version() == dst.addr.version()
            },
    {
        let local: IpListenEndpoint = self.inner().local;
        let remote: IpListenEndpoint = self.inner().remote;
        // Only a concrete remote address is a destination; one left open is a filter.
        let mut dst: IpEndpoint = meta.endpoint;
        if dst.addr.is_unspecified() {
            if let Some(addr) = remote.concrete_addr() {
                dst.addr = addr;
            }
        }
        if dst.port == 0 {
            dst.port = remote.port;
        }
        assert(dst == self.socket().destination(meta.endpoint));
        if !dst.is_specified() {
            return None;
        }
        // The answers would arrive on a version that the socket does not receive.
        if let Some(version) = local.version() {
            if version != dst.addr.version() {
                return None;
            }
        }
        let route: EgressRoute = match self.tx.route(&dst.addr) {
            Some(route) => route,
            None => {
                return None;
            },
        };
        let asked: Option<IpAddress> = match meta.local_address {
            Some(addr) => Some(addr),
            None => local.concrete_addr(),
        };
        let src: IpAddress = match asked {
            Some(addr) => addr,
            None => match self.tx.get_source_address_routed(&route, &dst.addr) {
                Some(addr) => addr,
                None => {
                    return None;
                },
            },
        };
        // The source address must be that of some interface, though not of the one that
        // the packet goes out of.
        if src.version() != dst.addr.version() || !self.tx.has_ip_addr(src) {
            return None;
        }
        Some((src, dst, route))
    }

    /// Sends a datagram, building the payload in place.
    ///
    /// The destination is `meta.endpoint`, with unspecified parts defaulted from the
    /// socket's bound remote endpoint. The closure gets `max_size` octets inside a packet
    /// buffer, and returns how many it wrote. The datagram is sent at once. If it cannot
    /// be sent, the closure is not called.
    pub fn send_with<F>(&mut self, max_size: usize, meta: UdpMetadata, f: F) -> (ret: Result<
        (),
        SendError,
    >) where F: FnOnce(&mut [u8]) -> usize
        requires
            old(self).inv(),
            send_outcome(old(self).socket(), old(self).net(), meta, max_size) is Sent ==> {
                &&& forall|s: &mut [u8]| s@.len() == max_size ==> #[trigger] f.requires((s,))
                &&& forall|s: &mut [u8], n: usize|
                    s@.len() == max_size && #[trigger] f.ensures((s,), n) ==> n <= max_size
                        && final(s)@.len() == s@.len()
            },
        ensures
            final(self).inv(),
            final(self).index == old(self).index,
            *final(final(self).sockets) == *final(old(self).sockets),
            *final(final(self).tx.inner) == *final(old(self).tx.inner),
            *final(final(self).tx.ifaces) == *final(old(self).tx.ifaces),
            final(self).slots() == old(self).slots(),
            match send_outcome(old(self).socket(), old(self).net(), meta, max_size) {
                SendOutcome::Refused(e) => {
                    &&& ret == Err::<(), SendError>(e)
                    &&& final(self).net() == old(self).net()
                },
                SendOutcome::Starved(e) => {
                    &&& ret == Err::<(), SendError>(e)
                    &&& final(self).net() == old(self).net().starved()
                },
                SendOutcome::Sent { src, dst, route } => {
                    &&& ret is Ok
                    &&& exists|s: &mut [u8], n: usize|
                        {
                            &&& #[trigger] f.ensures((s,), n)
                            &&& s@.len() == max_size
                            &&& final(s)@.len() == max_size
                            &&& n <= max_size
                            &&& stack::handed_over(
                                old(self).net().with_pool(old(self).net().inner.pool.shrunk()),
                                final(self).net(),
                                route,
                                sent_packet(
                                    old(self).net(),
                                    src,
                                    old(self).socket().local.port,
                                    dst,
                                    route,
                                    hop_limit_of(old(self).socket()),
                                    final(s)@.take(n as int),
                                ),
                                meta.meta,
                            )
                        }
                },
            },
    {
        let local: IpListenEndpoint = self.inner().local;
        let hop_limit: u8 = match self.inner().hop_limit {
            Some(hop_limit) => hop_limit,
            None => 64,
        };
        if local.port == 0 {
            return Err(SendError::InvalidState);
        }
        let (src, dst, route): (IpAddress, IpEndpoint, EgressRoute) = match self.address(&meta) {
            Some(found) => found,
            None => {
                return Err(SendError::Unaddressable);
            },
        };
        let headroom: usize = LINK_HEADER_LEN + dst.addr.header_len() + UDP_HEADER_LEN;
        if !self.tx.can_transmit(route.iface) {
            self.tx.set_tx_starved();
            return Err(SendError::DeviceBusy);
        }
        let mut buf: PacketBuf = match self.tx.alloc_packet() {
            Some(buf) => buf,
            None => {
                self.tx.set_tx_starved();
                return Err(SendError::NoBuffer);
            },
        };
        if max_size > buf.capacity() - headroom {
            self.tx.free_packet(buf);
            return Err(SendError::BufferFull);
        }
        buf.meta = meta.meta;
        buf.reserve(headroom);
        buf.set_len(max_size);
        let size: usize = {
            let room = buf.bytes_mut();
            f(room)
        };
        let ghost content = buf@.data();
        buf.set_len(size);
        assert(buf@.data() =~= content.take(size as int));
        buf.push_front(UDP_HEADER_LEN);
        let fill: bool = self.tx.checksum_caps(route.iface).udp.tx;
        {
            let bytes = buf.bytes_mut();
            assert(bytes@.skip(UDP_HEADER_LEN as int) =~= content.take(size as int));
            udp::emit(bytes, src, local.port, dst.addr, dst.port, fill);
        }
        let ghost d = udp::datagram(
            src,
            local.port,
            dst.addr,
            dst.port,
            content.take(size as int),
            fill,
        );
        assert(buf@.data() =~= d);
        self.tx.transmit_ip(&route, buf, src, dst.addr, IpProtocol::Udp, hop_limit);
        proof {
            assert(exists|s: &mut [u8]|
                {
                    &&& #[trigger] f.ensures((s,), size)
                    &&& s@.len() == max_size
                    &&& final(s)@ == content
                });
        }
        Ok(())
    }

    /// Sends a datagram to the given remote endpoint, copying the payload from a slice.
    pub fn send_slice(&mut self, data: &[u8], meta: UdpMetadata) -> (ret: Result<(), SendError>)
        requires
            old(self).inv(),
        ensures
            final(self).inv(),
            final(self).index == old(self).index,
            *final(final(self).sockets) == *final(old(self).sockets),
            *final(final(self).tx.inner) == *final(old(self).tx.inner),
            *final(final(self).tx.ifaces) == *final(old(self).tx.ifaces),
            final(self).slots() == old(self).slots(),
            match send_outcome(old(self).socket(), old(self).net(), meta, data@.len() as usize) {
                SendOutcome::Refused(e) => {
                    &&& ret == Err::<(), SendError>(e)
                    &&& final(self).net() == old(self).net()
                },
                SendOutcome::Starved(e) => {
                    &&& ret == Err::<(), SendError>(e)
                    &&& final(self).net() == old(self).net().starved()
                },
                SendOutcome::Sent { src, dst, route } => {
                    &&& ret is Ok
                    &&& stack::handed_over(
                        old(self).net().with_pool(old(self).net().inner.pool.shrunk()),
                        final(self).net(),
                        route,
                        sent_packet(
                            old(self).net(),
                            src,
                            old(self).socket().local.port,
                            dst,
                            route,
                            hop_limit_of(old(self).socket()),
                            data@,
                        ),
                        meta.meta,
                    )
                },
            },
    {
        let n: usize = data.len();
        let f = |buf: &mut [u8]| -> (r: usize)
            requires
                buf@.len() == data@.len(),
            ensures
                r == data@.len(),
                final(buf)@ == data@,
            {
                slices::copy_slice(buf, data);
                data.len()
            };
        assert(data@.take(n as int) =~= data@);
        self.send_with(n, meta, f)
    }
}

} // verus!
