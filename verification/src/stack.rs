//! The stack that interfaces and sockets belong to.
use crate::driver::{ChecksumCapabilities, Medium, PacketBuf, PacketMeta, PacketPool, PacketView};
use crate::iface;
use crate::iface::{Iface, IfaceHandle};
use crate::rand::Rand;
use crate::storage::slab;
use crate::storage::{Full, Slab};
use crate::tcp;
use crate::tcp::listener::{
    TcpListener, TcpListenerHandle, TcpListenerState, TCP_LISTENER_COUNT,
};
use crate::tcp::socket::{TcpSocket, TCP_SOCKET_COUNT};
use crate::tcp::state::{SocketBuffer, TcpSocketState};
use crate::tcp::{TcpHandle, TcpSocketIter};
use crate::test_device::TestDevice;
use crate::time::Instant;
use crate::udp;
use crate::udp::{UdpHandle, UdpSocket, UdpSocketIter, UdpSocketState, UDP_SOCKET_COUNT};
use crate::wire::packet;
use crate::wire::{IpAddress, IpCidr, IpProtocol};
use vstd::prelude::*;

verus! {

/// The number of interfaces that a stack has room for.
pub const IFACE_COUNT: usize = 4;

/// The first port of the range from which ports are allocated.
pub const EPHEMERAL_PORT_MIN: u16 = 49152;

/// The number of ports in that range.
pub const EPHEMERAL_PORT_COUNT: u16 = 16384;

/// A network that is reached through a gateway.
#[derive(Debug, Clone, Copy, PartialEq, Eq, Structural)]
pub struct Route {
    pub network: IpCidr,
    pub gateway: IpAddress,
    pub iface: usize,
}

/// Where a packet goes.
#[derive(Debug, Clone, Copy, PartialEq, Eq, Structural)]
pub struct EgressRoute {
    /// The interface that it goes out of.
    pub iface: usize,
    /// The neighbor that it is handed to.
    pub next_hop: IpAddress,
    /// The largest IP packet on that interface.
    pub ip_mtu: usize,
}

/// A packet that waits for the address of the neighbor that it is handed to.
#[derive(Debug)]
pub struct Waiting {
    pub iface: usize,
    pub next_hop: IpAddress,
    pub buf: PacketBuf,
}

/// What is known of a packet that waits.
#[verifier::ext_equal]
pub struct WaitingView {
    pub iface: usize,
    pub next_hop: IpAddress,
    pub data: Seq<u8>,
    pub meta: PacketMeta,
}

/// The packets that wait.
pub open spec fn waiting_views(w: Seq<Waiting>) -> Seq<WaitingView> {
    Seq::new(
        w.len(),
        |i: int|
            WaitingView {
                iface: w[i].iface,
                next_hop: w[i].next_hop,
                data: w[i].buf@.data(),
                meta: w[i].buf@.meta,
            },
    )
}

/// What a stack has beside its interfaces and sockets.
#[derive(Debug)]
pub struct StackInner {
    pub now: Instant,
    pub rand: Rand,
    pub pool: PacketPool,
    pub routes: Vec<Route>,
    /// Packets whose neighbor is not known yet, oldest first.
    pub waiting: Vec<Waiting>,
    /// Whether a packet could not be sent for want of a buffer or of room.
    pub tx_starved: bool,
}

/// What is needed to send a packet.
pub struct TxContext<'a> {
    pub inner: &'a mut StackInner,
    pub ifaces: &'a mut Slab<Iface, IFACE_COUNT>,
}

/// Interface `i` has an address in the network of `addr`.
pub open spec fn serves(ifaces: Seq<Option<Iface>>, i: int, addr: IpAddress) -> bool {
    slab::occupied(ifaces, i) && iface::reaches(ifaces[i]->0.ip_addrs@, addr)
}

/// The first interface, from number `i` on, with an address in the network of
/// `addr`.
pub open spec fn iface_serving(ifaces: Seq<Option<Iface>>, i: int, addr: IpAddress) -> Option<int>
    decreases ifaces.len() - i,
{
    if i >= ifaces.len() {
        None
    } else if serves(ifaces, i, addr) {
        Some(i)
    } else {
        iface_serving(ifaces, i + 1, addr)
    }
}

/// The first route, from number `i` on, to a network that contains `addr`.
pub open spec fn route_to(
    routes: Seq<Route>,
    ifaces: Seq<Option<Iface>>,
    i: int,
    addr: IpAddress,
) -> Option<Route>
    decreases routes.len() - i,
{
    if i >= routes.len() {
        None
    } else if routes[i].network.spec_contains(addr) && slab::occupied(
        ifaces,
        routes[i].iface as int,
    ) {
        Some(routes[i])
    } else {
        route_to(routes, ifaces, i + 1, addr)
    }
}

/// Where a packet to `addr` goes: to a neighbor if an interface is in its network,
/// else to the gateway of the first route that leads to it.
pub open spec fn egress(
    routes: Seq<Route>,
    ifaces: Seq<Option<Iface>>,
    addr: IpAddress,
) -> Option<EgressRoute> {
    match iface_serving(ifaces, 0, addr) {
        Some(i) => Some(
            EgressRoute {
                iface: i as usize,
                next_hop: addr,
                ip_mtu: ifaces[i]->0.spec_ip_mtu(),
            },
        ),
        None => match route_to(routes, ifaces, 0, addr) {
            Some(route) => Some(
                EgressRoute {
                    iface: route.iface,
                    next_hop: route.gateway,
                    ip_mtu: ifaces[route.iface as int]->0.spec_ip_mtu(),
                },
            ),
            None => None,
        },
    }
}

/// `addr` is assigned to some interface.
pub open spec fn owns(ifaces: Seq<Option<Iface>>, addr: IpAddress) -> bool {
    exists|i: int|
        #[trigger] slab::occupied(ifaces, i) && iface::has_addr(ifaces[i]->0.ip_addrs@, addr)
}

/// Every interface is sound.
pub open spec fn ifaces_inv(ifaces: Seq<Option<Iface>>) -> bool {
    forall|i: int| #[trigger] slab::occupied(ifaces, i) ==> ifaces[i]->0.inv()
}

/// The routes lead to sound networks.
pub open spec fn routes_inv(routes: Seq<Route>) -> bool {
    forall|i: int| 0 <= i < routes.len() ==> (#[trigger] routes[i]).network.valid()
}

/// What is there to send a packet with.
#[verifier::ext_equal]
pub struct NetView {
    pub inner: StackInner,
    pub ifaces: Seq<Option<Iface>>,
}

impl<'a> View for TxContext<'a> {
    type V = NetView;

    open spec fn view(&self) -> NetView {
        NetView { inner: *self.inner, ifaces: self.ifaces@ }
    }
}

impl NetView {
    pub open spec fn inv(self) -> bool {
        &&& self.ifaces.len() <= IFACE_COUNT
        &&& ifaces_inv(self.ifaces)
        &&& routes_inv(self.inner.routes@)
        &&& self.inner.pool.inv()
    }

    /// A packet could not be sent for want of a buffer or of room.
    pub open spec fn starved(self) -> NetView {
        NetView { inner: StackInner { tx_starved: true, ..self.inner }, ..self }
    }

    /// Another number of buffers is free.
    pub open spec fn with_pool(self, pool: PacketPool) -> NetView {
        NetView { inner: StackInner { pool, ..self.inner }, ..self }
    }

    /// Where a packet to `addr` goes.
    pub open spec fn route(self, addr: IpAddress) -> Option<EgressRoute> {
        egress(self.inner.routes@, self.ifaces, addr)
    }

    /// The address from which a packet to `addr` is sent.
    pub open spec fn source(self, addr: IpAddress) -> Option<IpAddress> {
        match self.route(addr) {
            Some(route) => iface::source_towards(
                self.ifaces[route.iface as int]->0.ip_addrs@,
                route.next_hop,
            ),
            None => None,
        }
    }
}

/// The stack with another state of its random numbers.
pub open spec fn with_rand(net: NetView, rand: Rand) -> NetView {
    NetView { inner: StackInner { rand, ..net.inner }, ..net }
}

impl<'a> TxContext<'a> {
    pub open spec fn inv(&self) -> bool {
        self@.inv()
    }

    pub fn now(&self) -> (r: Instant)
        ensures
            r == self@.inner.now,
    {
        self.inner.now
    }

    /// Whether an address is assigned to some interface.
    pub fn has_ip_addr(&self, addr: IpAddress) -> (r: bool)
        ensures
            r == owns(self@.ifaces, addr),
    {
        let mut i: usize = 0;
        while i < self.ifaces.len()
            invariant
                i <= self@.ifaces.len(),
                forall|k: int|
                    k < i && #[trigger] slab::occupied(self@.ifaces, k) ==> !iface::has_addr(
                        self@.ifaces[k]->0.ip_addrs@,
                        addr,
                    ),
            decreases self@.ifaces.len() - i,
        {
            if self.ifaces.is_occupied(i) {
                if self.ifaces.get(i).has_ip_addr(addr) {
                    assert(slab::occupied(self@.ifaces, i as int));
                    return true;
                }
            }
            i = i + 1;
        }
        false
    }

    /// Where a packet to `addr` goes.
    pub fn route(&self, addr: &IpAddress) -> (r: Option<EgressRoute>)
        requires
            self.inv(),
        ensures
            r == self@.route(*addr),
            r matches Some(route) ==> slab::occupied(self@.ifaces, route.iface as int),
    {
        let mut i: usize = 0;
        while i < self.ifaces.len()
            invariant
                i <= self@.ifaces.len(),
                self.inv(),
                iface_serving(self@.ifaces, 0, *addr) == iface_serving(
                    self@.ifaces,
                    i as int,
                    *addr,
                ),
            decreases self@.ifaces.len() - i,
        {
            if self.ifaces.is_occupied(i) {
                assert(slab::occupied(self@.ifaces, i as int));
                if self.ifaces.get(i).contains(*addr) {
                    return Some(
                        EgressRoute {
                            iface: i,
                            next_hop: *addr,
                            ip_mtu: self.ifaces.get(i).ip_mtu(),
                        },
                    );
                }
            }
            i = i + 1;
        }
        let mut j: usize = 0;
        while j < self.inner.routes.len()
            invariant
                j <= self@.inner.routes@.len(),
                self.inv(),
                iface_serving(self@.ifaces, 0, *addr) is None,
                route_to(self@.inner.routes@, self@.ifaces, 0, *addr) == route_to(
                    self@.inner.routes@,
                    self@.ifaces,
                    j as int,
                    *addr,
                ),
            decreases self@.inner.routes@.len() - j,
        {
            let route: Route = self.inner.routes[j];
            assert(self@.inner.routes@[j as int].network.valid());
            if route.network.contains(*addr) && self.ifaces.is_occupied(route.iface) {
                return Some(
                    EgressRoute {
                        iface: route.iface,
                        next_hop: route.gateway,
                        ip_mtu: self.ifaces.get(route.iface).ip_mtu(),
                    },
                );
            }
            j = j + 1;
        }
        None
    }

    /// The address from which a packet to `addr` along a route is sent.
    pub fn get_source_address_routed(&self, route: &EgressRoute, addr: &IpAddress) -> (r: Option<
        IpAddress,
    >)
        requires
            self.inv(),
            slab::occupied(self@.ifaces, route.iface as int),
        ensures
            r == iface::source_towards(
                self@.ifaces[route.iface as int]->0.ip_addrs@,
                route.next_hop,
            ),
    {
        self.ifaces.get(route.iface).source_for(route.next_hop)
    }

    /// The address from which a packet to `addr` is sent.
    pub fn get_source_address(&self, addr: &IpAddress) -> (r: Option<IpAddress>)
        requires
            self.inv(),
        ensures
            r == self@.source(*addr),
    {
        match self.route(addr) {
            Some(route) => self.get_source_address_routed(&route, addr),
            None => None,
        }
    }

    /// Whether the device of an interface has room for a packet.
    pub fn can_transmit(&self, iface: usize) -> (r: bool)
        requires
            slab::occupied(self@.ifaces, iface as int),
        ensures
            r == self@.ifaces[iface as int]->0.device@.has_room(),
    {
        self.ifaces.get(iface).device.can_transmit()
    }
}

/// The stack `b` is the stack `a` after a packet has been handed to the device along a
/// route. Where the device carries frames with addresses of their own, the packet
/// waits for that of its neighbor. A device without room drops the packet.
pub open spec fn handed_over(
    a: NetView,
    b: NetView,
    route: EgressRoute,
    data: Seq<u8>,
    meta: PacketMeta,
) -> bool {
    let i = route.iface as int;
    let before = a.ifaces[i]->0.device@;
    let after = b.ifaces[i]->0.device@;
    &&& b.ifaces.len() == a.ifaces.len()
    &&& slab::occupied(b.ifaces, i)
    &&& forall|k: int| 0 <= k < a.ifaces.len() && k != i ==> b.ifaces[k] == a.ifaces[k]
    &&& b.ifaces[i]->0.ip_addrs == a.ifaces[i]->0.ip_addrs
    &&& if before.medium == Medium::Ip {
        &&& after == if before.has_room() {
            before.transmitted(data, meta)
        } else {
            before
        }
        &&& b.inner == (StackInner { pool: a.inner.pool.grown(), ..a.inner })
    } else {
        &&& after == before
        &&& b.inner == (StackInner { waiting: b.inner.waiting, ..a.inner })
        &&& waiting_views(b.inner.waiting@) == waiting_views(a.inner.waiting@).push(
            WaitingView { iface: route.iface, next_hop: route.next_hop, data, meta },
        )
    }
}

impl<'a> TxContext<'a> {
    /// The checksums that the device of an interface leaves to the stack.
    pub fn checksum_caps(&self, iface: usize) -> (r: ChecksumCapabilities)
        requires
            slab::occupied(self@.ifaces, iface as int),
        ensures
            r == self@.ifaces[iface as int]->0.device@.checksum,
    {
        self.ifaces.get(iface).device.checksum
    }

    /// Notes that a packet could not be sent for want of a buffer or of room.
    pub fn set_tx_starved(&mut self)
        ensures
            final(self)@ == old(self)@.starved(),
            *final(final(self).inner) == *final(old(self).inner),
            *final(final(self).ifaces) == *final(old(self).ifaces),
    {
        self.inner.tx_starved = true;
    }

    /// Takes a packet buffer, if one is free.
    pub fn alloc_packet(&mut self) -> (r: Option<PacketBuf>)
        ensures
            *final(final(self).inner) == *final(old(self).inner),
            *final(final(self).ifaces) == *final(old(self).ifaces),
            r is Some <==> old(self)@.inner.pool.free > 0,
            match r {
                Some(buf) => {
                    &&& final(self)@ == old(self)@.with_pool(old(self)@.inner.pool.shrunk())
                    &&& buf.inv()
                    &&& buf@ == PacketView::blank(old(self)@.inner.pool.buffer_len)
                },
                None => final(self)@ == old(self)@,
            },
    {
        self.inner.pool.try_alloc()
    }

    /// Gives a packet buffer back.
    pub fn free_packet(&mut self, buf: PacketBuf)
        ensures
            *final(final(self).inner) == *final(old(self).inner),
            *final(final(self).ifaces) == *final(old(self).ifaces),
            final(self)@ == old(self)@.with_pool(old(self)@.inner.pool.grown()),
    {
        self.inner.pool.release(buf);
    }

    /// Sends what is in the buffer along a route, as the payload of an IP packet. There
    /// is room in front of it for the headers.
    pub fn transmit_ip(
        &mut self,
        route: &EgressRoute,
        buf: PacketBuf,
        src: IpAddress,
        dst: IpAddress,
        protocol: IpProtocol,
        hop_limit: u8,
    )
        requires
            old(self).inv(),
            slab::occupied(old(self)@.ifaces, route.iface as int),
            buf.inv(),
            src.version() == dst.version(),
            buf@.start >= src.header_len(),
            buf@.length + src.header_len() <= 65535,
        ensures
            final(self).inv(),
            *final(final(self).inner) == *final(old(self).inner),
            *final(final(self).ifaces) == *final(old(self).ifaces),
            handed_over(
                old(self)@,
                final(self)@,
                *route,
                packet::header(
                    src,
                    dst,
                    protocol,
                    hop_limit,
                    buf@.length,
                    old(self)@.ifaces[route.iface as int]->0.device@.checksum.ipv4.tx,
                ) + buf@.data(),
                buf@.meta,
            ),
    {
        let ghost v = self@;
        let ghost data = buf@.data();
        let mut buf = buf;
        let fill: bool = self.checksum_caps(route.iface).ipv4.tx;
        buf.push_front(src.header_len());
        {
            let bytes = buf.bytes_mut();
            assert(bytes@.skip(src.header_len() as int) =~= data);
            packet::emit(bytes, src, dst, protocol, hop_limit, fill);
        }
        proof {
            assert(buf@.data() =~= packet::header(
                src,
                dst,
                protocol,
                hop_limit,
                data.len() as int,
                fill,
            ) + data);
        }
        let iface = self.ifaces.get_mut(route.iface);
        match iface.device.medium {
            Medium::Ip => {
                match iface.device.transmit(buf) {
                    Ok(used) => self.inner.pool.release(used),
                    Err(kept) => self.inner.pool.release(kept),
                }
            },
            _ => {
                self.inner.waiting.push(
                    Waiting { iface: route.iface, next_hop: route.next_hop, buf },
                );
                assert(waiting_views(self.inner.waiting@) =~= waiting_views(
                    v.inner.waiting@,
                ).push(
                    WaitingView {
                        iface: route.iface,
                        next_hop: route.next_hop,
                        data: buf@.data(),
                        meta: buf@.meta,
                    },
                ));
            },
        }
        proof {
            assert forall|i: int| #[trigger] slab::occupied(self@.ifaces, i) implies
                self@.ifaces[i]->0.inv() by {
                assert(slab::occupied(v.ifaces, i));
            }
        }
    }
}

/// A network stack: its interfaces and its sockets.
pub struct Stack<'d> {
    pub inner: StackInner,
    pub ifaces: Slab<Iface, IFACE_COUNT>,
    pub udp: Slab<UdpSocketState, UDP_SOCKET_COUNT>,
    pub tcp: Slab<TcpSocketState<'d>, TCP_SOCKET_COUNT>,
    pub listeners: Slab<TcpListenerState, TCP_LISTENER_COUNT>,
}

impl<'d> Stack<'d> {
    /// What is there to send a packet with.
    pub open spec fn net(&self) -> NetView {
        NetView { inner: self.inner, ifaces: self.ifaces@ }
    }

    pub open spec fn inv(&self) -> bool {
        &&& self.net().inv()
        &&& self.udp.inv()
        &&& udp::socket::sockets_inv(self.udp@)
        &&& self.tcp.inv()
        &&& tcp::socket::sockets_inv(self.tcp@)
        &&& self.listeners.inv()
        &&& tcp::listener::listeners_inv(self.listeners@)
    }

    /// A stack without interfaces and sockets, at the start of time. Random numbers come
    /// from the seed, and packet buffers from the pool.
    pub fn new(random_seed: u64, pool: PacketPool) -> (r: Stack<'d>)
        requires
            pool.inv(),
        ensures
            r.inv(),
            r.inner.now == (Instant { micros: 0 }),
            r.inner.rand == (Rand { state: random_seed }),
            r.inner.pool == pool,
            r.inner.routes@ == Seq::<Route>::empty(),
            r.inner.waiting@ == Seq::<Waiting>::empty(),
            !r.inner.tx_starved,
            r.ifaces@ == Seq::<Option<Iface>>::empty(),
            r.udp@ == Seq::<Option<UdpSocketState>>::empty(),
            r.tcp@ == Seq::<Option<TcpSocketState<'d>>>::empty(),
            r.listeners@ == Seq::<Option<TcpListenerState>>::empty(),
    {
        Stack {
            inner: StackInner {
                now: Instant::zero(),
                rand: Rand::new(random_seed),
                pool,
                routes: Vec::new(),
                waiting: Vec::new(),
                tx_starved: false,
            },
            ifaces: Slab::new(),
            udp: Slab::new(),
            tcp: Slab::new(),
            listeners: Slab::new(),
        }
    }

    /// Adds an interface for a device.
    pub fn add_iface(&mut self, device: TestDevice) -> (r: Result<IfaceHandle, Full>)
        requires
            old(self).inv(),
        ensures
            final(self).inv(),
            final(self).inner == old(self).inner,
            final(self).udp == old(self).udp,
            final(self).tcp == old(self).tcp,
            final(self).listeners == old(self).listeners,
            match r {
                Ok(handle) => {
                    &&& handle.index == slab::first_free(old(self).ifaces@)
                    &&& exists|iface: Iface|
                        {
                            &&& iface.device == device
                            &&& iface.ip_addrs@ == Seq::<IpCidr>::empty()
                            &&& final(self).ifaces@ == #[trigger] slab::added(
                                old(self).ifaces@,
                                iface,
                            )
                        }
                },
                Err(_) => {
                    &&& slab::first_free(old(self).ifaces@) == IFACE_COUNT
                    &&& final(self).ifaces@ == old(self).ifaces@
                },
            },
    {
        let iface = Iface::new(device);
        let ghost ifaces = self.ifaces@;
        let r = match self.ifaces.insert(iface) {
            Ok(index) => Ok(IfaceHandle { index }),
            Err(e) => Err(e),
        };
        proof {
            assert forall|i: int| #[trigger] slab::occupied(self.ifaces@, i) implies
                self.ifaces@[i]->0.inv() by {
                slab::law_slot_is_found_again(ifaces, iface, i);
                if i < ifaces.len() && ifaces[i] is Some {
                    assert(slab::occupied(ifaces, i));
                }
            }
        }
        r
    }

    /// An interface.
    pub fn iface(&mut self, handle: IfaceHandle) -> (r: &mut Iface)
        requires
            old(self).inv(),
            slab::occupied(old(self).ifaces@, handle.index as int),
        ensures
            *r == old(self).ifaces@[handle.index as int]->0,
            r.inv(),
            final(self).ifaces@ == old(self).ifaces@.update(
                handle.index as int,
                Some(*final(r)),
            ),
            final(r).inv() ==> final(self).inv(),
            final(self).inner == old(self).inner,
            final(self).udp == old(self).udp,
            final(self).tcp == old(self).tcp,
            final(self).listeners == old(self).listeners,
    {
        let ghost ifaces = self.ifaces@;
        let ghost index = handle.index as int;
        assert forall|x: Iface| #[trigger] x.inv() implies ifaces_inv(
            ifaces.update(index, Some(x)),
        ) by {
            let u = ifaces.update(index, Some(x));
            assert forall|i: int| #[trigger] slab::occupied(u, i) implies u[i]->0.inv() by {
                if i != index {
                    assert(slab::occupied(ifaces, i));
                }
            }
        }
        self.ifaces.get_mut(handle.index)
    }

    /// Adds a UDP socket, which is not bound.
    pub fn add_udp_socket(&mut self) -> (r: Result<UdpHandle, Full>)
        requires
            old(self).inv(),
        ensures
            final(self).inv(),
            final(self).net() == old(self).net(),
            final(self).tcp == old(self).tcp,
            final(self).listeners == old(self).listeners,
            match r {
                Ok(handle) => {
                    &&& handle.index == slab::first_free(old(self).udp@)
                    &&& exists|s: UdpSocketState|
                        {
                            &&& s@ == udp::state::UdpView::initial()
                            &&& final(self).udp@ == #[trigger] slab::added(old(self).udp@, s)
                        }
                },
                Err(_) => {
                    &&& slab::first_free(old(self).udp@) == UDP_SOCKET_COUNT
                    &&& final(self).udp@ == old(self).udp@
                },
            },
    {
        let state = UdpSocketState::new();
        let ghost slots = self.udp@;
        let r = match self.udp.insert(state) {
            Ok(index) => Ok(UdpHandle { index }),
            Err(e) => Err(e),
        };
        proof {
            assert forall|i: int| #[trigger] slab::occupied(self.udp@, i) implies
                self.udp@[i]->0.inv() by {
                slab::law_slot_is_found_again(slots, state, i);
                if i < slots.len() && slots[i] is Some {
                    assert(slab::occupied(slots, i));
                }
            }
        }
        r
    }

    /// Removes a UDP socket. The buffers of the packets in its queue are free again.
    pub fn remove_udp_socket(&mut self, handle: UdpHandle)
        requires
            old(self).inv(),
            slab::occupied(old(self).udp@, handle.index as int),
        ensures
            final(self).inv(),
            final(self).net() == old(self).net().with_pool(
                udp::socket::grown_by(
                    old(self).inner.pool,
                    old(self).udp@[handle.index as int]->0@.rx_queue.len(),
                ),
            ),
            final(self).tcp == old(self).tcp,
            final(self).listeners == old(self).listeners,
            final(self).udp@ == old(self).udp@.update(handle.index as int, None),
    {
        let ghost slots = self.udp@;
        let mut queue: Vec<PacketBuf> = Vec::new();
        std::mem::swap(&mut queue, &mut self.udp.get_mut(handle.index).rx_queue);
        self.udp.remove(handle.index);
        assert(self.udp@ =~= slots.update(handle.index as int, None));
        let ghost pool = self.inner.pool;
        let count: usize = queue.len();
        let mut freed: usize = 0;
        while freed < count
            invariant
                freed <= count,
                queue@.len() == count - freed,
                count == slots[handle.index as int]->0@.rx_queue.len(),
                pool == old(self).inner.pool,
                self.inner == (StackInner {
                    pool: udp::socket::grown_by(pool, freed as nat),
                    ..old(self).inner
                }),
                self.ifaces == old(self).ifaces,
                self.tcp == old(self).tcp,
                self.listeners == old(self).listeners,
                self.udp@ == slots.update(handle.index as int, None),
                self.udp.inv(),
                udp::socket::grown_by(pool, freed as nat).inv() == pool.inv(),
            decreases count - freed,
        {
            if let Some(buf) = queue.pop() {
                self.inner.pool.release(buf);
            }
            freed = freed + 1;
        }
        proof {
            assert forall|i: int| #[trigger] slab::occupied(self.udp@, i) implies
                self.udp@[i]->0.inv() by {
                assert(slab::occupied(slots, i));
            }
        }
    }

    /// A UDP socket.
    pub fn udp_socket<'a>(&'a mut self, handle: UdpHandle) -> (r: UdpSocket<'a>)
        requires
            old(self).inv(),
            slab::occupied(old(self).udp@, handle.index as int),
        ensures
            r.inv(),
            r.index == handle.index,
            r.slots() == old(self).udp@,
            r.net() == old(self).net(),
            final(self).udp == *final(r.sockets),
            final(self).inner == *final(r.tx.inner),
            final(self).ifaces == *final(r.tx.ifaces),
            final(self).tcp == old(self).tcp,
            final(self).listeners == old(self).listeners,
    {
        UdpSocket {
            sockets: &mut self.udp,
            index: handle.index,
            tx: TxContext { inner: &mut self.inner, ifaces: &mut self.ifaces },
        }
    }

    /// The UDP sockets, one after the other.
    pub fn udp_sockets<'a>(&'a mut self) -> (r: UdpSocketIter<'a, 'd>)
        ensures
            r.next == 0,
            r.current() == *old(self),
            *final(self) == *final(r.stack),
    {
        UdpSocketIter { stack: self, next: 0 }
    }

    /// Adds a TCP socket with the given buffers, which is closed.
    pub fn add_tcp_socket(
        &mut self,
        rx_buffer: SocketBuffer<'d>,
        tx_buffer: SocketBuffer<'d>,
    ) -> (r: Result<TcpHandle, Full>)
        requires
            old(self).inv(),
            rx_buffer.inv(),
            tx_buffer.inv(),
            rx_buffer@.cap() <= tcp::MAX_RX_CAPACITY,
            tx_buffer@.cap() < i32::MAX,
            rx_buffer@.length == 0,
            tx_buffer@.length == 0,
        ensures
            final(self).inv(),
            final(self).net() == old(self).net(),
            final(self).udp == old(self).udp,
            final(self).listeners == old(self).listeners,
            match r {
                Ok(handle) => {
                    &&& handle.index == slab::first_free(old(self).tcp@)
                    &&& exists|s: TcpSocketState<'d>|
                        {
                            &&& s@ == tcp::model::TcpView::initial(rx_buffer@, tx_buffer@)
                            &&& final(self).tcp@ == #[trigger] slab::added(old(self).tcp@, s)
                        }
                },
                Err(_) => {
                    &&& slab::first_free(old(self).tcp@) == TCP_SOCKET_COUNT
                    &&& final(self).tcp@ == old(self).tcp@
                },
            },
    {
        let state = TcpSocketState::new(rx_buffer, tx_buffer);
        let ghost slots = self.tcp@;
        let r = match self.tcp.insert(state) {
            Ok(index) => Ok(TcpHandle { index }),
            Err(e) => Err(e),
        };
        proof {
            assert forall|i: int| #[trigger] slab::occupied(self.tcp@, i) implies
                self.tcp@[i]->0.inv() by {
                slab::law_slot_is_found_again(slots, state, i);
                if i < slots.len() && slots[i] is Some {
                    assert(slab::occupied(slots, i));
                }
            }
        }
        r
    }

    /// Removes a TCP socket.
    pub fn remove_tcp_socket(&mut self, handle: TcpHandle)
        requires
            old(self).inv(),
            slab::occupied(old(self).tcp@, handle.index as int),
        ensures
            final(self).inv(),
            final(self).net() == old(self).net(),
            final(self).udp == old(self).udp,
            final(self).listeners == old(self).listeners,
            final(self).tcp@ == old(self).tcp@.update(handle.index as int, None),
    {
        let ghost slots = self.tcp@;
        self.tcp.remove(handle.index);
        proof {
            assert forall|i: int| #[trigger] slab::occupied(self.tcp@, i) implies
                self.tcp@[i]->0.inv() by {
                assert(slab::occupied(slots, i));
            }
        }
    }

    /// A TCP socket.
    pub fn tcp_socket<'a>(&'a mut self, handle: TcpHandle) -> (r: TcpSocket<'a, 'd>)
        requires
            old(self).inv(),
            slab::occupied(old(self).tcp@, handle.index as int),
        ensures
            r.inv(),
            r.index == handle.index,
            r.slots() == old(self).tcp@,
            r.net() == old(self).net(),
            final(self).tcp == *final(r.sockets),
            final(self).inner == *final(r.tx.inner),
            final(self).ifaces == *final(r.tx.ifaces),
            final(self).udp == old(self).udp,
            final(self).listeners == old(self).listeners,
    {
        TcpSocket {
            sockets: &mut self.tcp,
            index: handle.index,
            tx: TxContext { inner: &mut self.inner, ifaces: &mut self.ifaces },
        }
    }

    /// The TCP sockets, one after the other.
    pub fn tcp_sockets<'a>(&'a mut self) -> (r: TcpSocketIter<'a, 'd>)
        ensures
            r.next == 0,
            r.current() == *old(self),
            *final(self) == *final(r.stack),
    {
        TcpSocketIter { stack: self, next: 0 }
    }

    /// Adds a TCP listener, which listens nowhere.
    pub fn add_tcp_listener(&mut self) -> (r: Result<TcpListenerHandle, Full>)
        requires
            old(self).inv(),
        ensures
            final(self).inv(),
            final(self).net() == old(self).net(),
            final(self).udp == old(self).udp,
            final(self).tcp == old(self).tcp,
            match r {
                Ok(handle) => {
                    &&& handle.index == slab::first_free(old(self).listeners@)
                    &&& exists|s: TcpListenerState|
                        {
                            &&& s@ == tcp::listener::ListenerView::initial()
                            &&& final(self).listeners@ == #[trigger] slab::added(
                                old(self).listeners@,
                                s,
                            )
                        }
                },
                Err(_) => {
                    &&& slab::first_free(old(self).listeners@) == TCP_LISTENER_COUNT
                    &&& final(self).listeners@ == old(self).listeners@
                },
            },
    {
        let state = TcpListenerState::new();
        let ghost slots = self.listeners@;
        let r = match self.listeners.insert(state) {
            Ok(index) => Ok(TcpListenerHandle { index }),
            Err(e) => Err(e),
        };
        proof {
            assert forall|i: int| #[trigger] slab::occupied(self.listeners@, i) implies
                self.listeners@[i]->0@.inv() by {
                slab::law_slot_is_found_again(slots, state, i);
                if i < slots.len() && slots[i] is Some {
                    assert(slab::occupied(slots, i));
                }
            }
        }
        r
    }

    /// Removes a TCP listener.
    pub fn remove_tcp_listener(&mut self, handle: TcpListenerHandle)
        requires
            old(self).inv(),
            slab::occupied(old(self).listeners@, handle.index as int),
        ensures
            final(self).inv(),
            final(self).net() == old(self).net(),
            final(self).udp == old(self).udp,
            final(self).tcp == old(self).tcp,
            final(self).listeners@ == old(self).listeners@.update(handle.index as int, None),
    {
        let ghost slots = self.listeners@;
        self.listeners.remove(handle.index);
        proof {
            assert forall|i: int| #[trigger] slab::occupied(self.listeners@, i) implies
                self.listeners@[i]->0@.inv() by {
                assert(slab::occupied(slots, i));
            }
        }
    }

    /// A TCP listener.
    pub fn tcp_listener<'a>(&'a mut self, handle: TcpListenerHandle) -> (r: TcpListener<'a, 'd>)
        requires
            old(self).inv(),
            slab::occupied(old(self).listeners@, handle.index as int),
        ensures
            r.inv(),
            r.index == handle.index,
            r.slots() == old(self).listeners@,
            r.socket_slots() == old(self).tcp@,
            r.random() == old(self).inner.rand,
            final(self).listeners == *final(r.listeners),
            final(self).tcp == *final(r.sockets),
            final(self).inner == (StackInner { rand: *final(r.rand), ..old(self).inner }),
            final(self).ifaces == old(self).ifaces,
            final(self).udp == old(self).udp,
    {
        TcpListener {
            listeners: &mut self.listeners,
            index: handle.index,
            sockets: &mut self.tcp,
            rand: &mut self.inner.rand,
        }
    }

    /// What is needed to send a packet.
    pub fn tx_context<'a>(&'a mut self) -> (r: TxContext<'a>)
        ensures
            r@ == old(self).net(),
            final(self).inner == *final(r.inner),
            final(self).ifaces == *final(r.ifaces),
            final(self).udp == old(self).udp,
            final(self).tcp == old(self).tcp,
            final(self).listeners == old(self).listeners,
    {
        TxContext { inner: &mut self.inner, ifaces: &mut self.ifaces }
    }

    /// Whether a packet could not be sent, since this was last asked, for want of a
    /// buffer or of room.
    pub fn take_packet_allocator_starved(&mut self) -> (r: bool)
        ensures
            r == old(self).inner.tx_starved,
            final(self).inner == (StackInner { tx_starved: false, ..old(self).inner }),
            final(self).ifaces == old(self).ifaces,
            final(self).udp == old(self).udp,
            final(self).tcp == old(self).tcp,
            final(self).listeners == old(self).listeners,
    {
        let r: bool = self.inner.tx_starved;
        self.inner.tx_starved = false;
        r
    }
}

/// The `k`-th port to try, from a random start on.
pub open spec fn ephemeral_port(start: u32, k: int) -> u16 {
    (EPHEMERAL_PORT_MIN + (start as int + k) % (EPHEMERAL_PORT_COUNT as int)) as u16
}

/// Allocates a port that is not in use, from a random starting point of the range
/// on. `None` if every port of the range is in use.
pub fn alloc_ephemeral_port<F>(rand: &mut Rand, in_use: F) -> (r: Option<u16>)
    where F: Fn(u16) -> bool
    requires
        forall|port: u16| #[trigger] in_use.requires((port,)),
    ensures
        *final(rand) == old(rand).next(),
        match r {
            Some(port) => exists|k: int|
                {
                    &&& 0 <= k < EPHEMERAL_PORT_COUNT
                    &&& port == #[trigger] ephemeral_port(old(rand).next().value(), k)
                    &&& in_use.ensures((port,), false)
                    &&& forall|j: int|
                        0 <= j < k ==> in_use.ensures(
                            (#[trigger] ephemeral_port(old(rand).next().value(), j),),
                            true,
                        )
                },
            None => forall|j: int|
                0 <= j < EPHEMERAL_PORT_COUNT ==> in_use.ensures(
                    (#[trigger] ephemeral_port(old(rand).next().value(), j),),
                    true,
                ),
        },
{
    let start: u32 = rand.rand_u32();
    let mut k: u16 = 0;
    while k < EPHEMERAL_PORT_COUNT
        invariant
            k <= EPHEMERAL_PORT_COUNT,
            start == old(rand).next().value(),
            *rand == old(rand).next(),
            forall|port: u16| #[trigger] in_use.requires((port,)),
            forall|j: int|
                0 <= j < k ==> in_use.ensures((#[trigger] ephemeral_port(start, j),), true),
        decreases EPHEMERAL_PORT_COUNT - k,
    {
        let offset: u64 = (start as u64 + k as u64) % EPHEMERAL_PORT_COUNT as u64;
        let port: u16 = EPHEMERAL_PORT_MIN + offset as u16;
        assert(port == ephemeral_port(start, k as int));
        if !in_use(port) {
            return Some(port);
        }
        k = k + 1;
    }
    None
}

/// The first port, from the `k`-th to try on, that is not taken.
pub open spec fn free_port(start: u32, k: int, taken: spec_fn(u16) -> bool) -> Option<u16>
    decreases EPHEMERAL_PORT_COUNT - k,
{
    if k >= EPHEMERAL_PORT_COUNT {
        None
    } else if !taken(ephemeral_port(start, k)) {
        Some(ephemeral_port(start, k))
    } else {
        free_port(start, k + 1, taken)
    }
}

/// A port is the first that is not taken if it is not and those before it are.
pub proof fn lemma_free_port(start: u32, from: int, k: int, taken: spec_fn(u16) -> bool)
    requires
        0 <= from <= k <= EPHEMERAL_PORT_COUNT,
        k < EPHEMERAL_PORT_COUNT ==> !taken(ephemeral_port(start, k)),
        forall|j: int| from <= j < k ==> taken(#[trigger] ephemeral_port(start, j)),
    ensures
        free_port(start, from, taken) == if k < EPHEMERAL_PORT_COUNT {
            Some(ephemeral_port(start, k))
        } else {
            None
        },
    decreases k - from,
{
    if from < k {
        lemma_free_port(start, from + 1, k, taken);
    }
}

/// Every port of the range is tried, wherever the search starts, and none of them
/// twice.
pub proof fn law_every_port_is_tried(start: u32, port: u16)
    requires
        EPHEMERAL_PORT_MIN <= port,
    ensures
        exists|k: int|
            0 <= k < EPHEMERAL_PORT_COUNT && #[trigger] ephemeral_port(start, k) == port,
        forall|j: int, k: int|
            0 <= j < EPHEMERAL_PORT_COUNT && 0 <= k < EPHEMERAL_PORT_COUNT
                && #[trigger] ephemeral_port(start, j) == #[trigger] ephemeral_port(start, k)
                ==> j == k,
{
    let n = EPHEMERAL_PORT_COUNT as int;
    let k = (port - EPHEMERAL_PORT_MIN - (start as int) % n + n) % n;
    assert((start as int + k) % n == port - EPHEMERAL_PORT_MIN);
    assert(ephemeral_port(start, k) == port);
}

/// A port that is found is not taken; none is found only if all of them are taken.
pub proof fn law_port_is_free(start: u32, taken: spec_fn(u16) -> bool)
    ensures
        match free_port(start, 0, taken) {
            Some(port) => port >= EPHEMERAL_PORT_MIN && !taken(port),
            None => forall|port: u16| port >= EPHEMERAL_PORT_MIN ==> #[trigger] taken(port),
        },
{
    lemma_port_is_free(start, 0, taken);
    if free_port(start, 0, taken) is None {
        assert forall|port: u16| port >= EPHEMERAL_PORT_MIN implies #[trigger] taken(port) by {
            law_every_port_is_tried(start, port);
            let k = choose|k: int|
                0 <= k < EPHEMERAL_PORT_COUNT && #[trigger] ephemeral_port(start, k) == port;
            assert(taken(ephemeral_port(start, k)));
        }
    }
}

proof fn lemma_port_is_free(start: u32, from: int, taken: spec_fn(u16) -> bool)
    requires
        0 <= from <= EPHEMERAL_PORT_COUNT,
    ensures
        match free_port(start, from, taken) {
            Some(port) => port >= EPHEMERAL_PORT_MIN && !taken(port),
            None => forall|k: int|
                from <= k < EPHEMERAL_PORT_COUNT ==> taken(#[trigger] ephemeral_port(start, k)),
        },
    decreases EPHEMERAL_PORT_COUNT - from,
{
    if from < EPHEMERAL_PORT_COUNT {
        lemma_port_is_free(start, from + 1, taken);
    }
}

/// A packet to a network that an interface has an address in goes out of the first such
/// interface, to its destination itself. Otherwise it goes to the gateway of the first route
/// to its network whose interface there is. Otherwise it goes nowhere.
pub proof fn law_packet_takes_the_first_way(
    routes: Seq<Route>,
    ifaces: Seq<Option<Iface>>,
    addr: IpAddress,
    k: int,
    j: int,
)
    requires
        ifaces.len() <= usize::MAX,
        0 <= k < ifaces.len(),
        0 <= j < routes.len(),
    ensures
        ({
            let near = |i: int|
                0 <= i < ifaces.len() && ifaces[i] is Some && exists|n: int|
                    0 <= n < ifaces[i]->0.ip_addrs@.len() && (
                    #[trigger] ifaces[i]->0.ip_addrs@[n]).spec_contains(addr);
            let leads = |r: Route|
                r.network.spec_contains(addr) && r.iface < ifaces.len() && ifaces[r.iface as int]
                    is Some;
            match egress(routes, ifaces, addr) {
                Some(way) => {
                    &&& way.iface < ifaces.len()
                    &&& ifaces[way.iface as int] is Some
                    &&& way.ip_mtu == ifaces[way.iface as int]->0.spec_ip_mtu()
                    &&& near(k) ==> near(way.iface as int) && way.iface <= k && way.next_hop
                        == addr
                    &&& near(way.iface as int) && way.next_hop == addr || exists|n: int|
                        {
                            &&& 0 <= n < routes.len()
                            &&& leads(#[trigger] routes[n])
                            &&& routes[n].iface == way.iface
                            &&& routes[n].gateway == way.next_hop
                            &&& leads(routes[j]) ==> n <= j
                        }
                },
                None => !near(k) && !leads(routes[j]),
            }
        }),
{
    lemma_iface_serving(ifaces, 0, addr, k);
    lemma_route_to(routes, ifaces, 0, addr, j);
    assert(serves(ifaces, k, addr) <==> slab::occupied(ifaces, k) && iface::reaches(
        ifaces[k]->0.ip_addrs@,
        addr,
    ));
    if let Some(i) = iface_serving(ifaces, 0, addr) {
        assert(serves(ifaces, i, addr));
    }
}

proof fn lemma_iface_serving(ifaces: Seq<Option<Iface>>, from: int, addr: IpAddress, k: int)
    requires
        0 <= from <= ifaces.len(),
        0 <= k < ifaces.len(),
    ensures
        match iface_serving(ifaces, from, addr) {
            Some(i) => {
                &&& from <= i < ifaces.len()
                &&& serves(ifaces, i, addr)
                &&& from <= k && serves(ifaces, k, addr) ==> i <= k
            },
            None => from <= k ==> !serves(ifaces, k, addr),
        },
    decreases ifaces.len() - from,
{
    if from < ifaces.len() {
        lemma_iface_serving(ifaces, from + 1, addr, k);
    }
}

proof fn lemma_route_to(
    routes: Seq<Route>,
    ifaces: Seq<Option<Iface>>,
    from: int,
    addr: IpAddress,
    j: int,
)
    requires
        0 <= from <= routes.len(),
        0 <= j < routes.len(),
    ensures
        ({
            let leads = |r: Route|
                r.network.spec_contains(addr) && slab::occupied(ifaces, r.iface as int);
            match route_to(routes, ifaces, from, addr) {
                Some(route) => exists|n: int|
                    {
                        &&& from <= n < routes.len()
                        &&& #[trigger] routes[n] == route
                        &&& leads(route)
                        &&& from <= j && leads(routes[j]) ==> n <= j
                    },
                None => from <= j ==> !leads(routes[j]),
            }
        }),
    decreases routes.len() - from,
{
    if from < routes.len() {
        lemma_route_to(routes, ifaces, from + 1, addr, j);
        if routes[from].network.spec_contains(addr) && slab::occupied(
            ifaces,
            routes[from].iface as int,
        ) {
            assert(routes[from] == route_to(routes, ifaces, from, addr)->0);
        }
    }
}

/// The address from which a packet is sent is one of the interface on its way, in the
/// network of the neighbor that it is handed to, if the interface has one there.
pub proof fn law_source_is_on_the_way(net: NetView, addr: IpAddress, way: EgressRoute, k: int)
    requires
        net.route(addr) == Some(way),
        0 <= k < net.ifaces[way.iface as int]->0.ip_addrs@.len(),
    ensures
        ({
            let addrs = net.ifaces[way.iface as int]->0.ip_addrs@;
            match net.source(addr) {
                Some(source) => exists|i: int|
                    {
                        &&& 0 <= i < addrs.len()
                        &&& (#[trigger] addrs[i]).address == source
                        &&& addrs[k].spec_contains(way.next_hop) ==> addrs[i].spec_contains(
                            way.next_hop,
                        )
                    },
                None => !addrs[k].spec_contains(way.next_hop),
            }
        }),
{
    iface::law_source_is_in_the_network(
        net.ifaces[way.iface as int]->0.ip_addrs@,
        way.next_hop,
        k,
    );
}

/// The ports that are tried are those from 49152 to 65535. The random number says which
/// one comes first, and the others follow in a circle.
pub proof fn law_ports_are_tried_in_a_circle(start: u32, k: int)
    requires
        0 <= k < 16384,
    ensures
        49152 <= ephemeral_port(start, k) <= 65535,
        ephemeral_port(start, 0) == 49152 + start as int % 16384,
        k < 16383 && ephemeral_port(start, k) < 65535 ==> ephemeral_port(start, k + 1)
            == ephemeral_port(start, k) + 1,
        k < 16383 && ephemeral_port(start, k) == 65535 ==> ephemeral_port(start, k + 1) == 49152,
{
}

/// A packet that is handed over to a device that carries IP packets is the last one that it
/// transmits, if it has room, and its buffer is free again in any case. On another medium it
/// waits, behind those that wait already. No other interface takes part.
pub proof fn law_packet_reaches_its_device(
    a: NetView,
    b: NetView,
    route: EgressRoute,
    data: Seq<u8>,
    meta: PacketMeta,
    k: int,
)
    requires
        handed_over(a, b, route, data, meta),
        0 <= k < a.ifaces.len(),
    ensures
        ({
            let before = a.ifaces[route.iface as int]->0.device@;
            let after = b.ifaces[route.iface as int]->0.device@;
            &&& k != route.iface ==> b.ifaces[k] == a.ifaces[k]
            &&& before.medium == Medium::Ip && before.has_room() ==> after.tx.len() == before.tx.len()
                + 1 && after.tx.last() == data && after.tx_meta.last() == meta
            &&& before.medium == Medium::Ip && !before.has_room() ==> after == before
            &&& before.medium == Medium::Ip && a.inner.pool.free < usize::MAX ==> b.inner.pool.free
                == a.inner.pool.free + 1
            &&& before.medium == Medium::Ip ==> b.inner.waiting == a.inner.waiting
            &&& before.medium != Medium::Ip ==> {
                let n = a.inner.waiting@.len() as int;
                &&& after == before
                &&& b.inner.waiting@.len() == n + 1
                &&& b.inner.waiting@[n].buf@.data() == data
                &&& b.inner.waiting@[n].next_hop == route.next_hop
                &&& b.inner.waiting@[n].iface == route.iface
                &&& b.inner.pool == a.inner.pool
            }
        }),
{
    let before = a.ifaces[route.iface as int]->0.device@;
    if before.medium != Medium::Ip {
        let x = waiting_views(a.inner.waiting@);
        let y = waiting_views(b.inner.waiting@);
        assert(y.len() == x.len() + 1);
        assert(y[x.len() as int].data == data);
    }
}

} // verus!
