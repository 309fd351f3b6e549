//! What becomes of a datagram on its way out and on its way in.
use super::errors::{BindError, RecvError, SendError};
use super::reject;
use super::socket::{self, BindOutcome, SendOutcome};
use super::state::{self, UdpMetadata, UdpSocketState, UdpView};
use crate::driver::{Medium, PacketMeta, PacketPool, PacketView};
use crate::iface;
use crate::stack;
use crate::stack::{EgressRoute, NetView};
use crate::storage::slab;
use crate::wire::{
    bytes, layout, packet, refusal, udp, IpAddress, IpEndpoint, IpListenEndpoint, IpProtocol,
    Ipv4Address, Ipv6Address,
};
use vstd::prelude::*;

verus! {

/// The address stands for no single host.
pub open spec fn is_open_address(addr: IpAddress) -> bool {
    addr == IpAddress::Ipv4(Ipv4Address(0)) || addr == IpAddress::Ipv6(Ipv6Address(0))
}

/// The address is one of those of an interface of the stack.
pub open spec fn is_ours(net: NetView, addr: IpAddress) -> bool {
    exists|i: int, k: int|
        0 <= i < net.ifaces.len() && net.ifaces[i] is Some && 0 <= k
            < net.ifaces[i]->0.ip_addrs@.len() && (#[trigger] net.ifaces[i]->0.ip_addrs@[k]).address
            == addr
}

proof fn lemma_owns(net: NetView, addr: IpAddress)
    ensures
        stack::owns(net.ifaces, addr) <==> is_ours(net, addr),
{
    if stack::owns(net.ifaces, addr) {
        let i = choose|i: int|
            #[trigger] slab::occupied(net.ifaces, i) && iface::has_addr(
                net.ifaces[i]->0.ip_addrs@,
                addr,
            );
        let a = net.ifaces[i]->0.ip_addrs@;
        let k = choose|k: int| 0 <= k < a.len() && (#[trigger] a[k]).address == addr;
        assert(net.ifaces[i]->0.ip_addrs@[k].address == addr);
    }
    if is_ours(net, addr) {
        let (i, k) = choose|i: int, k: int|
            0 <= i < net.ifaces.len() && net.ifaces[i] is Some && 0 <= k
                < net.ifaces[i]->0.ip_addrs@.len() && (
            #[trigger] net.ifaces[i]->0.ip_addrs@[k]).address == addr;
        assert(slab::occupied(net.ifaces, i));
        assert(iface::has_addr(net.ifaces[i]->0.ip_addrs@, addr));
    }
}

/// A datagram is sent from the address that is asked for, or else from the one that the
/// socket is bound to; it is one of the stack, and of the version of the destination. The
/// route is that to the destination. There is room in the device, a buffer is free, and
/// the datagram fits into it behind its headers.
pub proof fn law_datagram_is_sent_from_us(
    v: UdpView,
    net: NetView,
    meta: UdpMetadata,
    max_size: usize,
)
    ensures
        socket::send_outcome(v, net, meta, max_size) matches SendOutcome::Sent { src, dst, route }
            ==> {
            let bound = match v.local.addr {
                Some(addr) => !is_open_address(addr),
                None => false,
            };
            let header = if dst.addr is Ipv4 {
                20int
            } else {
                40
            };
            &&& v.local.port != 0
            &&& meta.local_address matches Some(addr) ==> src == addr
            &&& meta.local_address is None && bound ==> Some(src) == v.local.addr
            &&& is_ours(net, src)
            &&& src is Ipv4 <==> dst.addr is Ipv4
            &&& v.local.addr matches Some(addr) ==> (addr is Ipv4 <==> dst.addr is Ipv4)
            &&& net.route(dst.addr) == Some(route)
            &&& net.ifaces[route.iface as int]->0.device@.has_room()
            &&& net.inner.pool.free > 0
            &&& 14 + header + 8 + max_size <= net.inner.pool.buffer_len
        },
{
    if let SendOutcome::Sent { src, .. } = socket::send_outcome(v, net, meta, max_size) {
        lemma_owns(net, src);
    }
}

/// Why a datagram is refused: the socket is not bound; or there is no destination, no
/// route to it, or no address of the stack to send it from; or the device has no room; or
/// no buffer is free; or it does not fit into one. Nothing else stands in its way.
pub proof fn law_sending_fails_for_a_reason(
    v: UdpView,
    net: NetView,
    meta: UdpMetadata,
    max_size: usize,
    dst: IpEndpoint,
    src: IpAddress,
    route: EgressRoute,
)
    requires
        !is_open_address(dst.addr),
        dst.port != 0,
        meta.endpoint.addr == dst.addr || (is_open_address(meta.endpoint.addr) && v.remote.addr
            == Some(dst.addr)),
        meta.endpoint.port == dst.port || (meta.endpoint.port == 0 && v.remote.port == dst.port),
        v.local.addr matches Some(addr) ==> (addr is Ipv4 <==> dst.addr is Ipv4),
        net.route(dst.addr) == Some(route),
        is_ours(net, src),
        src is Ipv4 <==> dst.addr is Ipv4,
        meta.local_address == Some(src) || (meta.local_address is None && v.local.addr == Some(src)
            && !is_open_address(src)),
    ensures
        ({
            let outcome = socket::send_outcome(v, net, meta, max_size);
            let header = if dst.addr is Ipv4 {
                20int
            } else {
                40
            };
            let dev = net.ifaces[route.iface as int]->0.device@;
            if v.local.port == 0 {
                outcome == SendOutcome::Refused(SendError::InvalidState)
            } else if !dev.has_room() {
                outcome == SendOutcome::Starved(SendError::DeviceBusy)
            } else if net.inner.pool.free == 0 {
                outcome == SendOutcome::Starved(SendError::NoBuffer)
            } else if 14 + header + 8 + max_size > net.inner.pool.buffer_len {
                outcome == SendOutcome::Refused(SendError::BufferFull)
            } else {
                outcome == (SendOutcome::Sent { src, dst, route })
            }
        }),
{
    lemma_owns(net, src);
}

/// Without a port to send from, a destination, a route to it, or an address of the stack
/// to send from, nothing is sent.
pub proof fn law_unaddressable_is_refused(
    v: UdpView,
    net: NetView,
    meta: UdpMetadata,
    max_size: usize,
)
    ensures
        ({
            let outcome = socket::send_outcome(v, net, meta, max_size);
            let given = meta.endpoint;
            &&& v.local.port == 0 <==> outcome == SendOutcome::Refused(SendError::InvalidState)
            &&& v.local.port != 0 && given.port == 0 && v.remote.port == 0 ==> outcome
                == SendOutcome::Refused(SendError::Unaddressable)
            &&& v.local.port != 0 && is_open_address(given.addr) && (v.remote.addr is None
                || is_open_address(v.remote.addr->0)) ==> outcome == SendOutcome::Refused(
                SendError::Unaddressable,
            )
            &&& v.local.port != 0 && !is_open_address(given.addr) && net.route(given.addr) is None
                ==> outcome == SendOutcome::Refused(SendError::Unaddressable)
            &&& v.local.port != 0 && meta.local_address is Some && !is_ours(
                net,
                meta.local_address->0,
            ) ==> outcome == SendOutcome::Refused(SendError::Unaddressable)
        }),
{
    if let Some(addr) = meta.local_address {
        lemma_owns(net, addr);
    }
}

/// The packet that carries a datagram says so, octet by octet: the addresses, the
/// protocol and the hop limit in the IP header, the ports and the length in the UDP header,
/// and then the payload.
pub proof fn law_sent_packet_says_where_to(
    net: NetView,
    src: IpAddress,
    src_port: u16,
    dst: IpEndpoint,
    route: EgressRoute,
    hop_limit: u8,
    payload: Seq<u8>,
)
    requires
        src is Ipv4 <==> dst.addr is Ipv4,
        28 + payload.len() <= 65535,
    ensures
        ({
            let d = socket::sent_packet(net, src, src_port, dst, route, hop_limit, payload);
            let n = if dst.addr is Ipv4 {
                20int
            } else {
                40
            };
            &&& d.len() == n + 8 + payload.len()
            &&& dst.addr matches IpAddress::Ipv4(a) ==> {
                &&& d[0] == 0x45
                &&& d[8] == hop_limit
                &&& d[9] == 17
                &&& bytes::field(d, 12, 4) == src->Ipv4_0.0
                &&& bytes::field(d, 16, 4) == a.0
            }
            &&& dst.addr matches IpAddress::Ipv6(a) ==> {
                &&& d[0] == 0x60
                &&& d[6] == 17
                &&& d[7] == hop_limit
                &&& bytes::field(d, 8, 16) == src->Ipv6_0.0
                &&& bytes::field(d, 24, 16) == a.0
            }
            &&& bytes::field(d, n, 2) == src_port
            &&& bytes::field(d, n + 2, 2) == dst.port
            &&& bytes::field(d, n + 4, 2) == 8 + payload.len()
            &&& d.skip(n + 8) == payload
        }),
{
    let caps = net.ifaces[route.iface as int]->0.device@.checksum;
    let u = udp::datagram(src, src_port, dst.addr, dst.port, payload, caps.udp.tx);
    let d = socket::sent_packet(net, src, src_port, dst, route, hop_limit, payload);
    layout::law_datagram_has_its_layout(src, src_port, dst.addr, dst.port, payload, caps.udp.tx);
    let h = packet::header(
        src,
        dst.addr,
        IpProtocol::Udp,
        hop_limit,
        u.len() as int,
        caps.ipv4.tx,
    );
    let n = h.len() as int;
    match (src, dst.addr) {
        (IpAddress::Ipv4(a), IpAddress::Ipv4(b)) => {
            layout::law_ipv4_header_has_its_layout(
                a,
                b,
                IpProtocol::Udp,
                hop_limit,
                u.len() as int,
                caps.ipv4.tx,
            );
            assert(d.subrange(12, 16) =~= h.subrange(12, 16));
            assert(d.subrange(16, 20) =~= h.subrange(16, 20));
        },
        (IpAddress::Ipv6(a), IpAddress::Ipv6(b)) => {
            layout::law_ipv6_header_has_its_layout(
                a,
                b,
                IpProtocol::Udp,
                hop_limit,
                u.len() as int,
                caps.ipv4.tx,
            );
            assert(d.subrange(8, 24) =~= h.subrange(8, 24));
            assert(d.subrange(24, 40) =~= h.subrange(24, 40));
        },
        _ => {},
    }
    assert(d.subrange(n, n + 2) =~= u.subrange(0, 2));
    assert(d.subrange(n + 2, n + 4) =~= u.subrange(2, 4));
    assert(d.subrange(n + 4, n + 6) =~= u.subrange(4, 6));
    assert(d.skip(n + 8) =~= u.skip(8));
}

/// Packets have the hop limit that was set, and 64 otherwise.
pub proof fn law_hop_limit_is_the_one_set(v: UdpView)
    ensures
        v.hop_limit matches Some(n) ==> socket::hop_limit_of(v) == n,
        v.hop_limit is None ==> socket::hop_limit_of(v) == 64,
{
}

/// What is read of a packet that arrived is what its octets say: the source address and
/// port, the destination address, and the payload, as long as the UDP header says it is.
/// The UDP header follows the IP header and its options, and for IPv6 the hop-by-hop
/// options, if there are any.
pub proof fn law_received_is_what_the_packet_says(p: PacketView)
    requires
        state::is_queueable(p),
    ensures
        ({
            let d = p.data();
            let m = state::datagram_meta(p);
            let at = if d[0] as int / 16 == 4 {
                d[0] as int % 16 * 4
            } else if d[6] == 0 {
                40 + (d[41] + 1) * 8
            } else {
                40
            };
            &&& d[0] as int / 16 == 4 || d[0] as int / 16 == 6
            &&& d[0] as int / 16 == 4 ==> {
                &&& m.endpoint.addr is Ipv4 && m.endpoint.addr->Ipv4_0.0 == bytes::field(d, 12, 4)
                &&& m.local_address matches Some(IpAddress::Ipv4(a)) && a.0 == bytes::field(
                    d,
                    16,
                    4,
                )
            }
            &&& d[0] as int / 16 == 6 ==> {
                &&& m.endpoint.addr is Ipv6 && m.endpoint.addr->Ipv6_0.0 == bytes::field(d, 8, 16)
                &&& m.local_address matches Some(IpAddress::Ipv6(a)) && a.0 == bytes::field(
                    d,
                    24,
                    16,
                )
            }
            &&& m.endpoint.port == bytes::field(d, at, 2)
            &&& m.meta == p.meta
            &&& state::datagram_payload(p) == d.subrange(at + 8, at + bytes::field(d, at + 4, 2))
        }),
{
    let d = p.data();
    let at = packet::transport_offset(d);
    bytes::lemma_limits();
    bytes::lemma_number_bound(d.subrange(12, 16));
    bytes::lemma_number_bound(d.subrange(16, 20));
    if d[0] / 16 == 6 {
        bytes::lemma_number_bound(d.subrange(8, 24));
        bytes::lemma_number_bound(d.subrange(24, 40));
    }
    let t = d.skip(at);
    bytes::lemma_number_bound(t.subrange(0, 2));
    assert(t.subrange(0, 2) =~= d.subrange(at, at + 2));
    assert(t.subrange(4, 6) =~= d.subrange(at + 4, at + 6));
}

/// Why nothing can be received: the socket is not bound, an error is reported first, or
/// nothing is there. Looking ahead is not kept from a datagram by an error.
pub proof fn law_receiving_fails_for_a_reason(v: UdpView)
    ensures
        v.recv_error() == Some(RecvError::InvalidState) <==> v.local.port == 0,
        v.local.port != 0 ==> (v.pending_error matches Some((error, remote)) ==> v.recv_error()
            == Some(RecvError::IcmpError { error, remote })),
        v.local.port != 0 && v.pending_error is None ==> (v.recv_error() is None
            <==> v.rx_queue.len() > 0),
        v.local.port != 0 && v.pending_error is None && v.rx_queue.len() == 0 ==> v.recv_error()
            == Some(RecvError::Exhausted),
        v.peek_error() is None <==> v.local.port != 0 && v.rx_queue.len() > 0,
        v.peek_error() == Some(RecvError::InvalidState) <==> v.local.port == 0,
{
}

/// A datagram is received once: the next one is the one that was queued behind it.
pub proof fn law_datagram_is_received_once(v: UdpView)
    requires
        v.local.port != 0,
        v.pending_error is None,
        v.rx_queue.len() > 0,
    ensures
        v.received().rx_queue.len() == v.rx_queue.len() - 1,
        forall|i: int|
            0 <= i < v.rx_queue.len() - 1 ==> #[trigger] v.received().rx_queue[i] == v.rx_queue[i
                + 1],
        v.received().local == v.local,
        v.received().remote == v.remote,
        v.received().hop_limit == v.hop_limit,
{
}

/// Why a bind is refused: the socket is bound already, its halves are of different
/// versions, there is no address from which to reach the remote, or another socket has
/// the same halves. Binding to a remote that is fully given settles the local address.
pub proof fn law_binding_fails_for_a_reason(
    slots: Seq<Option<UdpSocketState>>,
    i: int,
    net: NetView,
    local: IpListenEndpoint,
    remote: IpListenEndpoint,
)
    ensures
        ({
            let outcome = socket::bind_outcome(slots, i, net, local, remote);
            let bound = slots[i]->0.local.port != 0;
            let mixed = local.addr is Some && remote.addr is Some && (local.addr->0 is Ipv4
                != remote.addr->0 is Ipv4);
            let open = local.addr is None || is_open_address(local.addr->0);
            let connects = remote.addr is Some && !is_open_address(remote.addr->0) && remote.port
                != 0;
            let unreachable = open && connects && net.source(remote.addr->0) is None;
            &&& bound <==> outcome == BindOutcome::Refused(BindError::InvalidState)
            &&& !bound && (mixed || unreachable) <==> outcome == BindOutcome::Refused(
                BindError::Unaddressable,
            )
            &&& outcome matches BindOutcome::Bound { local: l, allocated } ==> {
                &&& open && connects ==> l.addr == net.source(remote.addr->0)
                &&& !(open && connects) ==> l.addr == local.addr
                &&& allocated ==> l.port >= 49152
                &&& !allocated ==> l.port == local.port
            }
        }),
{
    if let Ok(addr) = socket::bind_addr(net, local, remote) {
        stack::law_port_is_free(
            net.inner.rand.next().value(),
            socket::port_taken(slots, i, addr, remote),
        );
    }
}

/// Binding gives the socket its two halves, and closing takes them away again.
pub proof fn law_bound_socket_has_its_halves(
    v: UdpView,
    local: IpListenEndpoint,
    remote: IpListenEndpoint,
)
    ensures
        v.bound(local, remote).local == local,
        v.bound(local, remote).remote == remote,
        v.bound(local, remote).rx_queue == v.rx_queue,
        v.bound(local, remote).hop_limit == v.hop_limit,
        v.bound(local, remote).pending_error == v.pending_error,
        v.bound(local, remote).closed().local == (IpListenEndpoint { addr: None, port: 0 }),
        v.bound(local, remote).closed().remote == (IpListenEndpoint { addr: None, port: 0 }),
{
}

/// The sender of a datagram that nobody takes is told only if the datagram went from one
/// host to one host: neither address is open, a multicast address or a broadcast address,
/// both are of one version, and the destination is one of ours. The answer takes the route
/// to the sender.
pub proof fn law_only_hosts_are_answered(
    net: NetView,
    iface: usize,
    src: IpAddress,
    dst: IpAddress,
)
    ensures
        ({
            let addrs = net.ifaces[iface as int]->0.ip_addrs@;
            let host = |a: IpAddress| !is_open_address(a) && !super::laws::is_group(addrs, a);
            reject::answer_route(net, iface, src, dst) == if host(src) && host(dst) && (src is Ipv4
                == dst is Ipv4) && is_ours(net, dst) {
                net.route(src)
            } else {
                None
            }
        }),
{
    lemma_owns(net, dst);
    lemma_no_host(net, iface, src);
    lemma_no_host(net, iface, dst);
}

proof fn lemma_no_host(net: NetView, iface: usize, addr: IpAddress)
    ensures
        reject::is_no_host(net, iface, addr) <==> is_open_address(addr) || super::laws::is_group(
            net.ifaces[iface as int]->0.ip_addrs@,
            addr,
        ),
{
    match addr {
        IpAddress::Ipv4(a) => {
            crate::wire::ip::law_multicast_is_a_block(a, Ipv6Address(0));
        },
        IpAddress::Ipv6(a) => {
            crate::wire::ip::law_multicast_is_a_block(Ipv4Address(0), a);
        },
    }
}

/// The answer to a datagram that nobody takes goes from where it was sent to where it came
/// from, with a hop limit of 64, and says that the port is unreachable. It quotes the
/// datagram from its IP header on, as much of it as fits into 576 octets (1280 for IPv6), the
/// MTU of the route and a buffer.
pub proof fn law_answer_quotes_the_datagram(
    net: NetView,
    route: EgressRoute,
    src: IpAddress,
    dst: IpAddress,
    d: Seq<u8>,
)
    requires
        src is Ipv4 <==> dst is Ipv4,
    ensures
        ({
            let a = reject::answer(net, route, src, dst, d);
            let n = if dst is Ipv4 {
                20int
            } else {
                40
            };
            let limit = if dst is Ipv4 {
                576int
            } else {
                1280
            };
            let quoted = a.len() - n - 8;
            &&& dst matches IpAddress::Ipv4(from) ==> {
                &&& a[8] == 64
                &&& a[9] == 1
                &&& bytes::field(a, 12, 4) == from.0
                &&& bytes::field(a, 16, 4) == src->Ipv4_0.0
                &&& a[20] == 3
                &&& a[21] == 3
            }
            &&& dst matches IpAddress::Ipv6(from) ==> {
                &&& a[6] == 58
                &&& a[7] == 64
                &&& bytes::field(a, 8, 16) == from.0
                &&& bytes::field(a, 24, 16) == src->Ipv6_0.0
                &&& a[40] == 1
                &&& a[41] == 4
            }
            &&& a.skip(n + 8) == d.take(quoted)
            &&& 0 <= quoted <= d.len()
            &&& quoted > 0 ==> a.len() <= limit && a.len() <= route.ip_mtu && a.len() + 14
                <= net.inner.pool.buffer_len
            &&& quoted < d.len() && quoted > 0 ==> a.len() == limit || a.len() == route.ip_mtu
                || a.len() + 14 == net.inner.pool.buffer_len
        }),
{
    let n = reject::quote_len(net.inner.pool.buffer_len, route, dst, d.len() as int);
    assert(0 <= n <= d.len());
    let quoted = d.take(n);
    let m = refusal::message(dst, src, quoted);
    layout::law_refusal_has_its_layout(dst, src, quoted);
    let a = reject::answer(net, route, src, dst, d);
    let filled = net.ifaces[route.iface as int]->0.device@.checksum.ipv4.tx;
    let h = packet::header(dst, src, refusal::protocol(dst), 64, 8 + n, filled);
    assert(n <= 1280);
    match (dst, src) {
        (IpAddress::Ipv4(x), IpAddress::Ipv4(y)) => {
            layout::law_ipv4_header_has_its_layout(
                x,
                y,
                refusal::protocol(dst),
                64,
                8 + n,
                filled,
            );
            assert(a.subrange(12, 16) =~= h.subrange(12, 16));
            assert(a.subrange(16, 20) =~= h.subrange(16, 20));
        },
        (IpAddress::Ipv6(x), IpAddress::Ipv6(y)) => {
            layout::law_ipv6_header_has_its_layout(
                x,
                y,
                refusal::protocol(dst),
                64,
                8 + n,
                filled,
            );
            assert(a.subrange(8, 24) =~= h.subrange(8, 24));
            assert(a.subrange(24, 40) =~= h.subrange(24, 40));
        },
        _ => {},
    }
    assert(a.skip(h.len() as int + 8) =~= m.skip(8));
}

/// No two sockets are bound to the same two halves: a bind succeeds only if no other socket
/// has them, is refused as a duplicate only if one has, and finds no port only if for every
/// port from 49152 on one has.
pub proof fn law_halves_are_not_shared(
    slots: Seq<Option<UdpSocketState>>,
    i: int,
    net: NetView,
    local: IpListenEndpoint,
    remote: IpListenEndpoint,
    k: int,
    port: u16,
)
    requires
        0 <= k < slots.len(),
        port >= 49152,
    ensures
        match socket::bind_outcome(slots, i, net, local, remote) {
            BindOutcome::Bound { local: l, .. } => k != i && slots[k] is Some ==> !(
            slots[k]->0.local == l && slots[k]->0.remote == remote),
            BindOutcome::NoPort => exists|j: int|
                0 <= j < slots.len() && j != i && (#[trigger] slots[j]) is Some
                    && slots[j]->0.local.port == port && slots[j]->0.remote == remote,
            BindOutcome::Refused(BindError::InUse) => exists|j: int|
                0 <= j < slots.len() && j != i && (#[trigger] slots[j]) is Some
                    && slots[j]->0.local.port == local.port && slots[j]->0.remote == remote,
            _ => true,
        },
{
    if let Ok(addr) = socket::bind_addr(net, local, remote) {
        let taken = socket::port_taken(slots, i, addr, remote);
        stack::law_port_is_free(net.inner.rand.next().value(), taken);
        if slots[k] is Some {
            assert(slab::occupied(slots, k));
        }
        match socket::bind_outcome(slots, i, net, local, remote) {
            BindOutcome::NoPort => {
                assert(taken(port));
                let j = choose|j: int|
                    j != i && #[trigger] slab::occupied(slots, j) && slots[j]->0.local == (
                    IpListenEndpoint { addr, port }) && slots[j]->0.remote == remote;
                assert(slots[j] is Some);
            },
            BindOutcome::Refused(BindError::InUse) => {
                let l = IpListenEndpoint { addr, port: local.port };
                let j = choose|j: int|
                    j != i && #[trigger] slab::occupied(slots, j) && slots[j]->0.local == l
                        && slots[j]->0.remote == remote;
                assert(slots[j] is Some);
            },
            _ => {},
        }
    }
}

/// Closing a socket frees one buffer for each datagram that waited.
pub proof fn law_closing_frees_the_buffers(pool: PacketPool, n: nat)
    requires
        pool.free + n <= usize::MAX,
    ensures
        socket::grown_by(pool, n).free == pool.free + n,
        socket::grown_by(pool, n).buffer_len == pool.buffer_len,
    decreases n,
{
    if n > 0 {
        law_closing_frees_the_buffers(pool, (n - 1) as nat);
    }
}

/// A datagram that nobody takes gives its buffer back. If its sender is to be told, and
/// there is room in a device that carries IP packets and another buffer, the answer is
/// the last packet that the device on the route transmits.
pub proof fn law_sender_is_told(
    a: NetView,
    b: NetView,
    iface: usize,
    src: IpAddress,
    dst: IpAddress,
    d: Seq<u8>,
)
    requires
        reject::rejected(a, b, iface, src, dst, d),
        a.inner.pool.free < usize::MAX,
    ensures
        match reject::answer_route(a, iface, src, dst) {
            None => b.inner.pool.free == a.inner.pool.free + 1 && b.ifaces == a.ifaces,
            Some(route) => {
                let dev = a.ifaces[route.iface as int]->0.device@;
                let after = b.ifaces[route.iface as int]->0.device@;
                if dev.has_room() && a.inner.pool.free > 0 {
                    dev.medium == Medium::Ip ==> after.tx == dev.tx.push(
                        reject::answer(a, route, src, dst, d),
                    ) && b.inner.pool.free == a.inner.pool.free + 1
                } else {
                    b.inner.pool.free == a.inner.pool.free + 1 && b.ifaces == a.ifaces
                }
            },
        },
{
    if let Some(route) = reject::answer_route(a, iface, src, dst) {
        let dev = a.ifaces[route.iface as int]->0.device@;
        if dev.has_room() && a.inner.pool.free > 0 {
            let c = a.with_pool(a.inner.pool.shrunk());
            let meta = PacketMeta { id: 0, request_timestamp: false };
            let data = reject::answer(a, route, src, dst, d);
            let sent = choose|sent: NetView|
                {
                    &&& #[trigger] stack::handed_over(c, sent, route, data, meta)
                    &&& b == sent.with_pool(sent.inner.pool.grown())
                };
            assert(sent.ifaces == b.ifaces);
        }
    }
}

} // verus!
