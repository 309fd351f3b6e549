//! Rules that UDP sockets keep.
use super::ingress::{self, UdpVerdict};
use super::socket::{self, BindOutcome, SendOutcome};
use super::state::{self, UdpMetadata, UdpSocketState, UdpView};
use super::{BindError, UDP_RX_QUEUE_COUNT};
use crate::driver::PacketView;
use crate::icmp_error::IcmpError;
use crate::stack;
use crate::stack::{EgressRoute, NetView, Stack};
use crate::wire::{
    bytes, packet, udp, IpAddress, IpCidr, IpEndpoint, IpListenEndpoint, IpProtocol, Ipv4Address,
    Ipv6Address, UDP_HEADER_LEN,
};
use vstd::prelude::*;

verus! {

/// What is sent can be received: the receiver of a packet reads from it the address and
/// the port it was sent from, the address it was sent to, and the payload, whether the
/// checksums are left to the devices or not.
pub proof fn law_sent_is_read_back(
    net: NetView,
    src: IpAddress,
    src_port: u16,
    dst: IpEndpoint,
    route: EgressRoute,
    hop_limit: u8,
    payload: Seq<u8>,
    p: PacketView,
)
    requires
        src.version() == dst.addr.version(),
        UDP_HEADER_LEN + payload.len() <= 65535,
        p.inv(),
        p.data() == socket::sent_packet(net, src, src_port, dst, route, hop_limit, payload),
    ensures
        state::is_queueable(p),
        state::datagram_meta(p).endpoint == (IpEndpoint { addr: src, port: src_port }),
        state::datagram_meta(p).local_address == Some(dst.addr),
        state::datagram_payload(p) == payload,
        packet::source(p.data()) == src,
        packet::destination(p.data()) == dst.addr,
{
    let caps = net.ifaces[route.iface as int]->0.device@.checksum;
    let d = udp::datagram(src, src_port, dst.addr, dst.port, payload, caps.udp.tx);
    udp::law_datagram_is_read_back(src, src_port, dst.addr, dst.port, payload, caps.udp.tx);
    packet::law_header_is_read_back(
        src,
        dst.addr,
        IpProtocol::Udp,
        hop_limit,
        d,
        caps.ipv4.tx,
    );
    let w = p.data();
    let at = packet::transport_offset(w);
    assert(w.skip(at) == d);
    assert(d.len() == UDP_HEADER_LEN + payload.len());
    assert(w.len() == at + d.len());
    assert(state::datagram_payload(p) =~= d.skip(UDP_HEADER_LEN as int));
}

/// A datagram to a port is never dropped on arrival as malformed or damaged: it goes to
/// a socket, or is found to be to a port that nobody listens on.
pub proof fn law_sent_is_not_dropped<'d>(
    net: NetView,
    src: IpAddress,
    src_port: u16,
    dst: IpEndpoint,
    route: EgressRoute,
    hop_limit: u8,
    payload: Seq<u8>,
    receiver: Stack<'d>,
    iface: usize,
)
    requires
        src.version() == dst.addr.version(),
        UDP_HEADER_LEN + payload.len() <= 65535,
        dst.port != 0,
    ensures
        ({
            let w = socket::sent_packet(net, src, src_port, dst, route, hop_limit, payload);
            let d = w.skip(packet::transport_offset(w));
            ingress::verdict(receiver, iface, src, dst.addr, d) !is Dropped
        }),
{
    let caps = net.ifaces[route.iface as int]->0.device@.checksum;
    let d = udp::datagram(src, src_port, dst.addr, dst.port, payload, caps.udp.tx);
    udp::law_datagram_is_read_back(src, src_port, dst.addr, dst.port, payload, caps.udp.tx);
    packet::law_header_is_read_back(
        src,
        dst.addr,
        IpProtocol::Udp,
        hop_limit,
        d,
        caps.ipv4.tx,
    );
}

/// Datagrams are received in the order in which they are queued. When the queue is full,
/// further ones are dropped, and what is queued stays.
pub proof fn law_first_queued_is_received_first(v: UdpView, p: PacketView)
    requires
        v.local.port != 0,
        v.pending_error is None,
        v.rx_queue.len() > 0,
    ensures
        v.enqueued(p).recv_error() is None,
        v.enqueued(p).rx_queue[0] == v.rx_queue[0],
        v.rx_queue.len() < UDP_RX_QUEUE_COUNT ==> v.enqueued(p).received().rx_queue
            == v.received().rx_queue.push(p),
        v.rx_queue.len() >= UDP_RX_QUEUE_COUNT ==> v.enqueued(p) == v,
{
    if v.rx_queue.len() < UDP_RX_QUEUE_COUNT {
        assert(v.rx_queue.push(p).skip(1) =~= v.rx_queue.skip(1).push(p));
    }
}

/// A pending error is reported by the next receive, once, and costs no datagram.
pub proof fn law_error_is_reported_once(v: UdpView)
    requires
        v.local.port != 0,
        v.pending_error is Some,
    ensures
        v.recv_error() is Some,
        v.received().pending_error is None,
        v.received().rx_queue == v.rx_queue,
        v.rx_queue.len() > 0 ==> v.received().recv_error() is None,
{
}

/// A socket is bound to a 4-tuple that no other socket of the stack has; a port is
/// allocated only if none is given, and refused only if all of the range are taken.
pub proof fn law_binding_is_unique(
    slots: Seq<Option<UdpSocketState>>,
    i: int,
    net: NetView,
    local: IpListenEndpoint,
    remote: IpListenEndpoint,
)
    ensures
        match socket::bind_outcome(slots, i, net, local, remote) {
            BindOutcome::Bound { local: bound, allocated } => {
                &&& !socket::tuple_in_use(slots, i, bound, remote)
                &&& bound.port != 0
                &&& allocated <==> local.port == 0
                &&& local.port != 0 ==> bound.port == local.port
                &&& local.concrete_addr() is Some ==> bound.addr == local.addr
            },
            BindOutcome::NoPort => local.port == 0 && forall|port: u16|
                port >= stack::EPHEMERAL_PORT_MIN ==> #[trigger] socket::port_taken(
                    slots,
                    i,
                    socket::bind_addr(net, local, remote)->Ok_0,
                    remote,
                )(port),
            BindOutcome::Refused(e) => e == BindError::InUse ==> socket::tuple_in_use(
                slots,
                i,
                IpListenEndpoint {
                    addr: socket::bind_addr(net, local, remote)->Ok_0,
                    port: local.port,
                },
                remote,
            ),
        },
{
    if let Ok(addr) = socket::bind_addr(net, local, remote) {
        stack::law_port_is_free(
            net.inner.rand.next().value(),
            socket::port_taken(slots, i, addr, remote),
        );
    }
}

/// Closing a socket unbinds it and forgets what it received; only its hop limit stays.
pub proof fn law_closed_is_unbound(v: UdpView)
    ensures
        v.closed().local.port == 0,
        v.closed().rx_queue.len() == 0,
        v.closed().pending_error is None,
        v.closed().hop_limit == v.hop_limit,
        v.closed().closed() == v.closed(),
{
}

/// A datagram goes to the address and the port that it is sent to. Only what is left
/// unspecified, an address `0.0.0.0` or `::` or a zero port, is taken from the remote that
/// the socket is bound to, and if that leaves it open too, nothing is sent.
pub proof fn law_datagram_goes_where_it_is_sent(
    v: UdpView,
    net: NetView,
    meta: UdpMetadata,
    max_size: usize,
)
    ensures
        ({
            let given = meta.endpoint;
            let open_addr = given.addr == IpAddress::Ipv4(Ipv4Address(0)) || given.addr
                == IpAddress::Ipv6(Ipv6Address(0));
            match socket::send_outcome(v, net, meta, max_size) {
                SendOutcome::Sent { dst, .. } => {
                    &&& !open_addr ==> dst.addr == given.addr
                    &&& given.port != 0 ==> dst.port == given.port
                    &&& open_addr ==> v.remote.addr == Some(dst.addr)
                    &&& given.port == 0 ==> dst.port == v.remote.port
                    &&& dst.port != 0
                    &&& dst.addr != IpAddress::Ipv4(Ipv4Address(0))
                    &&& dst.addr != IpAddress::Ipv6(Ipv6Address(0))
                },
                _ => true,
            }
        }),
        (meta.endpoint.port == 0 && v.remote.port == 0) ==> socket::send_outcome(
            v,
            net,
            meta,
            max_size,
        ) is Refused,
{
}

/// The socket takes datagrams from `src` to `dst`: it is bound to the port of the
/// destination; its local address, if it has one, is that of the destination, or stands
/// for all of its version, or is of its version where the datagram is to a group; and so
/// far as its remote half is given, it is the source.
pub open spec fn accepts(s: UdpView, src: IpEndpoint, dst: IpEndpoint, to_group: bool) -> bool {
    &&& s.local.port == dst.port
    &&& match s.local.addr {
        None => true,
        Some(IpAddress::Ipv4(own)) => dst.addr is Ipv4 && (own.0 == 0 || to_group || dst.addr
            == IpAddress::Ipv4(own)),
        Some(IpAddress::Ipv6(own)) => dst.addr is Ipv6 && (own.0 == 0 || to_group || dst.addr
            == IpAddress::Ipv6(own)),
    }
    &&& match s.remote.addr {
        None => true,
        Some(IpAddress::Ipv4(own)) => src.addr is Ipv4 && (own.0 == 0 || src.addr
            == IpAddress::Ipv4(own)),
        Some(IpAddress::Ipv6(own)) => src.addr is Ipv6 && (own.0 == 0 || src.addr
            == IpAddress::Ipv6(own)),
    }
    &&& s.remote.port == 0 || s.remote.port == src.port
}

/// The address stands for a group of hosts on a network with the given addresses: it is a
/// multicast address (`224.0.0.0/4` or `ff00::/8`), or a broadcast address of one of them.
pub open spec fn is_group(addrs: Seq<IpCidr>, addr: IpAddress) -> bool {
    ||| match addr {
        IpAddress::Ipv4(a) => 224 <= a.0 as int / 0x100_0000 <= 239,
        IpAddress::Ipv6(a) => a.0 as int / 0x1_0000_0000_0000_0000_0000_0000_0000_00 == 0xff,
    }
    ||| exists|k: int| 0 <= k < addrs.len() && (#[trigger] addrs[k]).spec_is_broadcast(addr)
}

/// A socket has a score exactly if it takes the datagram.
proof fn lemma_score_means_accepts(s: UdpView, src: IpEndpoint, dst: IpEndpoint, to_group: bool)
    ensures
        s.match_score(src.addr, src.port, dst.addr, dst.port, to_group) is Some <==> accepts(
            s,
            src,
            dst,
            to_group,
        ),
{
}

/// A sound and intact datagram to a port is delivered whenever some socket takes it, and
/// only to one that does. A datagram to a multicast or broadcast address is taken by every
/// socket that is bound to an address of its version, as far as the rest fits. Where no
/// socket takes it, it is found to be unclaimed.
pub proof fn law_datagram_is_delivered<'d>(
    stack: Stack<'d>,
    iface: usize,
    src: IpEndpoint,
    dst: IpEndpoint,
    d: Seq<u8>,
    i: int,
)
    requires
        stack.udp@.len() <= usize::MAX,
        d.len() >= 8,
        8 <= bytes::field(d, 4, 2) <= d.len(),
        bytes::field(d, 0, 2) == src.port,
        bytes::field(d, 2, 2) == dst.port,
        dst.port != 0,
        !stack.ifaces@[iface as int]->0.device@.checksum.udp.rx || udp::is_intact(
            d,
            src.addr,
            dst.addr,
        ),
        0 <= i < stack.udp@.len(),
    ensures
        ({
            let to_group = is_group(stack.ifaces@[iface as int]->0.ip_addrs@, dst.addr);
            let verdict = ingress::verdict(stack, iface, src.addr, dst.addr, d);
            &&& stack.udp@[i] is Some && accepts(stack.udp@[i]->0@, src, dst, to_group) ==> (verdict
                matches UdpVerdict::Delivered(j) && j < stack.udp@.len() && stack.udp@[j as int]
                is Some && accepts(stack.udp@[j as int]->0@, src, dst, to_group))
            &&& verdict is Unclaimed ==> !(stack.udp@[i] is Some && accepts(
                stack.udp@[i]->0@,
                src,
                dst,
                to_group,
            ))
            &&& verdict matches UdpVerdict::Delivered(j) ==> j < stack.udp@.len()
                && stack.udp@[j as int] is Some && accepts(
                stack.udp@[j as int]->0@,
                src,
                dst,
                to_group,
            )
            &&& verdict !is Dropped
        }),
{
    let addrs = stack.ifaces@[iface as int]->0.ip_addrs@;
    let to_group = is_group(addrs, dst.addr);
    match dst.addr {
        IpAddress::Ipv4(a) => {
            crate::wire::ip::law_multicast_is_a_block(a, Ipv6Address(0));
        },
        IpAddress::Ipv6(a) => {
            crate::wire::ip::law_multicast_is_a_block(Ipv4Address(0), a);
        },
    }
    assert(crate::iface::is_broadcast(addrs, dst.addr) || dst.addr.is_multicast() <==> to_group);
    let n = ingress::scores(stack.udp@, src.addr, src.port, dst.addr, dst.port, to_group);
    crate::matching::law_best_fit_wins(n, n.len() as int);
    if stack.udp@[i] is Some {
        lemma_score_means_accepts(stack.udp@[i]->0@, src, dst, to_group);
        assert(n[i] == stack.udp@[i]->0@.match_score(
            src.addr,
            src.port,
            dst.addr,
            dst.port,
            to_group,
        ));
    }
    if let Some((j, _)) = crate::matching::winner(n) {
        assert(n[j as int] is Some);
        lemma_score_means_accepts(stack.udp@[j as int]->0@, src, dst, to_group);
    }
}

/// A datagram that is cut short, that claims to be longer than it is, that is damaged or
/// that is to port zero is dropped.
pub proof fn law_damaged_datagram_is_dropped<'d>(
    stack: Stack<'d>,
    iface: usize,
    src: IpAddress,
    dst: IpAddress,
    d: Seq<u8>,
)
    ensures
        ingress::verdict(stack, iface, src, dst, d) is Dropped <==> {
            ||| d.len() < 8
            ||| bytes::field(d, 4, 2) < 8
            ||| bytes::field(d, 4, 2) > d.len()
            ||| stack.ifaces@[iface as int]->0.device@.checksum.udp.rx && !udp::is_intact(
                d,
                src,
                dst,
            )
            ||| bytes::field(d, 2, 2) == 0
        },
{
}

/// A datagram goes to a socket that is connected to its source rather than to one that is
/// not, and to one that is bound to its destination rather than to one that is not.
pub proof fn law_closest_socket_gets_the_datagram<'d>(
    stack: Stack<'d>,
    iface: usize,
    src: IpEndpoint,
    dst: IpEndpoint,
    d: Seq<u8>,
    i: int,
)
    requires
        stack.udp@.len() <= usize::MAX,
        bytes::field(d, 0, 2) == src.port,
        bytes::field(d, 2, 2) == dst.port,
        src.port != 0,
        0 <= i < stack.udp@.len(),
        stack.udp@[i] is Some,
        stack.udp@[i]->0@.local.port == dst.port,
        src.addr != IpAddress::Ipv4(Ipv4Address(0)),
        src.addr != IpAddress::Ipv6(Ipv6Address(0)),
        dst.addr != IpAddress::Ipv4(Ipv4Address(0)),
        dst.addr != IpAddress::Ipv6(Ipv6Address(0)),
    ensures
        ({
            let mine = stack.udp@[i]->0@;
            ingress::verdict(stack, iface, src.addr, dst.addr, d) matches UdpVerdict::Delivered(j)
                ==> {
                let theirs = stack.udp@[j as int]->0@;
                &&& mine.local.addr == Some(dst.addr) && mine.remote.addr == Some(src.addr)
                    && mine.remote.port == src.port ==> theirs.remote.addr == Some(src.addr)
                    && theirs.remote.port == src.port && theirs.local.addr is Some
                &&& mine.local.addr == Some(dst.addr) && mine.remote == (IpListenEndpoint {
                    addr: None,
                    port: 0,
                }) ==> theirs.local.addr is Some || theirs.remote.addr is Some
                    || theirs.remote.port != 0
            }
        }),
{
    if let UdpVerdict::Delivered(j) = ingress::verdict(stack, iface, src.addr, dst.addr, d) {
        let addrs = stack.ifaces@[iface as int]->0.ip_addrs@;
        let bcast = crate::iface::is_broadcast(addrs, dst.addr) || dst.addr.is_multicast();
        let n = ingress::scores(stack.udp@, src.addr, src.port, dst.addr, dst.port, bcast);
        crate::matching::law_best_fit_wins(n, n.len() as int);
        let mine = stack.udp@[i]->0@;
        assert(n[i] == mine.match_score(src.addr, src.port, dst.addr, dst.port, bcast));
        assert(n[j as int] is Some);
    }
}

/// An ICMP error reaches the socket that would get a datagram of the flow it is about, with
/// the remote that it is about, and no other socket. Where there is no such socket, nothing
/// changes.
pub proof fn law_error_reaches_its_socket(
    before: Seq<Option<UdpSocketState>>,
    after: Seq<Option<UdpSocketState>>,
    error: IcmpError,
    local: IpEndpoint,
    remote: IpEndpoint,
    k: int,
)
    requires
        before.len() <= usize::MAX,
        ingress::told(before, after, error, local, remote),
        0 <= k < before.len(),
    ensures
        before[k] is Some && accepts(before[k]->0@, remote, local, false) ==> exists|i: int|
            {
                &&& 0 <= i < before.len()
                &&& (#[trigger] before[i]) is Some
                &&& accepts(before[i]->0@, remote, local, false)
                &&& after[i] is Some
                &&& after[i]->0@.pending_error == Some((error, remote))
                &&& after[i]->0@.rx_queue == before[i]->0@.rx_queue
                &&& after[i]->0@.local == before[i]->0@.local
            },
        before[k] is Some && !accepts(before[k]->0@, remote, local, false) ==> after[k]
            == before[k],
        before[k] is None ==> after[k] is None,
{
    let w = lemma_flow_winner(before, local, remote, k);
    if crate::matching::winner(
        ingress::scores(before, remote.addr, remote.port, local.addr, local.port, false),
    ) is Some {
        assert(before[w] is Some);
    }
}

/// The socket that gets a datagram of a flow takes it, and there is one if any does.
proof fn lemma_flow_winner(
    slots: Seq<Option<UdpSocketState>>,
    local: IpEndpoint,
    remote: IpEndpoint,
    k: int,
) -> (w: int)
    requires
        slots.len() <= usize::MAX,
        0 <= k < slots.len(),
    ensures
        match crate::matching::winner(
            ingress::scores(slots, remote.addr, remote.port, local.addr, local.port, false),
        ) {
            Some((i, _)) => {
                &&& w == i
                &&& 0 <= w < slots.len()
                &&& slots[w] is Some
                &&& accepts(slots[w]->0@, remote, local, false)
            },
            None => !(slots[k] is Some && accepts(slots[k]->0@, remote, local, false)),
        },
{
    let n = ingress::scores(slots, remote.addr, remote.port, local.addr, local.port, false);
    crate::matching::law_best_fit_wins(n, n.len() as int);
    if slots[k] is Some {
        lemma_score_means_accepts(slots[k]->0@, remote, local, false);
        assert(n[k] == slots[k]->0@.match_score(
            remote.addr,
            remote.port,
            local.addr,
            local.port,
            false,
        ));
    }
    if let Some((i, _)) = crate::matching::winner(n) {
        assert(n[i as int] is Some);
        lemma_score_means_accepts(slots[i as int]->0@, remote, local, false);
        i as int
    } else {
        0
    }
}

/// What is queued of a packet that arrived is its IP header and its datagram, as long as
/// the UDP header says it is: what follows is cut off.
pub proof fn law_packet_is_cut_to_its_datagram(p: PacketView, ip_header_len: usize)
    requires
        p.inv(),
        ip_header_len <= p.start,
        p.length >= 8,
        8 <= bytes::field(p.data(), 4, 2) <= p.length,
    ensures
        ({
            let w = ingress::whole_packet(p, ip_header_len);
            let n = bytes::field(p.data(), 4, 2);
            &&& w.inv()
            &&& w.data().len() == ip_header_len + n
            &&& w.data().skip(ip_header_len as int) == p.data().take(n)
            &&& w.data().take(ip_header_len as int) == p.storage.subrange(
                p.start - ip_header_len,
                p.start,
            )
            &&& w.meta == p.meta
        }),
{
    let w = ingress::whole_packet(p, ip_header_len);
    let n = bytes::field(p.data(), 4, 2);
    assert(w.data().skip(ip_header_len as int) =~= p.data().take(n));
    assert(w.data().take(ip_header_len as int) =~= p.storage.subrange(
        p.start - ip_header_len,
        p.start,
    ));
}

} // verus!
