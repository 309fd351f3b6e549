//! Telling the sender of a datagram that nobody takes it.
use crate::driver::{PacketBuf, PacketMeta};
use crate::iface;
use crate::stack;
use crate::stack::{EgressRoute, NetView, TxContext};
use crate::storage::slab;
use crate::storage::slices;
use crate::wire::packet;
use crate::wire::refusal;
use crate::wire::refusal::REFUSAL_HEADER_LEN;
use crate::wire::{IpAddress, LINK_HEADER_LEN};
use vstd::prelude::*;

verus! {

/// The hop limit of the answer.
pub const REJECT_HOP_LIMIT: u8 = 64;

/// The address stands for more than one host, or for none, on an interface.
pub open spec fn is_no_host(net: NetView, iface: usize, addr: IpAddress) -> bool {
    ||| addr.is_unspecified()
    ||| addr.is_multicast()
    ||| iface::is_broadcast(net.ifaces[iface as int]->0.ip_addrs@, addr)
}

/// The route of the answer to a packet that arrived on an interface. Only a packet from one
/// host to this one is answered.
pub open spec fn answer_route(
    net: NetView,
    iface: usize,
    src: IpAddress,
    dst: IpAddress,
) -> Option<EgressRoute> {
    if is_no_host(net, iface, src) || is_no_host(net, iface, dst) || src.version()
        != dst.version() || !stack::owns(net.ifaces, dst) {
        None
    } else {
        net.route(src)
    }
}

/// The number of octets of a packet of the given length that the answer quotes: as many as
/// fit into a packet that every path takes, the MTU of the route and a buffer.
pub open spec fn quote_len(
    buffer_len: usize,
    route: EgressRoute,
    dst: IpAddress,
    length: int,
) -> int {
    let size = if refusal::size_limit(dst) < route.ip_mtu {
        refusal::size_limit(dst)
    } else {
        route.ip_mtu
    };
    let size = if size < buffer_len - LINK_HEADER_LEN {
        size as int
    } else {
        buffer_len - LINK_HEADER_LEN
    };
    let room = size - dst.header_len() - REFUSAL_HEADER_LEN;
    if room < 0 {
        0
    } else if room < length {
        room
    } else {
        length
    }
}

/// The packet with the answer to packet `d` from `src` to `dst`.
pub open spec fn answer(
    net: NetView,
    route: EgressRoute,
    src: IpAddress,
    dst: IpAddress,
    d: Seq<u8>,
) -> Seq<u8> {
    let n = quote_len(net.inner.pool.buffer_len, route, dst, d.len() as int);
    packet::header(
        dst,
        src,
        refusal::protocol(dst),
        REJECT_HOP_LIMIT,
        REFUSAL_HEADER_LEN + n,
        net.ifaces[route.iface as int]->0.device@.checksum.ipv4.tx,
    ) + refusal::message(dst, src, d.take(n))
}

/// The stack `b` is the stack `a` after packet `d` has been rejected, and its buffer freed.
/// Where the answer cannot go, or there is no room or no other buffer for it, there is none.
pub open spec fn rejected(
    a: NetView,
    b: NetView,
    iface: usize,
    src: IpAddress,
    dst: IpAddress,
    d: Seq<u8>,
) -> bool {
    match answer_route(a, iface, src, dst) {
        Some(route) if a.ifaces[route.iface as int]->0.device@.has_room()
            && a.inner.pool.free > 0 => exists|sent: NetView|
            {
                &&& #[trigger] stack::handed_over(
                    a.with_pool(a.inner.pool.shrunk()),
                    sent,
                    route,
                    answer(a, route, src, dst, d),
                    PacketMeta { id: 0, request_timestamp: false },
                )
                &&& b == sent.with_pool(sent.inner.pool.grown())
            },
        _ => b == a.with_pool(a.inner.pool.grown()),
    }
}

impl<'a> TxContext<'a> {
    /// Whether an address stands for more than one host, or for none.
    fn is_no_host(&self, iface: usize, addr: IpAddress) -> (r: bool)
        requires
            self.inv(),
            slab::occupied(self@.ifaces, iface as int),
        ensures
            r == is_no_host(self@, iface, addr),
    {
        addr.is_unspecified() || addr.is_multicast() || self.ifaces.get(iface).is_broadcast(addr)
    }

    /// The route of the answer.
    fn answer_route(&self, iface: usize, src: IpAddress, dst: IpAddress) -> (r: Option<EgressRoute>)
        requires
            self.inv(),
            slab::occupied(self@.ifaces, iface as int),
        ensures
            r == answer_route(self@, iface, src, dst),
            r matches Some(route) ==> slab::occupied(self@.ifaces, route.iface as int),
    {
        if self.is_no_host(iface, src) || self.is_no_host(iface, dst) || src.version()
            != dst.version() || !self.has_ip_addr(dst) {
            None
        } else {
            self.route(&src)
        }
    }

    /// Rejects a packet from `src` to `dst` that arrived on an interface: sends an ICMP error
    /// that quotes it, and frees its buffer. The port is unreachable.
    pub fn reject(&mut self, iface: usize, src: IpAddress, dst: IpAddress, buf: PacketBuf)
        requires
            old(self).inv(),
            slab::occupied(old(self)@.ifaces, iface as int),
            buf.inv(),
        ensures
            final(self).inv(),
            *final(final(self).inner) == *final(old(self).inner),
            *final(final(self).ifaces) == *final(old(self).ifaces),
            rejected(old(self)@, final(self)@, iface, src, dst, buf@.data()),
    {
        let ghost net = self@;
        let ghost d = buf@.data();
        if let Some(route) = self.answer_route(iface, src, dst) {
            if self.can_transmit(route.iface) {
                if let Some(message) = self.alloc_packet() {
                    let message: PacketBuf = quote(&buf, message, &route, src, dst);
                    self.transmit_ip(
                        &route,
                        message,
                        dst,
                        src,
                        refusal::protocol(dst),
                        REJECT_HOP_LIMIT,
                    );
                    assert(stack::handed_over(
                        net.with_pool(net.inner.pool.shrunk()),
                        self@,
                        route,
                        answer(net, route, src, dst, d),
                        PacketMeta { id: 0, request_timestamp: false },
                    ));
                }
            }
        }
        self.free_packet(buf);
    }
}

/// Puts the message that quotes a packet into an empty buffer, with room in front of it for
/// the headers below.
fn quote(
    buf: &PacketBuf,
    message: PacketBuf,
    route: &EgressRoute,
    src: IpAddress,
    dst: IpAddress,
) -> (r: PacketBuf)
    requires
        buf.inv(),
        message.inv(),
        message@.start == 0,
        message@.length == 0,
        crate::driver::MIN_BUFFER_LEN <= message@.storage.len() <= 65535,
    ensures
        ({
            let n = quote_len(
                message@.storage.len() as usize,
                *route,
                dst,
                buf@.data().len() as int,
            );
            &&& r.inv()
            &&& r@.start == LINK_HEADER_LEN + dst.header_len()
            &&& r@.length == REFUSAL_HEADER_LEN + n
            &&& r@.meta == message@.meta
            &&& r@.data() == refusal::message(dst, src, buf@.data().take(n))
        }),
{
    let mut r = message;
    let limit: usize = refusal::size_limit(dst);
    let size: usize = if limit < route.ip_mtu {
        limit
    } else {
        route.ip_mtu
    };
    let most: usize = r.capacity() - LINK_HEADER_LEN;
    let size: usize = if size < most {
        size
    } else {
        most
    };
    let room: usize = size.saturating_sub(dst.header_len() + REFUSAL_HEADER_LEN);
    let n: usize = if room < buf.len() {
        room
    } else {
        buf.len()
    };
    r.reserve(LINK_HEADER_LEN + dst.header_len());
    r.set_len(REFUSAL_HEADER_LEN + n);
    {
        let bytes = r.bytes_mut();
        let quoted = vstd::slice::slice_subrange(buf.bytes(), 0, n);
        {
            let part = slices::part_mut(bytes, REFUSAL_HEADER_LEN, REFUSAL_HEADER_LEN + n);
            slices::copy_slice(part, quoted);
        }
        assert(bytes@.skip(REFUSAL_HEADER_LEN as int) =~= buf@.data().take(n as int));
        refusal::emit(bytes, dst, src);
    }
    assert(r@.data() =~= refusal::message(dst, src, buf@.data().take(n as int)));
    r
}

} // verus!
