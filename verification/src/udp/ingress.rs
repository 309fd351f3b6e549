//! Which socket gets a datagram, or an error about one.
use super::reject;
use super::socket;
use super::state;
use super::state::{UdpSocketState, UdpView};
use super::{UDP_RX_QUEUE_COUNT, UDP_SOCKET_COUNT};
use crate::driver::{PacketBuf, PacketView};
use crate::icmp_error::IcmpError;
use crate::iface;
use crate::iface::IfaceHandle;
use crate::matching;
use crate::stack::Stack;
use crate::storage::slab;
use crate::storage::Slab;
use crate::wire::bytes;
use crate::wire::packet;
use crate::wire::udp;
use crate::wire::{IpAddress, IpEndpoint};
use vstd::prelude::*;

verus! {

/// The score of each socket against a datagram.
pub open spec fn scores(
    slots: Seq<Option<UdpSocketState>>,
    src_addr: IpAddress,
    src_port: u16,
    dst_addr: IpAddress,
    dst_port: u16,
    dst_is_bcast: bool,
) -> Seq<Option<u8>> {
    Seq::new(
        slots.len(),
        |i: int|
            match slots[i] {
                Some(s) => s@.match_score(src_addr, src_port, dst_addr, dst_port, dst_is_bcast),
                None => None,
            },
    )
}

/// A datagram from the remote that a socket is connected to fits that socket better than
/// any socket whose remote half is left open.
pub proof fn law_connected_outscores_bound(
    connected: UdpView,
    bound: UdpView,
    src_addr: IpAddress,
    src_port: u16,
    dst_addr: IpAddress,
    dst_port: u16,
    dst_is_bcast: bool,
)
    requires
        connected.remote.concrete_addr() is Some,
        connected.remote.port != 0,
        connected.match_score(src_addr, src_port, dst_addr, dst_port, dst_is_bcast) is Some,
        bound.remote.addr is None,
        bound.remote.port == 0,
        bound.match_score(src_addr, src_port, dst_addr, dst_port, dst_is_bcast) is Some,
    ensures
        connected.match_score(src_addr, src_port, dst_addr, dst_port, dst_is_bcast)->0
            > bound.match_score(src_addr, src_port, dst_addr, dst_port, dst_is_bcast)->0,
{
}

/// An exact local address fits better than one of which just the version is given, and
/// that better than none, where the remote halves are the same.
pub proof fn law_exact_address_outscores_open_one(
    exact: UdpView,
    open: UdpView,
    src_addr: IpAddress,
    src_port: u16,
    dst_addr: IpAddress,
    dst_port: u16,
)
    requires
        exact.remote == open.remote,
        exact.match_score(src_addr, src_port, dst_addr, dst_port, false) is Some,
        open.match_score(src_addr, src_port, dst_addr, dst_port, false) is Some,
        exact.local.concrete_addr() is Some && open.local.concrete_addr() is None || (
        exact.local.addr is Some && open.local.addr is None),
    ensures
        exact.match_score(src_addr, src_port, dst_addr, dst_port, false)->0 > open.match_score(
            src_addr,
            src_port,
            dst_addr,
            dst_port,
            false,
        )->0,
{
}

/// A socket never gets a datagram of a version that it is not bound to, nor one for
/// another port, nor one from another remote than it is connected to.
pub proof fn law_filters_are_kept(
    s: UdpView,
    src_addr: IpAddress,
    src_port: u16,
    dst_addr: IpAddress,
    dst_port: u16,
    dst_is_bcast: bool,
)
    requires
        s.match_score(src_addr, src_port, dst_addr, dst_port, dst_is_bcast) is Some,
    ensures
        s.local.port == dst_port,
        s.local.version() matches Some(version) ==> version == dst_addr.version(),
        s.remote.concrete_addr() matches Some(addr) ==> addr == src_addr,
        s.remote.port != 0 ==> s.remote.port == src_port,
{
}

/// The socket that a datagram goes to.
fn best_match(
    sockets: &Slab<UdpSocketState, UDP_SOCKET_COUNT>,
    src_addr: IpAddress,
    src_port: u16,
    dst_addr: IpAddress,
    dst_port: u16,
    dst_is_bcast: bool,
) -> (r: Option<(usize, u8)>)
    ensures
        r == matching::winner(scores(sockets@, src_addr, src_port, dst_addr, dst_port, dst_is_bcast)),
        r matches Some((i, _)) ==> slab::occupied(sockets@, i as int),
{
    let ghost all = scores(sockets@, src_addr, src_port, dst_addr, dst_port, dst_is_bcast);
    let mut found: Option<(usize, u8)> = None;
    let mut i: usize = 0;
    while i < sockets.len()
        invariant
            i <= sockets@.len(),
            all == scores(sockets@, src_addr, src_port, dst_addr, dst_port, dst_is_bcast),
            found == matching::best(all, i as int),
            found matches Some((k, _)) ==> slab::occupied(sockets@, k as int),
        decreases sockets@.len() - i,
    {
        if sockets.is_occupied(i) {
            let score = sockets.get(i).match_score(
                &src_addr,
                src_port,
                &dst_addr,
                dst_port,
                dst_is_bcast,
            );
            assert(all[i as int] == score);
            if let Some(score) = score {
                let better: bool = match found {
                    Some((_, best_score)) => score > best_score,
                    None => true,
                };
                if better {
                    found = Some((i, score));
                }
            }
        } else {
            assert(all[i as int] is None);
        }
        i = i + 1;
    }
    found
}

/// The sockets after the one that a datagram of a flow would go to has been told of an
/// error about that flow.
pub open spec fn told(
    before: Seq<Option<UdpSocketState>>,
    after: Seq<Option<UdpSocketState>>,
    error: IcmpError,
    local: IpEndpoint,
    remote: IpEndpoint,
) -> bool {
    let n = scores(before, remote.addr, remote.port, local.addr, local.port, false);
    match matching::winner(n) {
        Some((i, _)) => {
            &&& slab::only_changed(before, after, i)
            &&& told_socket(before, after, i, error, remote)
        },
        None => after == before,
    }
}

/// Socket number `i` has been told of an error.
pub open spec fn told_socket(
    before: Seq<Option<UdpSocketState>>,
    after: Seq<Option<UdpSocketState>>,
    i: usize,
    error: IcmpError,
    remote: IpEndpoint,
) -> bool {
    socket_at(after, i) == (UdpView {
        pending_error: Some((error, remote)),
        rx_waker: None,
        ..socket_at(before, i)
    })
}

/// What socket number `i` holds.
pub open spec fn socket_at(slots: Seq<Option<UdpSocketState>>, i: usize) -> UdpView {
    slots[i as int]->0@
}

/// Delivers an ICMP error to the UDP socket whose packet provoked it.
///
/// `local` and `remote` are the flow of the packet quoted in the error, which this stack
/// sent. Sockets are scored as for a datagram of this flow, and the most specific match
/// gets the error.
pub fn process_icmp_error(
    sockets: &mut Slab<UdpSocketState, UDP_SOCKET_COUNT>,
    error: IcmpError,
    local: IpEndpoint,
    remote: IpEndpoint,
)
    requires
        socket::sockets_inv(old(sockets)@),
    ensures
        socket::sockets_inv(final(sockets)@),
        told(old(sockets)@, final(sockets)@, error, local, remote),
{
    if let Some((index, _)) = best_match(
        &*sockets,
        remote.addr,
        remote.port,
        local.addr,
        local.port,
        false,
    ) {
        let state = sockets.get_mut(index);
        state.pending_error = Some((error, remote));
        state.rx_waker.wake();
        proof {
            assert forall|i: int| #[trigger] slab::occupied(sockets@, i) implies
                sockets@[i]->0.inv() by {
                assert(slab::occupied(old(sockets)@, i));
            }
        }
    }
}

/// What becomes of a packet that carries a datagram.
pub enum UdpVerdict {
    /// It is malformed, damaged or to no port.
    Dropped,
    /// It goes to a socket.
    Delivered(usize),
    /// No socket takes it.
    Unclaimed,
}

/// The packet that is queued: without anything behind the datagram, and with its IP
/// header in front again.
pub open spec fn whole_packet(p: PacketView, ip_header_len: usize) -> PacketView {
    PacketView {
        start: p.start - ip_header_len,
        length: bytes::field(p.data(), 4, 2) + ip_header_len,
        ..p
    }
}

/// What becomes of a datagram that arrived on an interface.
pub open spec fn verdict<'d>(
    stack: Stack<'d>,
    iface: usize,
    src_addr: IpAddress,
    dst_addr: IpAddress,
    d: Seq<u8>,
) -> UdpVerdict {
    let dev = stack.ifaces@[iface as int]->0;
    let bcast = iface::is_broadcast(dev.ip_addrs@, dst_addr) || dst_addr.is_multicast();
    if !udp::is_sound(d) {
        UdpVerdict::Dropped
    } else if dev.device@.checksum.udp.rx && !udp::is_intact(d, src_addr, dst_addr) {
        UdpVerdict::Dropped
    } else if bytes::field(d, 2, 2) == 0 {
        UdpVerdict::Dropped
    } else {
        match matching::winner(
            scores(
                stack.udp@,
                src_addr,
                bytes::field(d, 0, 2) as u16,
                dst_addr,
                bytes::field(d, 2, 2) as u16,
                bcast,
            ),
        ) {
            Some((i, _)) => UdpVerdict::Delivered(i),
            None => UdpVerdict::Unclaimed,
        }
    }
}

impl<'d> Stack<'d> {
    /// Processes a UDP packet that arrived: validates it and queues it on the most
    /// specific matching socket.
    ///
    /// `buf` starts at the UDP header. `ip_header_len` is the length of the IP header in
    /// front of it, which is added back before queueing, so that the addresses can be read
    /// from it.
    ///
    /// If no socket takes it, its sender is told by an ICMP error that quotes it: the port
    /// is unreachable. An application that handles UDP itself through a raw socket, which
    /// got a copy, is not to be disturbed by one.
    pub fn process_udp(
        &mut self,
        iface: IfaceHandle,
        src_addr: IpAddress,
        dst_addr: IpAddress,
        ip_header_len: usize,
        handled_by_raw: bool,
        buf: PacketBuf,
    )
        requires
            old(self).inv(),
            slab::occupied(old(self).ifaces@, iface.index as int),
            buf.inv(),
            ip_header_len <= buf@.start,
            packet::has_headers(
                (PacketView {
                    start: buf@.start - ip_header_len,
                    length: buf@.length + ip_header_len,
                    ..buf@
                }).data(),
            ),
            packet::transport_offset(
                (PacketView {
                    start: buf@.start - ip_header_len,
                    length: buf@.length + ip_header_len,
                    ..buf@
                }).data(),
            ) == ip_header_len,
        ensures
            final(self).inv(),
            final(self).tcp == old(self).tcp,
            final(self).listeners == old(self).listeners,
            match verdict(*old(self), iface.index, src_addr, dst_addr, buf@.data()) {
                UdpVerdict::Dropped => {
                    &&& final(self).udp == old(self).udp
                    &&& final(self).net() == old(self).net().with_pool(
                        old(self).inner.pool.grown(),
                    )
                },
                UdpVerdict::Delivered(i) => {
                    let p = whole_packet(buf@, ip_header_len);
                    let v = socket_at(old(self).udp@, i);
                    &&& slab::only_changed(old(self).udp@, final(self).udp@, i)
                    &&& socket_at(final(self).udp@, i) == v.enqueued(p)
                    &&& final(self).net() == if v.rx_queue.len() < UDP_RX_QUEUE_COUNT {
                        old(self).net()
                    } else {
                        old(self).net().with_pool(old(self).inner.pool.grown())
                    }
                },
                UdpVerdict::Unclaimed => {
                    &&& final(self).udp == old(self).udp
                    &&& if handled_by_raw {
                        final(self).net() == old(self).net().with_pool(
                            old(self).inner.pool.grown(),
                        )
                    } else {
                        reject::rejected(
                            old(self).net(),
                            final(self).net(),
                            iface.index,
                            src_addr,
                            dst_addr,
                            whole_packet(buf@, ip_header_len).data(),
                        )
                    }
                },
            },
    {
        let mut buf = buf;
        let ghost p = buf@;
        let ghost d = p.data();
        assert(self.net().inv());
        if !udp::check_len(buf.bytes()) {
            self.inner.pool.release(buf);
            return ;
        }
        if self.ifaces.get(iface.index).device.checksum.udp.rx && !udp::verify_checksum(
            buf.bytes(),
            src_addr,
            dst_addr,
        ) {
            self.inner.pool.release(buf);
            return ;
        }
        let src_port: u16 = bytes::read_u16(buf.bytes(), 0);
        let dst_port: u16 = bytes::read_u16(buf.bytes(), 2);
        if dst_port == 0 {
            self.inner.pool.release(buf);
            return ;
        }
        let udp_len: usize = bytes::read_u16(buf.bytes(), 4) as usize;
        buf.set_len(udp_len);
        buf.push_front(ip_header_len);
        let dst_is_bcast: bool = self.ifaces.get(iface.index).is_broadcast(dst_addr)
            || dst_addr.is_multicast();
        let found = best_match(&self.udp, src_addr, src_port, dst_addr, dst_port, dst_is_bcast);
        if let Some((index, _)) = found {
            proof {
                lemma_queueable(p, ip_header_len);
                assert(slab::occupied(self.udp@, index as int));
            }
            let state = self.udp.get_mut(index);
            if let Some(dropped) = state.rx_enqueue(buf) {
                self.inner.pool.release(dropped);
            }
            proof {
                assert forall|i: int| #[trigger] slab::occupied(self.udp@, i) implies
                    self.udp@[i]->0.inv() by {
                    assert(slab::occupied(old(self).udp@, i));
                }
            }
            return ;
        }
        if handled_by_raw {
            self.inner.pool.release(buf);
        } else {
            assert(buf@ == whole_packet(p, ip_header_len));
            self.tx_context().reject(iface.index, src_addr, dst_addr, buf);
        }
    }
}

/// The packet that is queued carries a sound datagram.
proof fn lemma_queueable(p: PacketView, ip_header_len: usize)
    requires
        p.inv(),
        ip_header_len <= p.start,
        udp::is_sound(p.data()),
        packet::has_headers(
            (PacketView {
                start: p.start - ip_header_len,
                length: p.length + ip_header_len,
                ..p
            }).data(),
        ),
        packet::transport_offset(
            (PacketView {
                start: p.start - ip_header_len,
                length: p.length + ip_header_len,
                ..p
            }).data(),
        ) == ip_header_len,
    ensures
        state::is_queueable(whole_packet(p, ip_header_len)),
{
    let w = whole_packet(p, ip_header_len);
    let n = bytes::field(p.data(), 4, 2);
    let a = (PacketView {
        start: p.start - ip_header_len,
        length: p.length + ip_header_len,
        ..p
    }).data();
    let b = w.data();
    assert(b =~= a.take(ip_header_len + n));
    let t = b.skip(ip_header_len as int);
    assert(t =~= p.data().take(n));
    assert(t.subrange(4, 6) =~= p.data().subrange(4, 6));
}

} // verus!
