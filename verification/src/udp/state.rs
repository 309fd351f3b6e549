//! The state of a UDP socket, and the datagrams in its queue.
use super::UDP_RX_QUEUE_COUNT;
use crate::driver::{PacketBuf, PacketMeta, PacketPool, PacketView};
use crate::icmp_error::IcmpError;
use crate::storage::slices;
use crate::waker::WakerRegistration;
use crate::wire::bytes;
use crate::wire::packet;
use crate::wire::{IpAddress, IpEndpoint, IpListenEndpoint, Ipv4Address, UDP_HEADER_LEN};
use core::task::Waker;
use vstd::prelude::*;
use vstd::std_specs::convert::FromSpecImpl;

verus! {

/// Metadata for a sent or received UDP datagram.
#[derive(Debug, Clone, Copy, PartialEq, Eq, Structural)]
pub struct UdpMetadata {
    /// The remote endpoint: the sender of an incoming datagram, or the destination of
    /// an outgoing one.
    pub endpoint: IpEndpoint,
    /// The local address: the destination of an incoming datagram (always set), or the
    /// source of an outgoing one. If it is not set on an outgoing datagram (and the
    /// socket is not bound to a single address), a suitable one is selected.
    pub local_address: Option<IpAddress>,
    /// What the driver attached to an incoming datagram, or what to attach to an
    /// outgoing one.
    pub meta: PacketMeta,
}

impl UdpMetadata {
    /// A datagram to an endpoint, with nothing else said.
    pub open spec fn to_endpoint(endpoint: IpEndpoint) -> UdpMetadata {
        UdpMetadata {
            endpoint,
            local_address: None,
            meta: PacketMeta { id: 0, request_timestamp: false },
        }
    }
}

impl From<IpEndpoint> for UdpMetadata {
    fn from(endpoint: IpEndpoint) -> (r: UdpMetadata) {
        UdpMetadata { endpoint, local_address: None, meta: PacketMeta::default() }
    }
}

impl FromSpecImpl<IpEndpoint> for UdpMetadata {
    open spec fn obeys_from_spec() -> bool {
        true
    }

    open spec fn from_spec(endpoint: IpEndpoint) -> UdpMetadata {
        UdpMetadata::to_endpoint(endpoint)
    }
}

impl From<(IpAddress, u16)> for UdpMetadata {
    fn from(p: (IpAddress, u16)) -> (r: UdpMetadata) {
        UdpMetadata::from(IpEndpoint { addr: p.0, port: p.1 })
    }
}

impl FromSpecImpl<(IpAddress, u16)> for UdpMetadata {
    open spec fn obeys_from_spec() -> bool {
        true
    }

    open spec fn from_spec(p: (IpAddress, u16)) -> UdpMetadata {
        UdpMetadata::to_endpoint(IpEndpoint { addr: p.0, port: p.1 })
    }
}

impl From<(Ipv4Address, u16)> for UdpMetadata {
    fn from(p: (Ipv4Address, u16)) -> (r: UdpMetadata) {
        UdpMetadata::from(IpEndpoint { addr: IpAddress::Ipv4(p.0), port: p.1 })
    }
}

impl FromSpecImpl<(Ipv4Address, u16)> for UdpMetadata {
    open spec fn obeys_from_spec() -> bool {
        true
    }

    open spec fn from_spec(p: (Ipv4Address, u16)) -> UdpMetadata {
        UdpMetadata::to_endpoint(IpEndpoint { addr: IpAddress::Ipv4(p.0), port: p.1 })
    }
}

/// The state of a UDP socket.
#[derive(Debug)]
pub struct UdpSocketState {
    /// The local half of the socket's 4-tuple. The address filters the packet's
    /// destination, from any address of any version to one exact address. A zero port
    /// means the socket is not bound.
    pub local: IpListenEndpoint,
    /// The remote half of the socket's 4-tuple. Specified parts filter what is
    /// received, and are the default destination for sends. Unspecified parts match any
    /// remote.
    pub remote: IpListenEndpoint,
    pub rx_queue: Vec<PacketBuf>,
    pub hop_limit: Option<u8>,
    /// The last ICMP error reported against this socket, with the remote endpoint it is
    /// about. A newer error replaces an older one.
    pub pending_error: Option<(IcmpError, IpEndpoint)>,
    pub rx_waker: WakerRegistration,
    pub tx_waker: WakerRegistration,
}

/// What a UDP socket holds.
#[verifier::ext_equal]
pub struct UdpView {
    pub local: IpListenEndpoint,
    pub remote: IpListenEndpoint,
    /// The packets in the queue, oldest first.
    pub rx_queue: Seq<PacketView>,
    pub hop_limit: Option<u8>,
    pub pending_error: Option<(IcmpError, IpEndpoint)>,
    pub rx_waker: Option<Waker>,
    pub tx_waker: Option<Waker>,
}

/// What each packet holds.
pub open spec fn packets(q: Seq<PacketBuf>) -> Seq<PacketView> {
    Seq::new(q.len(), |i: int| q[i]@)
}

impl View for UdpSocketState {
    type V = UdpView;

    open spec fn view(&self) -> UdpView {
        UdpView {
            local: self.local,
            remote: self.remote,
            rx_queue: packets(self.rx_queue@),
            hop_limit: self.hop_limit,
            pending_error: self.pending_error,
            rx_waker: self.rx_waker.waker,
            tx_waker: self.tx_waker.waker,
        }
    }
}

/// A packet in the queue is in its buffer, and carries a sound datagram.
pub open spec fn is_queueable(p: PacketView) -> bool {
    p.inv() && packet::is_udp(p.data())
}

impl UdpView {
    pub open spec fn inv(self) -> bool {
        &&& self.rx_queue.len() <= UDP_RX_QUEUE_COUNT
        &&& forall|i: int| 0 <= i < self.rx_queue.len() ==> is_queueable(#[trigger] self.rx_queue[i])
        &&& self.hop_limit != Some(0u8)
    }

    /// The socket before it is bound.
    pub open spec fn initial() -> UdpView {
        UdpView {
            local: IpListenEndpoint { addr: None, port: 0 },
            remote: IpListenEndpoint { addr: None, port: 0 },
            rx_queue: Seq::empty(),
            hop_limit: None,
            pending_error: None,
            rx_waker: None,
            tx_waker: None,
        }
    }

    /// How closely the local half fits the destination of a datagram. A socket that is
    /// bound to one address gets broadcast and multicast traffic of its version, too.
    pub open spec fn local_score(self, dst_addr: IpAddress, dst_is_bcast: bool) -> Option<u8> {
        match self.local.score(dst_addr) {
            Some(score) => Some(score),
            None => if dst_is_bcast && self.local.version() == Some(dst_addr.version()) {
                Some(2u8)
            } else {
                None
            },
        }
    }

    /// How closely the socket fits a datagram: `None` if it does not, and more for
    /// every part of its 4-tuple that is more exact.
    pub open spec fn match_score(
        self,
        src_addr: IpAddress,
        src_port: u16,
        dst_addr: IpAddress,
        dst_port: u16,
        dst_is_bcast: bool,
    ) -> Option<u8> {
        if self.local.port != dst_port {
            None
        } else {
            match (self.local_score(dst_addr, dst_is_bcast), self.remote.score(src_addr)) {
                (Some(a), Some(b)) => if self.remote.port == 0 {
                    Some((a + b) as u8)
                } else if self.remote.port == src_port {
                    Some((a + b + 1) as u8)
                } else {
                    None
                },
                _ => None,
            }
        }
    }

    /// The socket after a packet has arrived: it joins the queue if there is room.
    pub open spec fn enqueued(self, p: PacketView) -> UdpView {
        if self.rx_queue.len() < UDP_RX_QUEUE_COUNT {
            UdpView { rx_queue: self.rx_queue.push(p), rx_waker: None, ..self }
        } else {
            self
        }
    }
}

impl UdpSocketState {
    pub open spec fn inv(&self) -> bool {
        self@.inv()
    }

    /// Wakes the task waiting to send, if any.
    pub fn wake_tx(&mut self)
        ensures
            final(self)@ == (UdpView { tx_waker: None, ..old(self)@ }),
    {
        self.tx_waker.wake();
    }

    /// A socket that is not bound.
    pub fn new() -> (r: UdpSocketState)
        ensures
            r.inv(),
            r@ == UdpView::initial(),
    {
        let r = UdpSocketState {
            local: IpListenEndpoint::unspecified(),
            remote: IpListenEndpoint::unspecified(),
            rx_queue: Vec::new(),
            hop_limit: None,
            pending_error: None,
            rx_waker: WakerRegistration::new(),
            tx_waker: WakerRegistration::new(),
        };
        assert(r@ =~= UdpView::initial());
        r
    }

    /// Queues a packet that carries a datagram, truncated to its length. If the queue is
    /// full, the packet is dropped, and its buffer handed back.
    pub fn rx_enqueue(&mut self, buf: PacketBuf) -> (dropped: Option<PacketBuf>)
        requires
            old(self).inv(),
            is_queueable(buf@),
        ensures
            final(self).inv(),
            final(self)@ == old(self)@.enqueued(buf@),
            dropped == if old(self)@.rx_queue.len() < UDP_RX_QUEUE_COUNT {
                None
            } else {
                Some(buf)
            },
    {
        if self.rx_queue.len() >= UDP_RX_QUEUE_COUNT {
            return Some(buf);
        }
        let ghost v = self@;
        self.rx_queue.push(buf);
        self.rx_waker.wake();
        proof {
            assert(self@.rx_queue =~= v.rx_queue.push(buf@));
            assert forall|i: int| 0 <= i < self@.rx_queue.len() implies is_queueable(
                #[trigger] self@.rx_queue[i],
            ) by {
                if i < v.rx_queue.len() {
                    assert(is_queueable(v.rx_queue[i]));
                }
            }
        }
        None
    }

    /// Scores this socket against a datagram.
    ///
    /// `None` if the socket does not match, else how specific the match is, so that the
    /// most specific socket gets the datagram. Connected sockets outscore sockets that
    /// are only bound, and exact addresses those left open.
    ///
    /// `dst_is_bcast` relaxes the filter of the local address: sockets bound to one
    /// address also accept broadcast and multicast traffic on their port. It never
    /// relaxes the IP version.
    pub fn match_score(
        &self,
        src_addr: &IpAddress,
        src_port: u16,
        dst_addr: &IpAddress,
        dst_port: u16,
        dst_is_bcast: bool,
    ) -> (r: Option<u8>)
        ensures
            r == self@.match_score(*src_addr, src_port, *dst_addr, dst_port, dst_is_bcast),
    {
        if self.local.port != dst_port {
            return None;
        }
        let mut score: u8 = match self.local.addr_score(*dst_addr) {
            Some(score) => score,
            None => {
                if dst_is_bcast && self.local.version() == Some(dst_addr.version()) {
                    2
                } else {
                    return None;
                }
            },
        };
        score = match self.remote.addr_score(*src_addr) {
            Some(more) => score + more,
            None => {
                return None;
            },
        };
        if self.remote.port != 0 {
            if self.remote.port != src_port {
                return None;
            }
            score = score + 1;
        }
        Some(score)
    }
}

/// What is known of a datagram in a packet: who sent it to whom, and what accompanied
/// it.
pub open spec fn datagram_meta(p: PacketView) -> UdpMetadata {
    let d = p.data();
    UdpMetadata {
        endpoint: IpEndpoint {
            addr: packet::source(d),
            port: bytes::field(d.skip(packet::transport_offset(d)), 0, 2) as u16,
        },
        local_address: Some(packet::destination(d)),
        meta: p.meta,
    }
}

/// Where the payload of a datagram starts in its packet.
pub open spec fn payload_start(d: Seq<u8>) -> int {
    packet::transport_offset(d) + UDP_HEADER_LEN
}

/// Where the payload of a datagram ends in its packet.
pub open spec fn payload_end(d: Seq<u8>) -> int {
    packet::transport_offset(d) + bytes::field(d.skip(packet::transport_offset(d)), 4, 2)
}

/// The payload of a datagram in a packet.
pub open spec fn datagram_payload(p: PacketView) -> Seq<u8> {
    p.data().subrange(payload_start(p.data()), payload_end(p.data()))
}

/// The addresses of a datagram in a packet, and where its payload starts and ends. The
/// packet was validated on ingress.
pub fn parse_datagram(buf: &PacketBuf) -> (r: (UdpMetadata, usize, usize))
    requires
        is_queueable(buf@),
    ensures
        r.0 == datagram_meta(buf@),
        r.1 == payload_start(buf@.data()),
        r.2 == payload_end(buf@.data()),
        r.1 <= r.2 <= buf@.length,
{
    let d = buf.bytes();
    let (src_addr, dst_addr, header_len): (IpAddress, IpAddress, usize) = packet::parse(d);
    let udp = vstd::slice::slice_subrange(d, header_len, d.len());
    assert(udp@ =~= d@.skip(header_len as int));
    let port: u16 = bytes::read_u16(udp, 0);
    let length: usize = bytes::read_u16(udp, 4) as usize;
    let meta = UdpMetadata {
        endpoint: IpEndpoint::new(src_addr, port),
        local_address: Some(dst_addr),
        meta: buf.meta,
    };
    (meta, header_len + UDP_HEADER_LEN, header_len + length)
}

/// A received UDP datagram, in the buffer that the packet arrived in. The buffer is free
/// again once it has been given back.
#[derive(Debug)]
pub struct RecvPacket {
    pub buf: PacketBuf,
    pub meta: UdpMetadata,
    pub payload_start: usize,
    pub payload_end: usize,
}

impl RecvPacket {
    pub open spec fn inv(&self) -> bool {
        &&& self.buf.inv()
        &&& self.payload_start <= self.payload_end <= self.buf@.length
    }

    /// The payload of the datagram.
    pub open spec fn data(&self) -> Seq<u8> {
        self.buf@.data().subrange(self.payload_start as int, self.payload_end as int)
    }

    pub fn new(buf: PacketBuf) -> (r: RecvPacket)
        requires
            is_queueable(buf@),
        ensures
            r.inv(),
            r.buf == buf,
            r.meta == datagram_meta(buf@),
            r.data() == datagram_payload(buf@),
    {
        let (meta, payload_start, payload_end): (UdpMetadata, usize, usize) = parse_datagram(&buf);
        RecvPacket { buf, meta, payload_start, payload_end }
    }

    /// Gives the buffer back to the pool that it came from.
    pub fn release(self, pool: &mut PacketPool)
        ensures
            *final(pool) == old(pool).grown(),
    {
        pool.release(self.buf);
    }

    /// The datagram's metadata: remote endpoint and local address.
    pub fn meta(&self) -> (r: UdpMetadata)
        ensures
            r == self.meta,
    {
        self.meta
    }

    /// The UDP payload.
    pub fn payload(&self) -> (r: &[u8])
        requires
            self.inv(),
        ensures
            r@ == self.data(),
    {
        vstd::slice::slice_subrange(self.buf.bytes(), self.payload_start, self.payload_end)
    }

    /// The UDP payload, mutable.
    pub fn payload_mut(&mut self) -> (r: &mut [u8])
        requires
            old(self).inv(),
        ensures
            r@ == old(self).data(),
            final(r)@.len() == r@.len() ==> {
                &&& final(self).inv()
                &&& final(self).data() == final(r)@
                &&& final(self).meta == old(self).meta
                &&& final(self).buf@ == old(self).buf@.with_data(
                    slices::splice(
                        old(self).buf@.data(),
                        old(self).payload_start as int,
                        final(r)@,
                    ),
                )
            },
    {
        let ghost v = self.buf@;
        let ghost from = self.payload_start as int;
        let ghost to = self.payload_end as int;
        proof {
            assert forall|c: Seq<u8>|
                c.len() == to - from implies #[trigger] slices::splice(v.data(), from, c).subrange(
                from,
                to,
            ) == c by {
                assert(slices::splice(v.data(), from, c).subrange(from, to) =~= c);
            }
            assert forall|c: Seq<u8>| c.len() == v.length implies #[trigger] v.with_data(c).data()
                == c by {
                assert(v.with_data(c).data() =~= c);
            }
        }
        slices::part_mut(self.buf.bytes_mut(), self.payload_start, self.payload_end)
    }
}

impl std::ops::Deref for RecvPacket {
    type Target = [u8];

    /// The UDP payload; nothing of a packet that is not sound.
    fn deref(&self) -> (r: &[u8])
        ensures
            self.inv() ==> r@ == self.data(),
    {
        let n: usize = self.buf.storage.len();
        if self.payload_start <= self.payload_end && self.payload_end <= self.buf.length
            && self.buf.start <= n && self.buf.length <= n - self.buf.start {
            self.payload()
        } else {
            &[]
        }
    }
}

} // verus!
