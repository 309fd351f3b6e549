use xarxa::driver::{HardwareAddress, Medium, PacketBuf, PacketMeta};
use xarxa::icmp_error::IcmpError;
use xarxa::iface::IfaceHandle;
use xarxa::stack::{Stack, EPHEMERAL_PORT_MIN};
use xarxa::storage::Full;
use xarxa::test_device::{packet_allocator, TestDevice, PACKET_COUNT};
use xarxa::udp::{
    process_icmp_error, BindError, RecvError, SendError, UdpHandle, UdpMetadata,
    UDP_RX_QUEUE_COUNT, UDP_SOCKET_COUNT,
};
use xarxa::wire::{
    packet, udp, IpAddress, IpCidr, IpEndpoint, IpListenEndpoint, IpProtocol, Ipv4Address,
    Ipv6Address, IPV4_HEADER_LEN, UDP_HEADER_LEN,
};

fn stack_with_socket() -> (Stack<'static>, UdpHandle) {
    let mut stack = Stack::new(0x1234_5678_dead_beef, packet_allocator());
    let handle = stack.add_udp_socket().unwrap();
    (stack, handle)
}

/// `192.168.1.1`
const LOCAL_ADDR: Ipv4Address = Ipv4Address(0xc0a8_0101);
/// `192.168.1.2`
const REMOTE_ADDR: Ipv4Address = Ipv4Address(0xc0a8_0102);
/// `192.168.1.3`
const OTHER_ADDR: Ipv4Address = Ipv4Address(0xc0a8_0103);
const ANY_V4: Ipv4Address = Ipv4Address(0);
const ANY_V6: Ipv6Address = Ipv6Address(0);
const LOCALHOST_V6: Ipv6Address = Ipv6Address(1);
const LOCAL_PORT: u16 = 53;
const REMOTE_PORT: u16 = 49500;

/// The fully wildcard remote: an ordinary unconnected bind.
const ANY: IpListenEndpoint = IpListenEndpoint { addr: None, port: 0 };
/// A destination with everything left open.
const NOWHERE: IpEndpoint = IpEndpoint {
    addr: IpAddress::Ipv4(Ipv4Address(0)),
    port: 0,
};

/// A stack with one interface owning `LOCAL_ADDR`, so that binds with a
/// specified remote can resolve their local address.
fn stack_with_iface() -> Stack<'static> {
    let mut stack = Stack::new(0x1234_5678_dead_beef, packet_allocator());
    let handle = TestDevice::new(Medium::Ip).install(&mut stack, HardwareAddress::Ip);
    stack
        .iface(handle)
        .add_ip_addr(IpCidr::new(LOCAL_ADDR.into(), 24));
    stack
}

/// Build a queued-datagram buffer the way ingress does, as a full IPv4 + UDP packet.
fn queued_packet_from(src_addr: Ipv4Address, src_port: u16, dst_addr: Ipv4Address, payload: &[u8]) -> PacketBuf {
    let udp_len = UDP_HEADER_LEN + payload.len();
    let mut buf = packet_allocator().try_alloc().unwrap();
    buf.set_len(IPV4_HEADER_LEN + udp_len);
    let bytes = buf.bytes_mut();
    packet::emit(bytes, src_addr.into(), dst_addr.into(), IpProtocol::Udp, 64, true);
    bytes[IPV4_HEADER_LEN + UDP_HEADER_LEN..].copy_from_slice(payload);
    udp::emit(
        &mut bytes[IPV4_HEADER_LEN..],
        src_addr.into(),
        src_port,
        dst_addr.into(),
        LOCAL_PORT,
        true,
    );
    buf
}

fn queued_packet(payload: &[u8]) -> PacketBuf {
    queued_packet_from(REMOTE_ADDR, REMOTE_PORT, LOCAL_ADDR, payload)
}

/// Run a packet through the stack's UDP ingress demux.
fn deliver(stack: &mut Stack, src_addr: Ipv4Address, src_port: u16, payload: &[u8]) {
    deliver_to(stack, src_addr, src_port, LOCAL_ADDR, payload)
}

/// Like [`deliver`], with an explicit destination address.
fn deliver_to(stack: &mut Stack, src_addr: Ipv4Address, src_port: u16, dst_addr: Ipv4Address, payload: &[u8]) {
    let mut buf = queued_packet_from(src_addr, src_port, dst_addr, payload);
    buf.pull_front(IPV4_HEADER_LEN);
    stack.process_udp(
        IfaceHandle { index: 0 },
        src_addr.into(),
        dst_addr.into(),
        IPV4_HEADER_LEN,
        false,
        buf,
    );
}

#[test]
fn test_bind() {
    let (mut stack, handle) = stack_with_socket();
    let mut socket = stack.udp_socket(handle);
    assert!(!socket.is_open());
    assert_eq!(socket.bind(LOCAL_PORT.into(), ANY), Ok(()));
    assert!(socket.is_open());
    assert_eq!(socket.bind(LOCAL_PORT.into(), ANY), Err(BindError::InvalidState));

    socket.close();
    assert!(!socket.is_open());
    assert_eq!(socket.bind((LOCAL_ADDR, LOCAL_PORT).into(), ANY), Ok(()));
    assert_eq!(
        socket.local_endpoint(),
        IpListenEndpoint {
            addr: Some(LOCAL_ADDR.into()),
            port: LOCAL_PORT
        }
    );
    assert_eq!(socket.remote_endpoint(), ANY);
}

#[test]
fn test_bind_ephemeral() {
    let mut stack = Stack::new(0x1234_5678_dead_beef, packet_allocator());
    let h1 = stack.add_udp_socket().unwrap();
    let h2 = stack.add_udp_socket().unwrap();

    stack.udp_socket(h1).bind(0.into(), ANY).unwrap();
    let p1 = stack.udp_socket(h1).local_endpoint().port;
    assert!(p1 >= EPHEMERAL_PORT_MIN);

    // The second allocation must avoid the first socket's port.
    stack.udp_socket(h2).bind(0.into(), ANY).unwrap();
    let p2 = stack.udp_socket(h2).local_endpoint().port;
    assert!(p2 >= EPHEMERAL_PORT_MIN);
    assert_ne!(p1, p2);
}

#[test]
fn test_bind_conflicts() {
    let mut stack = Stack::new(0x1234_5678_dead_beef, packet_allocator());
    let h1 = stack.add_udp_socket().unwrap();
    let h2 = stack.add_udp_socket().unwrap();

    // Identical 4-tuples conflict.
    stack.udp_socket(h1).bind(LOCAL_PORT.into(), ANY).unwrap();
    assert_eq!(stack.udp_socket(h2).bind(LOCAL_PORT.into(), ANY), Err(BindError::InUse));
    // A specific address next to an address-less bind on the same port is
    // fine: the tuples differ, and demux picks the most specific match.
    stack.udp_socket(h2).bind((LOCAL_ADDR, LOCAL_PORT).into(), ANY).unwrap();

    // Two different specific addresses may share a port. (Free a slot first:
    // without `alloc` the socket slab is small.)
    stack.remove_udp_socket(h1);
    let h3 = stack.add_udp_socket().unwrap();
    let h4 = stack.add_udp_socket().unwrap();
    let h5 = stack.add_udp_socket().unwrap();
    stack.udp_socket(h3).bind((LOCAL_ADDR, LOCAL_PORT + 2).into(), ANY).unwrap();
    stack.udp_socket(h4).bind((OTHER_ADDR, LOCAL_PORT + 2).into(), ANY).unwrap();
    // ...but the same specific address may not.
    assert_eq!(
        stack.udp_socket(h5).bind((LOCAL_ADDR, LOCAL_PORT + 2).into(), ANY),
        Err(BindError::InUse)
    );
}

#[test]
fn test_bind_conflicts_connected() {
    let mut stack = stack_with_iface();
    let h1 = stack.add_udp_socket().unwrap();
    let h2 = stack.add_udp_socket().unwrap();
    let h3 = stack.add_udp_socket().unwrap();
    let h4 = stack.add_udp_socket().unwrap();

    // A connected socket and a wildcard-remote socket share a local port:
    // the 4-tuples differ.
    stack
        .udp_socket(h1)
        .bind(LOCAL_PORT.into(), (REMOTE_ADDR, REMOTE_PORT).into())
        .unwrap();
    stack.udp_socket(h2).bind((LOCAL_ADDR, LOCAL_PORT).into(), ANY).unwrap();

    // So do two sockets connected to different remotes.
    stack
        .udp_socket(h3)
        .bind(LOCAL_PORT.into(), (OTHER_ADDR, REMOTE_PORT).into())
        .unwrap();

    // The identical local + remote is rejected. (h1's local address was
    // resolved to LOCAL_ADDR, so this bind duplicates its whole tuple.)
    assert_eq!(
        stack
            .udp_socket(h4)
            .bind((LOCAL_ADDR, LOCAL_PORT).into(), (REMOTE_ADDR, REMOTE_PORT).into()),
        Err(BindError::InUse)
    );
}

#[test]
fn test_bind_conflicts_per_version() {
    let mut stack = Stack::new(0x1234_5678_dead_beef, packet_allocator());
    let h1 = stack.add_udp_socket().unwrap();
    let h2 = stack.add_udp_socket().unwrap();
    let h3 = stack.add_udp_socket().unwrap();

    // The two halves of a dual stack are different tuples, so they may
    // share a port, as may the address-less bind that covers both.
    stack
        .udp_socket(h1)
        .bind((ANY_V4, LOCAL_PORT).into(), ANY)
        .unwrap();
    stack
        .udp_socket(h2)
        .bind((ANY_V6, LOCAL_PORT).into(), ANY)
        .unwrap();
    stack.udp_socket(h3).bind(LOCAL_PORT.into(), ANY).unwrap();
    stack.udp_socket(h3).close();

    // Identity does distinguish the versions: only the same half conflicts.
    assert_eq!(
        stack.udp_socket(h3).bind((ANY_V6, LOCAL_PORT).into(), ANY),
        Err(BindError::InUse)
    );
}

#[test]
fn test_send_per_version_bind() {
    let (mut stack, handle) = stack_with_socket();
    let mut socket = stack.udp_socket(handle);
    socket.bind((ANY_V6, LOCAL_PORT).into(), ANY).unwrap();

    // The bind scopes the socket to IPv6, so an IPv4 destination contradicts it.
    assert_eq!(
        socket.send_slice(b"hi", (REMOTE_ADDR, REMOTE_PORT).into()),
        Err(SendError::Unaddressable)
    );
}

#[test]
fn test_demux_per_version() {
    // A bind to any IPv6 address takes no IPv4 traffic, not even on the port
    // it holds.
    let mut stack = stack_with_iface();
    let handle = stack.add_udp_socket().unwrap();
    stack
        .udp_socket(handle)
        .bind((ANY_V6, LOCAL_PORT).into(), ANY)
        .unwrap();

    deliver(&mut stack, REMOTE_ADDR, REMOTE_PORT, b"no");
    assert!(!stack.udp_socket(handle).can_recv());

    // The IPv4 half of the same port does take it.
    let handle = stack.add_udp_socket().unwrap();
    stack
        .udp_socket(handle)
        .bind((ANY_V4, LOCAL_PORT).into(), ANY)
        .unwrap();

    deliver(&mut stack, REMOTE_ADDR, REMOTE_PORT, b"yes");
    assert_eq!(&*stack.udp_socket(handle).recv().unwrap(), b"yes");
}

#[test]
fn test_bind_connected() {
    let mut stack = stack_with_iface();
    let handle = stack.add_udp_socket().unwrap();
    let mut socket = stack.udp_socket(handle);

    // Local fully wildcard + exact remote: the ordinary connected client.
    // The local address is resolved from the routing tables, and an
    // ephemeral port is allocated.
    socket.bind(0.into(), (REMOTE_ADDR, REMOTE_PORT).into()).unwrap();
    let local = socket.local_endpoint();
    assert_eq!(local.addr, Some(LOCAL_ADDR.into()));
    assert!(local.port >= EPHEMERAL_PORT_MIN);
    assert_eq!(
        socket.remote_endpoint(),
        IpListenEndpoint {
            addr: Some(REMOTE_ADDR.into()),
            port: REMOTE_PORT
        }
    );
}

#[test]
fn test_bind_connected_unaddressable() {
    // Without any interface there is no local address for the remote.
    let (mut stack, handle) = stack_with_socket();
    assert_eq!(
        stack.udp_socket(handle).bind(0.into(), (REMOTE_ADDR, REMOTE_PORT).into()),
        Err(BindError::Unaddressable)
    );

    // Mismatched local/remote address families.
    let mut stack = stack_with_iface();
    let handle = stack.add_udp_socket().unwrap();
    assert_eq!(
        stack.udp_socket(handle).bind((LOCAL_ADDR, LOCAL_PORT).into(), (LOCALHOST_V6, REMOTE_PORT).into()),
        Err(BindError::Unaddressable)
    );
}

#[test]
fn test_connected_demux_filter() {
    let mut stack = stack_with_iface();
    let handle = stack.add_udp_socket().unwrap();
    stack
        .udp_socket(handle)
        .bind(LOCAL_PORT.into(), (REMOTE_ADDR, REMOTE_PORT).into())
        .unwrap();

    // Matching the connected remote: delivered.
    deliver(&mut stack, REMOTE_ADDR, REMOTE_PORT, b"yes");
    assert_eq!(&*stack.udp_socket(handle).recv().unwrap(), b"yes");

    // Wrong source address or port: filtered out.
    deliver(&mut stack, OTHER_ADDR, REMOTE_PORT, b"no");
    deliver(&mut stack, REMOTE_ADDR, REMOTE_PORT + 1, b"no");
    assert!(!stack.udp_socket(handle).can_recv());
}

#[test]
fn test_remote_addr_only_filter() {
    // A partially specified remote: any port of one peer.
    let mut stack = stack_with_iface();
    let handle = stack.add_udp_socket().unwrap();
    stack.udp_socket(handle).bind(LOCAL_PORT.into(), (REMOTE_ADDR, 0).into()).unwrap();

    deliver(&mut stack, REMOTE_ADDR, REMOTE_PORT, b"a");
    deliver(&mut stack, REMOTE_ADDR, REMOTE_PORT + 1, b"b");
    deliver(&mut stack, OTHER_ADDR, REMOTE_PORT, b"no");
    assert_eq!(&*stack.udp_socket(handle).recv().unwrap(), b"a");
    assert_eq!(&*stack.udp_socket(handle).recv().unwrap(), b"b");
    assert!(!stack.udp_socket(handle).can_recv());
}

#[test]
fn test_demux_priority() {
    // When several sockets match a datagram, the most specific one wins,
    // regardless of creation order: connected beats bound-to-address beats
    // wildcard.
    let mut stack = stack_with_iface();
    let h_any = stack.add_udp_socket().unwrap();
    let h_addr = stack.add_udp_socket().unwrap();
    let h_conn = stack.add_udp_socket().unwrap();
    stack.udp_socket(h_any).bind(LOCAL_PORT.into(), ANY).unwrap();
    stack.udp_socket(h_addr).bind((LOCAL_ADDR, LOCAL_PORT).into(), ANY).unwrap();
    stack
        .udp_socket(h_conn)
        .bind((LOCAL_ADDR, LOCAL_PORT).into(), (REMOTE_ADDR, REMOTE_PORT).into())
        .unwrap();

    // From the connected remote: the connected socket wins.
    deliver(&mut stack, REMOTE_ADDR, REMOTE_PORT, b"conn");
    // From another port of the same peer: the address-bound socket.
    deliver(&mut stack, REMOTE_ADDR, REMOTE_PORT + 1, b"addr");
    // To another local address: only the wildcard socket matches.
    deliver_to(&mut stack, REMOTE_ADDR, REMOTE_PORT, OTHER_ADDR, b"any");

    assert_eq!(&*stack.udp_socket(h_conn).recv().unwrap(), b"conn");
    assert!(!stack.udp_socket(h_conn).can_recv());
    assert_eq!(&*stack.udp_socket(h_addr).recv().unwrap(), b"addr");
    assert!(!stack.udp_socket(h_addr).can_recv());
    assert_eq!(&*stack.udp_socket(h_any).recv().unwrap(), b"any");
    assert!(!stack.udp_socket(h_any).can_recv());
}

#[test]
fn test_demux_priority_per_version() {
    // The per-version wildcard sits between the address-less bind and an
    // exact address: it takes its version's traffic away from the
    // dual-stack socket, and gives it up to the exact address in turn.
    let mut stack = stack_with_iface();
    let h_any = stack.add_udp_socket().unwrap();
    let h_v4 = stack.add_udp_socket().unwrap();
    let h_addr = stack.add_udp_socket().unwrap();
    stack.udp_socket(h_any).bind(LOCAL_PORT.into(), ANY).unwrap();
    stack
        .udp_socket(h_v4)
        .bind((ANY_V4, LOCAL_PORT).into(), ANY)
        .unwrap();

    deliver(&mut stack, REMOTE_ADDR, REMOTE_PORT, b"v4");
    assert_eq!(&*stack.udp_socket(h_v4).recv().unwrap(), b"v4");
    assert!(!stack.udp_socket(h_any).can_recv());

    stack.udp_socket(h_addr).bind((LOCAL_ADDR, LOCAL_PORT).into(), ANY).unwrap();

    deliver(&mut stack, REMOTE_ADDR, REMOTE_PORT, b"addr");
    assert_eq!(&*stack.udp_socket(h_addr).recv().unwrap(), b"addr");
    assert!(!stack.udp_socket(h_v4).can_recv());
    assert!(!stack.udp_socket(h_any).can_recv());
}

#[test]
fn test_send_defaults_to_remote() {
    let mut stack = stack_with_iface();
    let handle = stack.add_udp_socket().unwrap();
    let mut socket = stack.udp_socket(handle);

    // Not bound yet.
    assert_eq!(
        socket.send_slice(b"hi", (REMOTE_ADDR, REMOTE_PORT).into()),
        Err(SendError::InvalidState)
    );

    // Unconnected socket: a wildcard destination is unaddressable.
    socket.bind(LOCAL_PORT.into(), ANY).unwrap();
    assert_eq!(
        socket.send_slice(b"hi", NOWHERE.into()),
        Err(SendError::Unaddressable)
    );
    socket.close();

    // Connected socket: the destination defaults to the bound remote, and
    // an explicit destination overrides it.
    socket.bind(LOCAL_PORT.into(), (REMOTE_ADDR, REMOTE_PORT).into()).unwrap();
    assert_eq!(socket.send_slice(b"hi", NOWHERE.into()), Ok(()));
    assert_eq!(socket.send_slice(b"hi", IpEndpoint::new(OTHER_ADDR.into(), 9).into()), Ok(()));
}

/// Packet metadata travels in both directions: what the driver attached to a
/// received datagram comes back out of `recv`, and what `send` was given reaches
/// the driver with the frame.
#[test]
fn test_packet_meta() {
    let driver = TestDevice::new(Medium::Ip);
    let mut stack = Stack::new(0x1234_5678_dead_beef, packet_allocator());
    let iface = driver.install(&mut stack, HardwareAddress::Ip);
    stack
        .iface(iface)
        .add_ip_addr(IpCidr::new(LOCAL_ADDR.into(), 24));

    let handle = stack.add_udp_socket().unwrap();
    let mut socket = stack.udp_socket(handle);
    socket.bind(LOCAL_PORT.into(), ANY).unwrap();

    // Ingress: the driver's metadata comes out of recv.
    let mut buf = queued_packet(b"abcdef");
    buf.meta.id = 0x1234;
    socket.inner_mut().rx_enqueue(buf);
    assert_eq!(socket.recv().unwrap().meta().meta.id, 0x1234);

    // Egress: the metadata given to send reaches the device.
    let mut meta: UdpMetadata = IpEndpoint::new(REMOTE_ADDR.into(), REMOTE_PORT).into();
    meta.meta.id = 0x5678;
    socket.send_slice(b"hi", meta).unwrap();
    let sent = &stack.ifaces.get(0).device.tx_meta;
    assert_eq!(sent.len(), 1);
    assert_eq!(sent[0].id, 0x5678);

    // ... and a plain send carries the default.
    stack
        .udp_socket(handle)
        .send_slice(b"hi", IpEndpoint::new(REMOTE_ADDR.into(), REMOTE_PORT).into())
        .unwrap();
    assert_eq!(stack.ifaces.get(0).device.tx_meta[1], PacketMeta::default());
}

#[test]
fn test_send_requires_own_src_addr() {
    let mut stack = stack_with_iface();
    let handle = stack.add_udp_socket().unwrap();
    let mut socket = stack.udp_socket(handle);
    socket.bind(LOCAL_PORT.into(), ANY).unwrap();

    let dst = IpEndpoint::new(REMOTE_ADDR.into(), REMOTE_PORT);

    // An explicit source address that isn't ours fails synchronously, the
    // interface's own address works. (Raw sockets, by contrast, may send
    // any source address.)
    assert_eq!(
        socket.send_slice(b"hi", UdpMetadata {
                endpoint: dst,
                local_address: Some(OTHER_ADDR.into()),
                meta: PacketMeta::default(),
            }),
        Err(SendError::Unaddressable)
    );
    assert_eq!(
        socket.send_slice(b"hi", UdpMetadata {
                endpoint: dst,
                local_address: Some(LOCAL_ADDR.into()),
                meta: PacketMeta::default(),
            }),
        Ok(())
    );
    socket.close();

    // A bound source address that is no longer ours (the interface's
    // address changed) also fails the send.
    socket
        .bind((LOCAL_ADDR, LOCAL_PORT).into(), (REMOTE_ADDR, REMOTE_PORT).into())
        .unwrap();
    assert_eq!(socket.send_slice(b"hi", dst.into()), Ok(()));
    stack.ifaces.get_mut(0).ip_addrs.clear();
    stack.ifaces.get_mut(0).add_ip_addr(IpCidr::new(OTHER_ADDR.into(), 24));
    let mut socket = stack.udp_socket(handle);
    assert_eq!(socket.send_slice(b"hi", dst.into()), Err(SendError::Unaddressable));
}

#[test]
fn test_socket_slab_full() {
    let mut stack = Stack::new(0x1234_5678_dead_beef, packet_allocator());
    let mut handles = Vec::new();
    for _ in 0..UDP_SOCKET_COUNT {
        handles.push(stack.add_udp_socket().unwrap());
    }
    assert_eq!(stack.add_udp_socket(), Err(Full));
    // Removing one makes room again, and its slot is reused.
    stack.remove_udp_socket(handles[1]);
    assert_eq!(stack.add_udp_socket(), Ok(handles[1]));
}

#[test]
fn test_rx_queue_full_drops() {
    let (mut stack, handle) = stack_with_socket();
    let mut socket = stack.udp_socket(handle);
    socket.bind(LOCAL_PORT.into(), ANY).unwrap();

    // One more datagram than the queue holds: the extra one is dropped.
    for _ in 0..UDP_RX_QUEUE_COUNT + 1 {
        socket.inner_mut().rx_enqueue(queued_packet(b"abcdef"));
    }
    for _ in 0..UDP_RX_QUEUE_COUNT {
        assert!(socket.recv().is_ok());
    }
    assert_eq!(socket.recv().err(), Some(RecvError::Exhausted));
}

#[test]
fn test_recv() {
    let (mut stack, handle) = stack_with_socket();
    let mut socket = stack.udp_socket(handle);

    // Not bound yet.
    assert_eq!(socket.recv().err(), Some(RecvError::InvalidState));
    assert_eq!(socket.peek().err(), Some(RecvError::InvalidState));

    socket.bind(LOCAL_PORT.into(), ANY).unwrap();

    assert!(!socket.can_recv());
    assert_eq!(socket.recv().err(), Some(RecvError::Exhausted));

    socket.inner_mut().rx_enqueue(queued_packet(b"abcdef"));
    assert!(socket.can_recv());

    let packet = socket.recv().unwrap();
    assert_eq!(packet.payload(), b"abcdef");
    assert_eq!(&*packet, b"abcdef");
    assert_eq!(
        packet.meta(),
        UdpMetadata {
            endpoint: IpEndpoint::new(REMOTE_ADDR.into(), REMOTE_PORT),
            local_address: Some(LOCAL_ADDR.into()),
            meta: PacketMeta::default(),
        }
    );
    assert!(!socket.can_recv());
}

#[test]
fn test_peek_and_recv_slice() {
    let (mut stack, handle) = stack_with_socket();
    let mut socket = stack.udp_socket(handle);
    socket.bind(LOCAL_PORT.into(), ANY).unwrap();
    socket.inner_mut().rx_enqueue(queued_packet(b"abcdef"));

    let (payload, meta) = socket.peek().unwrap();
    assert_eq!(payload, b"abcdef");
    assert_eq!(meta.endpoint.port, REMOTE_PORT);

    // Peeking does not dequeue.
    let mut slice = [0; 16];
    assert_eq!(socket.peek_slice(&mut slice).unwrap().0, 6);
    assert_eq!(&slice[..6], b"abcdef");

    let (len, meta) = socket.recv_slice(&mut slice).unwrap();
    assert_eq!(&slice[..len], b"abcdef");
    assert_eq!(meta.endpoint, IpEndpoint::new(REMOTE_ADDR.into(), REMOTE_PORT));
    assert_eq!(socket.recv_slice(&mut slice).err(), Some(RecvError::Exhausted));
}

#[test]
fn test_recv_slice_truncated() {
    let (mut stack, handle) = stack_with_socket();
    let mut socket = stack.udp_socket(handle);
    socket.bind(LOCAL_PORT.into(), ANY).unwrap();
    socket.inner_mut().rx_enqueue(queued_packet(b"abcdef"));

    let mut slice = [0; 4];
    // peek_slice keeps the packet...
    assert_eq!(socket.peek_slice(&mut slice).err(), Some(RecvError::Truncated));
    assert!(socket.can_recv());
    // ...recv_slice drops it.
    assert_eq!(socket.recv_slice(&mut slice).err(), Some(RecvError::Truncated));
    assert!(!socket.can_recv());
}

#[test]
fn sent_datagram_is_received() {
    // What one stack transmits, another one takes in.
    let mut sender = stack_with_iface();
    let from = sender.add_udp_socket().unwrap();
    sender.udp_socket(from).bind(7000.into(), ANY).unwrap();
    sender
        .udp_socket(from)
        .send_with(20, (REMOTE_ADDR, LOCAL_PORT).into(), |room| {
            room[..5].copy_from_slice(b"hello");
            5
        })
        .unwrap();
    let frame = sender.ifaces.get(0).device.tx[0].clone();

    let mut receiver = stack_with_iface();
    let to = receiver.add_udp_socket().unwrap();
    receiver.udp_socket(to).bind(LOCAL_PORT.into(), ANY).unwrap();
    let mut buf = packet_allocator().try_alloc().unwrap();
    buf.set_len(frame.len());
    buf.bytes_mut().copy_from_slice(&frame);
    let (src, dst, at) = packet::parse(buf.bytes());
    buf.pull_front(at);
    receiver.process_udp(IfaceHandle { index: 0 }, src, dst, at, false, buf);
    let mut packet = receiver.udp_socket(to).recv().unwrap();
    assert_eq!(packet.payload(), b"hello");
    assert_eq!(packet.meta().endpoint, (LOCAL_ADDR, 7000).into());
    assert_eq!(packet.meta().local_address, Some(REMOTE_ADDR.into()));
    packet.payload_mut()[0] = b'j';
    assert_eq!(&*packet, b"jello");
}

#[test]
fn damaged_and_unclaimed_datagrams() {
    let mut stack = stack_with_iface();
    let handle = stack.add_udp_socket().unwrap();
    stack.udp_socket(handle).bind(LOCAL_PORT.into(), ANY).unwrap();
    let free = stack.inner.pool.free;

    // A damaged one is dropped, and its buffer given back.
    let mut buf = queued_packet(b"abc");
    buf.pull_front(IPV4_HEADER_LEN);
    buf.bytes_mut()[8] ^= 1;
    stack.process_udp(
        IfaceHandle { index: 0 },
        REMOTE_ADDR.into(),
        LOCAL_ADDR.into(),
        IPV4_HEADER_LEN,
        false,
        buf,
    );
    assert!(stack.ifaces.get(0).device.tx.is_empty());
    assert_eq!(stack.inner.pool.free, free + 1);
    assert!(!stack.udp_socket(handle).can_recv());

    // Unless the device vouches for it.
    stack.ifaces.get_mut(0).device.checksum.udp.rx = false;
    let mut buf = queued_packet(b"abc");
    buf.pull_front(IPV4_HEADER_LEN);
    buf.bytes_mut()[8] ^= 1;
    stack.process_udp(
        IfaceHandle { index: 0 },
        REMOTE_ADDR.into(),
        LOCAL_ADDR.into(),
        IPV4_HEADER_LEN,
        false,
        buf,
    );
    assert_eq!(stack.udp_socket(handle).recv().unwrap().payload(), b"`bc");

    // One that nobody listens for is rejected, unless a raw socket has got it.
    stack.udp_socket(handle).close();
    for handled in [true, false] {
        let mut buf = queued_packet(b"abc");
        let whole = buf.bytes().to_vec();
        buf.pull_front(IPV4_HEADER_LEN);
        let free = stack.inner.pool.free;
        stack.process_udp(
            IfaceHandle { index: 0 },
            REMOTE_ADDR.into(),
            LOCAL_ADDR.into(),
            IPV4_HEADER_LEN,
            handled,
            buf,
        );
        assert_eq!(stack.inner.pool.free, free + 1);
        let sent = &stack.ifaces.get(0).device.tx;
        if handled {
            assert!(sent.is_empty());
        } else {
            assert_eq!(sent.len(), 1);
            let expected: [u8; 28] = [
                0x45, 0x00, 0x00, 0x3b, 0x00, 0x00, 0x40, 0x00, 0x40, 0x01, 0xb7, 0x6e, 0xc0, 0xa8,
                0x01, 0x01, 0xc0, 0xa8, 0x01, 0x02, 0x03, 0x03, 0x80, 0x6d, 0x00, 0x00, 0x00, 0x00,
            ];
            assert_eq!(sent[0][..28], expected);
            assert_eq!(sent[0][28..], whole);
        }
    }
}

/// Hands a datagram to port 53 to a stack on which nobody takes it, and returns the answer.
fn rejected(stack: &mut Stack, src: IpAddress, dst: IpAddress, payload: &[u8]) -> Option<Vec<u8>> {
    let at = src.header_len();
    let mut buf = packet_allocator().try_alloc().unwrap();
    buf.set_len(at + UDP_HEADER_LEN + payload.len());
    let bytes = buf.bytes_mut();
    packet::emit(bytes, src, dst, IpProtocol::Udp, 64, true);
    bytes[at + UDP_HEADER_LEN..].copy_from_slice(payload);
    udp::emit(&mut bytes[at..], src, REMOTE_PORT, dst, LOCAL_PORT, true);
    buf.pull_front(at);
    stack.process_udp(IfaceHandle { index: 0 }, src, dst, at, false, buf);
    stack.ifaces.get_mut(0).device.tx.pop()
}

#[test]
fn only_hosts_are_told_that_a_port_is_unreachable() {
    let mut stack = stack_with_iface();
    let local: IpAddress = LOCAL_ADDR.into();
    let remote: IpAddress = REMOTE_ADDR.into();
    let broadcast: IpAddress = Ipv4Address(0xc0a8_01ff).into();
    let multicast: IpAddress = Ipv4Address(0xe000_0001).into();
    assert!(rejected(&mut stack, remote, local, b"x").is_some());
    assert_eq!(rejected(&mut stack, ANY_V4.into(), local, b"x"), None);
    assert_eq!(rejected(&mut stack, broadcast, local, b"x"), None);
    assert_eq!(rejected(&mut stack, multicast, local, b"x"), None);
    assert_eq!(rejected(&mut stack, remote, broadcast, b"x"), None);
    assert_eq!(rejected(&mut stack, remote, multicast, b"x"), None);
    // Nobody here has that address, or there is no way back.
    assert_eq!(rejected(&mut stack, remote, OTHER_ADDR.into(), b"x"), None);
    assert_eq!(rejected(&mut stack, Ipv4Address(0x0a00_0001).into(), local, b"x"), None);
    // A large packet is quoted in part.
    let answer = rejected(&mut stack, remote, local, &[7; 1000]).unwrap();
    assert_eq!(answer.len(), 576);
    // Without room or another buffer there is no answer.
    stack.ifaces.get_mut(0).device.room = Some(0);
    assert_eq!(rejected(&mut stack, remote, local, b"x"), None);
    stack.ifaces.get_mut(0).device.room = None;
    stack.inner.pool.free = 0;
    assert_eq!(rejected(&mut stack, remote, local, b"x"), None);
    assert_eq!(stack.inner.pool.free, 1);
}

#[test]
fn unreachable_port_is_told_over_both_versions() {
    let mut stack = stack_with_iface();
    let local: IpAddress = Ipv6Address(0xfe80_0000_0000_0000_0000_0000_0000_0001).into();
    let remote: IpAddress = Ipv6Address(0xfe80_0000_0000_0000_0000_0000_0000_0002).into();
    stack.iface(IfaceHandle { index: 0 }).add_ip_addr(IpCidr::new(local, 64));
    let answer = rejected(&mut stack, remote, local, b"abc").unwrap();
    assert_eq!(answer[6], 58);
    assert_eq!(packet::parse(&answer), (local, remote, 40));
    assert_eq!(answer[40..42], [1, 4]);
    assert_eq!(answer[42..44], [0x90, 0x52]);
    assert_eq!(answer[44..48], [0; 4]);
    assert_eq!(answer.len(), 40 + 8 + 40 + 8 + 3);
    assert_eq!(answer[answer.len() - 3..], *b"abc");
}

#[test]
fn broadcast_reaches_sockets_bound_to_an_address() {
    let mut stack = stack_with_iface();
    let handle = stack.add_udp_socket().unwrap();
    stack.udp_socket(handle).bind((LOCAL_ADDR, LOCAL_PORT).into(), ANY).unwrap();
    let broadcast = Ipv4Address::new(192, 168, 1, 255);
    deliver_to(&mut stack, REMOTE_ADDR, REMOTE_PORT, broadcast, b"all");
    assert_eq!(stack.udp_socket(handle).recv().unwrap().payload(), b"all");
    deliver_to(&mut stack, REMOTE_ADDR, REMOTE_PORT, OTHER_ADDR, b"no");
    assert!(!stack.udp_socket(handle).can_recv());
}

#[test]
fn pending_error_is_reported_once() {
    let mut stack = stack_with_iface();
    let handle = stack.add_udp_socket().unwrap();
    stack
        .udp_socket(handle)
        .bind((LOCAL_ADDR, LOCAL_PORT).into(), (REMOTE_ADDR, REMOTE_PORT).into())
        .unwrap();
    deliver(&mut stack, REMOTE_ADDR, REMOTE_PORT, b"data");
    let local = (LOCAL_ADDR, LOCAL_PORT).into();
    let remote: IpEndpoint = (REMOTE_ADDR, REMOTE_PORT).into();
    process_icmp_error(&mut stack.udp, IcmpError::PortUnreachable, local, remote);
    assert_eq!(
        stack.udp_socket(handle).recv().err(),
        Some(RecvError::IcmpError { error: IcmpError::PortUnreachable, remote })
    );
    assert_eq!(stack.udp_socket(handle).recv().unwrap().payload(), b"data");
    assert_eq!(stack.udp_socket(handle).take_icmp_error(), None);
}

#[test]
fn send_fails_without_room() {
    let mut stack = stack_with_iface();
    let handle = stack.add_udp_socket().unwrap();
    stack.udp_socket(handle).bind(LOCAL_PORT.into(), ANY).unwrap();
    // More than a buffer holds.
    assert_eq!(
        stack.udp_socket(handle).send_slice(&[0; 1600], (REMOTE_ADDR, REMOTE_PORT).into()),
        Err(SendError::BufferFull)
    );
    stack.ifaces.get_mut(0).device.room = Some(0);
    assert_eq!(
        stack.udp_socket(handle).send_slice(b"x", (REMOTE_ADDR, REMOTE_PORT).into()),
        Err(SendError::DeviceBusy)
    );
    assert!(stack.take_packet_allocator_starved());
    stack.ifaces.get_mut(0).device.room = None;
    stack.udp_socket(handle).set_hop_limit(Some(9));
    assert_eq!(stack.udp_socket(handle).hop_limit(), Some(9));
    stack
        .udp_socket(handle)
        .send_slice(b"x", (REMOTE_ADDR, REMOTE_PORT).into())
        .unwrap();
    assert_eq!(stack.ifaces.get(0).device.tx[0][8], 9);
}

#[test]
fn closure_is_left_alone_where_nothing_is_sent() {
    let mut stack = stack_with_iface();
    let handle = stack.add_udp_socket().unwrap();
    let to: UdpMetadata = (REMOTE_ADDR, REMOTE_PORT).into();
    let mut called = false;
    let mut fill = |_: &mut [u8]| {
        called = true;
        0
    };
    assert_eq!(
        stack.udp_socket(handle).send_with(4, to, &mut fill),
        Err(SendError::InvalidState)
    );
    stack.udp_socket(handle).bind(LOCAL_PORT.into(), ANY).unwrap();
    assert_eq!(
        stack.udp_socket(handle).send_with(4, NOWHERE.into(), &mut fill),
        Err(SendError::Unaddressable)
    );
    assert_eq!(
        stack.udp_socket(handle).send_with(1600, to, &mut fill),
        Err(SendError::BufferFull)
    );
    stack.ifaces.get_mut(0).device.room = Some(0);
    assert_eq!(stack.udp_socket(handle).send_with(4, to, &mut fill), Err(SendError::DeviceBusy));
    assert!(!called);
    stack.ifaces.get_mut(0).device.room = None;
    let sent = stack.udp_socket(handle).send_with(4, to, |room| {
        assert_eq!(room.len(), 4);
        room[..2].copy_from_slice(b"ok");
        2
    });
    assert_eq!(sent, Ok(()));
    assert_eq!(stack.ifaces.get(0).device.tx[0][28..], *b"ok");
}

#[test]
fn buffers_return_to_the_pool() {
    let mut stack = stack_with_iface();
    let handle = stack.add_udp_socket().unwrap();
    stack.udp_socket(handle).bind(LOCAL_PORT.into(), ANY).unwrap();
    for _ in 0..3 {
        let taken = stack.inner.pool.try_alloc();
        assert!(taken.is_some());
        deliver(&mut stack, REMOTE_ADDR, REMOTE_PORT, b"data");
    }
    assert_eq!(stack.inner.pool.free, PACKET_COUNT - 3);
    let packet = stack.udp_socket(handle).recv().unwrap();
    assert_eq!(stack.inner.pool.free, PACKET_COUNT - 3);
    packet.release(&mut stack.inner.pool);
    assert_eq!(stack.inner.pool.free, PACKET_COUNT - 2);
    stack.remove_udp_socket(handle);
    assert_eq!(stack.inner.pool.free, PACKET_COUNT);
}
