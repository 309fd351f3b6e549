use managed::ManagedSlice;
use std::ops::{Deref, DerefMut};
use xarxa::driver::{HardwareAddress, Medium};
use xarxa::stack::{Stack, EPHEMERAL_PORT_MIN};
use xarxa::storage::{Assembler, Slab};
use xarxa::tcp::congestion::Congestion;
use xarxa::tcp::listener::{process_listeners, TCP_LISTENER_BACKLOG};
use xarxa::tcp::repr::{TcpControl, TcpRepr, TcpTimestampRepr, TCP_HEADER_LEN};
use xarxa::tcp::rtt::RttEstimator;
use xarxa::tcp::socket::TCP_SOCKET_COUNT;
use xarxa::tcp::state::{SocketBuffer, TcpSocketState};
use xarxa::tcp::timer::{Timer, ACK_DELAY_DEFAULT_MS, CLOSE_DELAY_MS};
use xarxa::tcp::{
    AcceptError, ConnectError, ListenError, RecvError, State, TcpHandle, TcpListenerHandle,
    TcpSocket, Tuple, DEFAULT_MSS, MIN_REMOTE_MSS,
};
use xarxa::test_device::{packet_allocator, TestDevice};
use xarxa::time::{Duration, Instant};
use xarxa::wire::{
    IpAddress, IpCidr, IpEndpoint, Ipv4Address, Ipv6Address, TcpSeqNumber, IPV4_HEADER_LEN,
};

// =========================================================================================//
// Constants
// =========================================================================================//

const LOCAL_PORT: u16 = 80;
const REMOTE_PORT: u16 = 49500;
const TUPLE: Tuple = Tuple {
    local: LOCAL_END,
    remote: REMOTE_END,
};
const LOCAL_SEQ: TcpSeqNumber = TcpSeqNumber(10000);
const REMOTE_SEQ: TcpSeqNumber = TcpSeqNumber(-10001);

/// `192.168.1.1`
const LOCAL_ADDR: Ipv4Address = Ipv4Address(0xc0a8_0101);
/// `192.168.1.2`
const REMOTE_ADDR: Ipv4Address = Ipv4Address(0xc0a8_0102);
/// `192.168.1.3`
const OTHER_ADDR: Ipv4Address = Ipv4Address(0xc0a8_0103);
const ANY_ADDR: Ipv4Address = Ipv4Address(0);
/// The unspecified address of the *other* IP version than the one under test.
const OTHER_VERSION_ANY: IpAddress = IpAddress::Ipv6(Ipv6Address(0));

const BASE_MSS: u16 = 1460;

const LOCAL_END: IpEndpoint = IpEndpoint {
    addr: IpAddress::Ipv4(LOCAL_ADDR),
    port: LOCAL_PORT,
};
const REMOTE_END: IpEndpoint = IpEndpoint {
    addr: IpAddress::Ipv4(REMOTE_ADDR),
    port: REMOTE_PORT,
};

const SEND_TEMPL: TcpRepr<'static> = TcpRepr {
    src_port: REMOTE_PORT,
    dst_port: LOCAL_PORT,
    control: TcpControl::Plain,
    seq_number: TcpSeqNumber(0),
    ack_number: Some(TcpSeqNumber(0)),
    window_len: 256,
    window_scale: None,
    max_seg_size: None,
    sack_permitted: false,
    sack_ranges: [None, None, None],
    timestamp: None,
    payload: &[],
    payload2: &[],
};
const RECV_TEMPL: TcpRepr<'static> = TcpRepr {
    src_port: LOCAL_PORT,
    dst_port: REMOTE_PORT,
    control: TcpControl::Plain,
    seq_number: TcpSeqNumber(0),
    ack_number: Some(TcpSeqNumber(0)),
    window_len: 64,
    window_scale: None,
    max_seg_size: None,
    sack_permitted: false,
    sack_ranges: [None, None, None],
    timestamp: None,
    payload: &[],
    payload2: &[],
};

// =========================================================================================//
// Helper functions
// =========================================================================================//

struct TestSocket {
    sockets: Slab<TcpSocketState<'static>, TCP_SOCKET_COUNT>,
    stack: Stack<'static>,
}

impl TestSocket {
    fn view(&mut self) -> TcpSocket<'_, 'static> {
        TcpSocket {
            sockets: &mut self.sockets,
            index: 0,
            tx: self.stack.tx_context(),
        }
    }
}

impl Deref for TestSocket {
    type Target = TcpSocketState<'static>;
    fn deref(&self) -> &Self::Target {
        self.sockets.get(0)
    }
}

impl DerefMut for TestSocket {
    fn deref_mut(&mut self) -> &mut Self::Target {
        self.sockets.get_mut(0)
    }
}

fn send(socket: &mut TestSocket, timestamp: Instant, repr: &TcpRepr) -> Option<TcpRepr<'static>> {
    socket.stack.inner.now = timestamp;

    let src_addr = IpAddress::from(REMOTE_ADDR);
    let dst_addr = IpAddress::from(LOCAL_ADDR);

    assert!(socket.sockets.get_mut(0).accepts(&src_addr, &dst_addr, repr));

    socket.sockets.get_mut(0).process(timestamp, &src_addr, &dst_addr, repr)
}

fn recv<F>(socket: &mut TestSocket, timestamp: Instant, mut f: F)
where
    F: FnMut(Result<TcpRepr, ()>),
{
    socket.stack.inner.now = timestamp;

    let mut sent = 0;
    let result = socket.sockets.get_mut(0).dispatch(
        &mut socket.stack.tx_context(),
        |_, (_route, src_addr, dst_addr, _hop_limit, tcp_repr)| {
            assert_eq!(src_addr, LOCAL_ADDR.into());
            assert_eq!(dst_addr, REMOTE_ADDR.into());

            sent += 1;
            f(Ok(tcp_repr));
            Ok(())
        },
    );
    match result {
        Ok(()) => assert_eq!(sent, 1, "Exactly one packet should be sent"),
        Err(e) => f(Err(e)),
    }
}

/// Exactly this is sent. Most of the time the PSH flag does not matter.
fn recv_is(socket: &mut TestSocket, millis: i64, expected: Result<TcpRepr, ()>) {
    recv(socket, Instant::from_millis(millis), |result| {
        let result = result.map(|mut repr| {
            repr.control = repr.control.quash_psh();
            repr
        });
        assert_eq!(result, expected)
    })
}

/// Exactly this is sent, with or without the PSH flag as given.
fn recv_is_exactly(socket: &mut TestSocket, millis: i64, expected: Result<TcpRepr, ()>) {
    recv(socket, Instant::from_millis(millis), |repr| assert_eq!(repr, expected))
}

fn recv_nothing(socket: &mut TestSocket, timestamp: Instant) {
    socket.stack.inner.now = timestamp;

    let mut fail = false;
    let result: Result<(), ()> = socket
        .sockets
        .get_mut(0)
        .dispatch(&mut socket.stack.tx_context(), |_, _| {
            fail = true;
            Ok(())
        });
    if fail {
        panic!("Should not send a packet")
    }

    assert_eq!(result, Ok(()))
}

fn sanity(s1: &TestSocket, s2: &TestSocket) {
    assert_eq!(s1.state, s2.state, "state");
    assert_eq!(s1.tuple, s2.tuple, "tuple");
    assert_eq!(s1.local_seq_no, s2.local_seq_no, "local_seq_no");
    assert_eq!(s1.remote_seq_no, s2.remote_seq_no, "remote_seq_no");
    assert_eq!(s1.remote_last_seq, s2.remote_last_seq, "remote_last_seq");
    assert_eq!(s1.remote_last_ack, s2.remote_last_ack, "remote_last_ack");
    assert_eq!(s1.remote_last_win, s2.remote_last_win, "remote_last_win");
    assert_eq!(s1.remote_win_len, s2.remote_win_len, "remote_win_len");
    assert_eq!(s1.timer, s2.timer, "timer");
}

/// Replaces the random numbers that a connection starts with.
fn pin_initial_numbers(s: &mut TestSocket) {
    s.local_seq_no = LOCAL_SEQ;
    s.remote_last_seq = LOCAL_SEQ;
    s.tsval_offset = 0;
}

fn buffer(len: usize) -> SocketBuffer<'static> {
    SocketBuffer::new(ManagedSlice::Borrowed(vec![0; len].leak()))
}

fn add_socket(stack: &mut Stack<'static>) -> TcpHandle {
    stack.add_tcp_socket(buffer(64), buffer(64)).unwrap()
}

/// The socket that a connection was accepted into, on its own.
fn accepted(mut stack: Stack<'static>, handle: TcpHandle) -> TestSocket {
    let mut socket = TcpSocketState::new(buffer(1), buffer(1));
    std::mem::swap(&mut socket, stack.tcp.get_mut(handle.index));
    let mut sockets = Slab::new();
    sockets.insert(socket).unwrap();
    let mut s = TestSocket { sockets, stack };
    pin_initial_numbers(&mut s);
    s
}

/// A stack with one interface owning `LOCAL_ADDR`.
fn test_stack() -> Stack<'static> {
    let mut stack = Stack::new(0x1234_5678_dead_beef, packet_allocator());
    let handle = TestDevice::new(Medium::Ip).install(&mut stack, HardwareAddress::Ip);
    let iface = stack.iface(handle);
    iface.add_ip_addr(IpCidr::new(LOCAL_ADDR.into(), 24));
    iface.add_ip_addr(IpCidr::new(Ipv4Address::new(127, 0, 0, 1).into(), 8));
    stack
}

fn socket_with_buffer_sizes(tx_len: usize, rx_len: usize) -> TestSocket {
    let stack = test_stack();

    let mut socket = TcpSocketState::new(buffer(rx_len), buffer(tx_len));
    socket.ack_delay = None;
    let mut sockets = Slab::new();
    sockets.insert(socket).unwrap();
    TestSocket { sockets, stack }
}

fn socket() -> TestSocket {
    socket_with_buffer_sizes(64, 64)
}



fn socket_syn_received_with_buffer_sizes(tx_len: usize, rx_len: usize) -> TestSocket {
    let mut s = socket_with_buffer_sizes(tx_len, rx_len);
    s.state = State::SynReceived;
    s.tuple = Some(TUPLE);
    s.local_seq_no = LOCAL_SEQ;
    s.remote_seq_no = REMOTE_SEQ + 1;
    s.remote_last_seq = LOCAL_SEQ;
    s.remote_win_len = 256;
    s
}

fn socket_syn_received() -> TestSocket {
    socket_syn_received_with_buffer_sizes(64, 64)
}

fn socket_syn_sent_with_buffer_sizes(tx_len: usize, rx_len: usize) -> TestSocket {
    let mut s = socket_with_buffer_sizes(tx_len, rx_len);
    s.state = State::SynSent;
    s.tuple = Some(TUPLE);
    s.local_seq_no = LOCAL_SEQ;
    s.remote_last_seq = LOCAL_SEQ;
    s
}

fn socket_syn_sent() -> TestSocket {
    socket_syn_sent_with_buffer_sizes(64, 64)
}

fn socket_established_with_buffer_sizes(tx_len: usize, rx_len: usize) -> TestSocket {
    let mut s = socket_syn_received_with_buffer_sizes(tx_len, rx_len);
    s.state = State::Established;
    s.local_seq_no = LOCAL_SEQ + 1;
    s.remote_last_seq = LOCAL_SEQ + 1;
    s.remote_last_ack = Some(REMOTE_SEQ + 1);
    s.remote_last_win = s.scaled_window();
    s
}

fn socket_established() -> TestSocket {
    socket_established_with_buffer_sizes(64, 64)
}

fn socket_fin_wait_1() -> TestSocket {
    let mut s = socket_established();
    s.state = State::FinWait1;
    s
}

fn socket_fin_wait_2() -> TestSocket {
    let mut s = socket_fin_wait_1();
    s.state = State::FinWait2;
    s.local_seq_no = LOCAL_SEQ + 1 + 1;
    s.remote_last_seq = LOCAL_SEQ + 1 + 1;
    s
}

fn socket_closing() -> TestSocket {
    let mut s = socket_fin_wait_1();
    s.state = State::Closing;
    s.remote_last_seq = LOCAL_SEQ + 1 + 1;
    s.remote_seq_no = REMOTE_SEQ + 1 + 1;
    s.timer = Timer::Retransmit {
        expires_at: Instant::from_millis(1000),
    };
    s
}

fn socket_time_wait(from_closing: bool) -> TestSocket {
    let mut s = socket_fin_wait_2();
    s.state = State::TimeWait;
    s.remote_seq_no = REMOTE_SEQ + 1 + 1;
    if from_closing {
        s.remote_last_ack = Some(REMOTE_SEQ + 1 + 1);
    }
    s.timer = Timer::Close {
        expires_at: Instant::from_secs(1) + Duration::from_millis(CLOSE_DELAY_MS),
    };
    s
}

fn socket_close_wait() -> TestSocket {
    let mut s = socket_established();
    s.state = State::CloseWait;
    s.remote_seq_no = REMOTE_SEQ + 1 + 1;
    s.remote_last_ack = Some(REMOTE_SEQ + 1 + 1);
    s
}

fn socket_last_ack() -> TestSocket {
    let mut s = socket_close_wait();
    s.state = State::LastAck;
    s
}

fn socket_recved() -> TestSocket {
    let mut s = socket_established();
    assert_eq!(
        send(&mut s, Instant::from_millis(0), &TcpRepr {
            seq_number: REMOTE_SEQ + 1,
            ack_number: Some(LOCAL_SEQ + 1),
            payload: &b"abcdef"[..],
            ..SEND_TEMPL
        }),
        None
    );
    recv_is(&mut s, 0, Ok(TcpRepr {
        seq_number: LOCAL_SEQ + 1,
        ack_number: Some(REMOTE_SEQ + 1 + 6),
        window_len: 58,
        ..RECV_TEMPL
    }));
    recv_nothing(&mut s, Instant::from_millis(0));
    s
}

// =========================================================================================//
// Tests for the CLOSED state.
// =========================================================================================//
#[test]
fn test_closed_reject() {
    let s = socket();
    assert_eq!(s.state, State::Closed);

    let tcp_repr = TcpRepr {
        control: TcpControl::Syn,
        ..SEND_TEMPL
    };
    assert!(
        !s.sockets
            .get(0)
            .accepts(&REMOTE_ADDR.into(), &LOCAL_ADDR.into(), &tcp_repr)
    );
}

#[test]
fn test_closed_close() {
    let mut s = socket();
    s.view().close();
    assert_eq!(s.state, State::Closed);
}

// =========================================================================================//
// Tests for listeners.
// =========================================================================================//

/// A stack with a listener on `LOCAL_PORT` (any address).
fn listener_stack() -> (Stack<'static>, TcpListenerHandle) {
    let mut stack = test_stack();
    let h = stack.add_tcp_listener().unwrap();
    stack.tcp_listener(h).listen(LOCAL_PORT.into()).unwrap();
    (stack, h)
}

/// Offer a segment from `REMOTE_END` to `LOCAL_END` to the stack's
/// listeners the way `process_tcp` does, returning whether it was consumed.
fn listener_deliver(stack: &mut Stack, repr: &TcpRepr) -> bool {
    listener_deliver_to(stack, LOCAL_ADDR, repr)
}

/// Like [`listener_deliver`], with an explicit destination address.
fn listener_deliver_to(stack: &mut Stack, dst_addr: Ipv4Address, repr: &TcpRepr) -> bool {
    process_listeners(
        &mut stack.listeners,
        &IpAddress::from(REMOTE_ADDR),
        &IpAddress::from(dst_addr),
        repr,
    )
}

fn syn_repr() -> TcpRepr<'static> {
    TcpRepr {
        control: TcpControl::Syn,
        seq_number: REMOTE_SEQ,
        ack_number: None,
        ..SEND_TEMPL
    }
}

#[test]
fn test_listener_listen_validation() {
    let mut stack = test_stack();
    let h1 = stack.add_tcp_listener().unwrap();
    let h2 = stack.add_tcp_listener().unwrap();

    assert_eq!(stack.tcp_listener(h1).listen(0.into()), Err(ListenError::Unaddressable));
    assert_eq!(stack.tcp_listener(h1).listen(80.into()), Ok(()));
    assert!(stack.tcp_listener(h1).is_open());
    // Re-listening on the same endpoint is a no-op...
    assert_eq!(stack.tcp_listener(h1).listen(80.into()), Ok(()));
    // ...but a different one is an error.
    assert_eq!(stack.tcp_listener(h1).listen(81.into()), Err(ListenError::InvalidState));

    // An identical sibling bind is rejected. The same port with a
    // different (more specific) address is fine, the most specific match
    // wins.
    assert_eq!(stack.tcp_listener(h2).listen(80.into()), Err(ListenError::InUse));
    assert_eq!(stack.tcp_listener(h2).listen((LOCAL_ADDR, 80).into()), Ok(()));

    // Free a slot first: without `alloc` the listener slab is small.
    stack.remove_tcp_listener(h1);
    let h3 = stack.add_tcp_listener().unwrap();
    assert_eq!(stack.tcp_listener(h3).listen((LOCAL_ADDR, 80).into()), Err(ListenError::InUse));
    assert_eq!(stack.tcp_listener(h3).listen(81.into()), Ok(()));
}

#[test]
fn test_listener_syn_and_accept() {
    let (mut stack, h) = listener_stack();

    // A SYN is recorded in the accept queue, nothing is transmitted.
    assert!(!stack.tcp_listener(h).can_accept());
    assert!(listener_deliver(&mut stack, &syn_repr()));
    assert!(stack.tcp_listener(h).can_accept());

    // Accept allocates the actual socket, in SYN-RECEIVED.
    let sh = stack
        .tcp_listener(h)
        .accept_with_bufs(buffer(64), buffer(64))
        .unwrap();
    assert!(!stack.tcp_listener(h).can_accept());
    assert!(
        stack
            .tcp_listener(h)
            .accept_with_bufs(buffer(64), buffer(64))
            .is_none()
    );
    assert_eq!(stack.tcp_socket(sh).state(), State::SynReceived);
    assert_eq!(stack.tcp_socket(sh).local_endpoint(), Some(LOCAL_END));
    assert_eq!(stack.tcp_socket(sh).remote_endpoint(), Some(REMOTE_END));

    // The accepted socket is exactly a SYN-RECEIVED socket: it sends the
    // SYN|ACK, advertising its actual receive window, and completes the
    // handshake like any other socket.
    let mut s = accepted(stack, sh);
    sanity(&s, &socket_syn_received());
    recv_is(&mut s, 0, Ok(TcpRepr {
        control: TcpControl::Syn,
        seq_number: LOCAL_SEQ,
        ack_number: Some(REMOTE_SEQ + 1),
        max_seg_size: Some(BASE_MSS),
        ..RECV_TEMPL
    }));
    recv_nothing(&mut s, Instant::from_millis(0));
    assert_eq!(
        send(&mut s, Instant::from_millis(0), &TcpRepr {
            seq_number: REMOTE_SEQ + 1,
            ack_number: Some(LOCAL_SEQ + 1),
            ..SEND_TEMPL
        }),
        None
    );
    sanity(&s, &socket_established());
}

#[test]
fn test_listener_accept_with_socket() {
    let (mut stack, h) = listener_stack();
    let sh = add_socket(&mut stack);

    // Nothing queued yet.
    assert_eq!(
        stack.tcp_listener(h).accept_with_socket(sh),
        Err(AcceptError::Exhausted)
    );

    // The queued SYN is accepted into the existing socket, which keeps its
    // handle.
    assert!(listener_deliver(&mut stack, &syn_repr()));
    assert_eq!(stack.tcp_listener(h).accept_with_socket(sh), Ok(()));
    assert!(!stack.tcp_listener(h).can_accept());
    assert_eq!(stack.tcp_socket(sh).state(), State::SynReceived);
    assert_eq!(stack.tcp_socket(sh).local_endpoint(), Some(LOCAL_END));
    assert_eq!(stack.tcp_socket(sh).remote_endpoint(), Some(REMOTE_END));

    // The socket is in use now: the next attempt is rejected and stays queued.
    assert!(listener_deliver(
        &mut stack,
        &TcpRepr {
            src_port: REMOTE_PORT + 1,
            ..syn_repr()
        }
    ));
    assert_eq!(
        stack.tcp_listener(h).accept_with_socket(sh),
        Err(AcceptError::InvalidState)
    );
    assert!(stack.tcp_listener(h).can_accept());

    // Once the connection is over, the same socket serves the next one,
    // with the previous connection's state gone.
    assert_eq!(
        stack.tcp.get_mut(sh.index).tx_buffer.enqueue_slice(b"stale"),
        5
    );
    stack.tcp_socket(sh).abort();
    assert_eq!(stack.tcp_listener(h).accept_with_socket(sh), Ok(()));
    assert_eq!(stack.tcp_socket(sh).state(), State::SynReceived);
    assert_eq!(
        stack.tcp_socket(sh).remote_endpoint(),
        Some(IpEndpoint::new(REMOTE_ADDR.into(), REMOTE_PORT + 1))
    );
    assert!(stack.tcp.get(sh.index).tx_buffer.is_empty());
}

#[test]
fn test_listener_backlog_full_drops_syn() {
    let (mut stack, h) = listener_stack();

    // One more connection attempt than the backlog holds: the last SYN is
    // dropped, the others can all be accepted.
    for i in 0..TCP_LISTENER_BACKLOG + 1 {
        assert!(listener_deliver(
            &mut stack,
            &TcpRepr {
                src_port: REMOTE_PORT + i as u16,
                ..syn_repr()
            }
        ));
    }
    for _ in 0..TCP_LISTENER_BACKLOG {
        assert!(
            stack
                .tcp_listener(h)
                .accept_with_bufs(buffer(64), buffer(64))
                .is_some()
        );
    }
    assert!(
        stack
            .tcp_listener(h)
            .accept_with_bufs(buffer(64), buffer(64))
            .is_none()
    );
}

#[test]
fn test_listener_syn_dedup() {
    let (mut stack, h) = listener_stack();

    // A retransmitted SYN updates the queue entry in place rather than
    // queueing a duplicate...
    assert!(listener_deliver(&mut stack, &syn_repr()));
    assert!(listener_deliver(&mut stack, &syn_repr()));
    // ...and a new connection attempt reusing the same ports (a new ISN)
    // replaces the stale entry: the newest SYN wins.
    assert!(listener_deliver(
        &mut stack,
        &TcpRepr {
            seq_number: REMOTE_SEQ + 100,
            ..syn_repr()
        }
    ));

    let sh = stack
        .tcp_listener(h)
        .accept_with_bufs(buffer(64), buffer(64))
        .unwrap();
    assert!(
        stack
            .tcp_listener(h)
            .accept_with_bufs(buffer(64), buffer(64))
            .is_none()
    );
    assert_eq!(stack.tcp.get(sh.index).remote_seq_no, REMOTE_SEQ + 101);
}

#[test]
fn test_listener_rst_cancels_syn() {
    let (mut stack, h) = listener_stack();
    listener_deliver(&mut stack, &syn_repr());

    // An RST with the wrong sequence number is ignored (the only
    // acceptable one is exactly RCV.NXT)...
    assert!(!listener_deliver(
        &mut stack,
        &TcpRepr {
            control: TcpControl::Rst,
            seq_number: REMOTE_SEQ,
            ack_number: None,
            ..SEND_TEMPL
        }
    ));
    assert!(stack.tcp_listener(h).can_accept());

    // ...an exact RST removes the queued SYN.
    assert!(listener_deliver(
        &mut stack,
        &TcpRepr {
            control: TcpControl::Rst,
            seq_number: REMOTE_SEQ + 1,
            ack_number: None,
            ..SEND_TEMPL
        }
    ));
    assert!(!stack.tcp_listener(h).can_accept());
}

#[test]
fn test_listener_addr_filter() {
    // A listener bound to a specific address ignores SYNs to other
    // addresses.
    let mut stack = test_stack();
    let h = stack.add_tcp_listener().unwrap();
    stack.tcp_listener(h).listen((OTHER_ADDR, LOCAL_PORT).into()).unwrap();
    assert!(!listener_deliver(&mut stack, &syn_repr()));

    // Bound to the address the SYN targets, it records it.
    stack.tcp_listener(h).close();
    stack.tcp_listener(h).listen((LOCAL_ADDR, LOCAL_PORT).into()).unwrap();
    assert!(listener_deliver(&mut stack, &syn_repr()));
    assert!(stack.tcp_listener(h).can_accept());
}

#[test]
fn test_listener_priority() {
    // Among listeners on the same port, an exact local-address match beats
    // a wildcard one, regardless of creation order.
    let mut stack = test_stack();
    let h_any = stack.add_tcp_listener().unwrap();
    let h_addr = stack.add_tcp_listener().unwrap();
    stack.tcp_listener(h_any).listen(LOCAL_PORT.into()).unwrap();
    stack.tcp_listener(h_addr).listen((LOCAL_ADDR, LOCAL_PORT).into()).unwrap();

    // A SYN to the listened address goes to the specific listener...
    assert!(listener_deliver(&mut stack, &syn_repr()));
    assert!(stack.tcp_listener(h_addr).can_accept());
    assert!(!stack.tcp_listener(h_any).can_accept());

    // ...a SYN to any other address to the wildcard one.
    assert!(listener_deliver_to(&mut stack, OTHER_ADDR, &syn_repr()));
    assert!(stack.tcp_listener(h_any).can_accept());
}

#[test]
fn test_listener_syn_mss() {
    // A tiny MSS is clamped, and a zero MSS is treated as absent.
    for (sent, effective) in [
        (Some(10), MIN_REMOTE_MSS),
        (Some(0), DEFAULT_MSS),
        (None, DEFAULT_MSS),
        (Some(1000), 1000),
    ] {
        let (mut stack, h) = listener_stack();
        assert!(listener_deliver(
            &mut stack,
            &TcpRepr {
                max_seg_size: sent,
                ..syn_repr()
            }
        ));
        let sh = stack
            .tcp_listener(h)
            .accept_with_bufs(buffer(64), buffer(64))
            .unwrap();
        assert_eq!(stack.tcp.get(sh.index).remote_mss, effective);
    }
}

#[test]
fn test_listener_window_scaling() {
    // When the remote offers window scaling, the accepted socket's shift
    // comes from its actual rx buffer capacity, and the SYN|ACK advertises
    // it (with the unscaled real window).
    for (buffer_size, shift) in [(64, 0), (65535, 0), (65536, 1), (1048576, 5)] {
        let (mut stack, h) = listener_stack();
        assert!(listener_deliver(
            &mut stack,
            &TcpRepr {
                window_scale: Some(7),
                ..syn_repr()
            }
        ));
        let sh = stack
            .tcp_listener(h)
            .accept_with_bufs(buffer(buffer_size), buffer(64))
            .unwrap();
        assert_eq!(stack.tcp.get(sh.index).remote_win_scale, Some(7));
        assert_eq!(stack.tcp.get(sh.index).remote_win_shift, shift);

        let mut s = accepted(stack, sh);
        recv_is(&mut s, 0, Ok(TcpRepr {
            control: TcpControl::Syn,
            seq_number: LOCAL_SEQ,
            ack_number: Some(REMOTE_SEQ + 1),
            max_seg_size: Some(BASE_MSS),
            window_scale: Some(shift),
            window_len: u16::try_from(buffer_size).unwrap_or(u16::MAX),
            ..RECV_TEMPL
        }));
        recv_nothing(&mut s, Instant::from_millis(0));
    }

    // Without an offer from the remote, scaling is off entirely.
    let (mut stack, h) = listener_stack();
    assert!(listener_deliver(&mut stack, &syn_repr()));
    let sh = stack
        .tcp_listener(h)
        .accept_with_bufs(buffer(65536), buffer(64))
        .unwrap();
    assert_eq!(stack.tcp.get(sh.index).remote_win_scale, None);
    assert_eq!(stack.tcp.get(sh.index).remote_win_shift, 0);
    let mut s = accepted(stack, sh);
    recv_is(&mut s, 0, Ok(TcpRepr {
        control: TcpControl::Syn,
        seq_number: LOCAL_SEQ,
        ack_number: Some(REMOTE_SEQ + 1),
        max_seg_size: Some(BASE_MSS),
        window_scale: None,
        window_len: u16::MAX,
        ..RECV_TEMPL
    }));
    recv_nothing(&mut s, Instant::from_millis(0));
}

#[test]
fn test_listener_close_drops_syns() {
    let (mut stack, h) = listener_stack();
    listener_deliver(&mut stack, &syn_repr());
    assert!(stack.tcp_listener(h).can_accept());

    stack.tcp_listener(h).close();
    assert!(!stack.tcp_listener(h).is_open());
    assert!(!stack.tcp_listener(h).can_accept());
    assert!(!listener_deliver(&mut stack, &syn_repr()));
}

// =========================================================================================//
// Tests for the SYN-RECEIVED state.
// =========================================================================================//

#[test]
fn test_syn_received_ack() {
    let mut s = socket_syn_received();
    recv_is(&mut s, 0, Ok(TcpRepr {
        control: TcpControl::Syn,
        seq_number: LOCAL_SEQ,
        ack_number: Some(REMOTE_SEQ + 1),
        max_seg_size: Some(BASE_MSS),
        ..RECV_TEMPL
    }));
    recv_nothing(&mut s, Instant::from_millis(0));
    assert_eq!(
        send(&mut s, Instant::from_millis(0), &TcpRepr {
            seq_number: REMOTE_SEQ + 1,
            ack_number: Some(LOCAL_SEQ + 1),
            ..SEND_TEMPL
        }),
        None
    );
    assert_eq!(s.state, State::Established);
    sanity(&s, &socket_established());
}

#[test]
fn test_syn_received_ack_too_low() {
    let mut s = socket_syn_received();
    recv_is(&mut s, 0, Ok(TcpRepr {
        control: TcpControl::Syn,
        seq_number: LOCAL_SEQ,
        ack_number: Some(REMOTE_SEQ + 1),
        max_seg_size: Some(BASE_MSS),
        ..RECV_TEMPL
    }));
    recv_nothing(&mut s, Instant::from_millis(0));
    assert_eq!(
        send(&mut s, Instant::from_millis(0), &TcpRepr {
            seq_number: REMOTE_SEQ + 1,
            ack_number: Some(LOCAL_SEQ), // wrong
            ..SEND_TEMPL
        }),
        Some(TcpRepr {
            control: TcpControl::Rst,
            seq_number: LOCAL_SEQ,
            ack_number: None,
            window_len: 0,
            ..RECV_TEMPL
        })
    );
    assert_eq!(s.state, State::SynReceived);
}

#[test]
fn test_syn_received_ack_too_high() {
    let mut s = socket_syn_received();
    recv_is(&mut s, 0, Ok(TcpRepr {
        control: TcpControl::Syn,
        seq_number: LOCAL_SEQ,
        ack_number: Some(REMOTE_SEQ + 1),
        max_seg_size: Some(BASE_MSS),
        ..RECV_TEMPL
    }));
    recv_nothing(&mut s, Instant::from_millis(0));
    assert_eq!(
        send(&mut s, Instant::from_millis(0), &TcpRepr {
            seq_number: REMOTE_SEQ + 1,
            ack_number: Some(LOCAL_SEQ + 2), // wrong
            ..SEND_TEMPL
        }),
        Some(TcpRepr {
            control: TcpControl::Rst,
            seq_number: LOCAL_SEQ + 2,
            ack_number: None,
            window_len: 0,
            ..RECV_TEMPL
        })
    );
    assert_eq!(s.state, State::SynReceived);
}

#[test]
fn test_syn_received_fin() {
    let mut s = socket_syn_received();
    recv_is(&mut s, 0, Ok(TcpRepr {
        control: TcpControl::Syn,
        seq_number: LOCAL_SEQ,
        ack_number: Some(REMOTE_SEQ + 1),
        max_seg_size: Some(BASE_MSS),
        ..RECV_TEMPL
    }));
    recv_nothing(&mut s, Instant::from_millis(0));
    assert_eq!(
        send(&mut s, Instant::from_millis(0), &TcpRepr {
            control: TcpControl::Fin,
            seq_number: REMOTE_SEQ + 1,
            ack_number: Some(LOCAL_SEQ + 1),
            payload: &b"abcdef"[..],
            ..SEND_TEMPL
        }),
        None
    );
    recv_is(&mut s, 0, Ok(TcpRepr {
        seq_number: LOCAL_SEQ + 1,
        ack_number: Some(REMOTE_SEQ + 1 + 6 + 1),
        window_len: 58,
        ..RECV_TEMPL
    }));
    recv_nothing(&mut s, Instant::from_millis(0));
    assert_eq!(s.state, State::CloseWait);

    let mut s2 = socket_close_wait();
    s2.remote_last_ack = Some(REMOTE_SEQ + 1 + 6 + 1);
    s2.remote_last_win = 58;
    sanity(&s, &s2);
}

#[test]
fn test_syn_received_rst() {
    let mut s = socket_syn_received();
    recv_is(&mut s, 0, Ok(TcpRepr {
        control: TcpControl::Syn,
        seq_number: LOCAL_SEQ,
        ack_number: Some(REMOTE_SEQ + 1),
        max_seg_size: Some(BASE_MSS),
        ..RECV_TEMPL
    }));
    recv_nothing(&mut s, Instant::from_millis(0));
    assert_eq!(
        send(&mut s, Instant::from_millis(0), &TcpRepr {
            control: TcpControl::Rst,
            seq_number: REMOTE_SEQ + 1,
            ack_number: Some(LOCAL_SEQ),
            ..SEND_TEMPL
        }),
        None
    );
    assert_eq!(s.state, State::Closed);
    assert_eq!(s.tuple, None);
}

#[test]
fn test_syn_received_close() {
    let mut s = socket_syn_received();
    s.view().close();
    assert_eq!(s.state, State::FinWait1);
}

// =========================================================================================//
// Tests for the SYN-SENT state.
// =========================================================================================//

#[test]
fn test_connect_validation() {
    let mut s = socket();
    assert_eq!(
        s.view().connect((ANY_ADDR, 0).into(), LOCAL_END.into()),
        Err(ConnectError::Unaddressable)
    );
    // An unspecified local address of the other IP version is not a wildcard,
    // it is a contradiction.
    assert_eq!(
        s.view().connect(REMOTE_END, (OTHER_VERSION_ANY, LOCAL_PORT).into()),
        Err(ConnectError::Unaddressable)
    );
    s.view()
        .connect(REMOTE_END, LOCAL_END.into())
        .expect("Connect failed with valid parameters");
    assert_eq!(s.tuple, Some(TUPLE));

    // An unspecified local address of the connection's own version means
    // "select it automatically", like leaving it out entirely.
    let mut s = socket();
    s.view()
        .connect(REMOTE_END, (ANY_ADDR, LOCAL_PORT).into())
        .expect("Connect failed with auto-selected local address");
    assert_eq!(s.tuple, Some(TUPLE));
}

#[test]
fn test_connect() {
    let mut s = socket();
    s.local_seq_no = LOCAL_SEQ;
    s.view().connect(REMOTE_END, LOCAL_END.port.into()).unwrap();
    pin_initial_numbers(&mut s);
    assert_eq!(s.tuple, Some(TUPLE));
    recv_is(&mut s, 0, Ok(TcpRepr {
        control: TcpControl::Syn,
        seq_number: LOCAL_SEQ,
        ack_number: None,
        max_seg_size: Some(BASE_MSS),
        window_scale: Some(0),
        sack_permitted: true,
        timestamp: Some(TcpTimestampRepr::new(0, 0)),
        ..RECV_TEMPL
    }));
    recv_nothing(&mut s, Instant::from_millis(0));
    assert_eq!(
        send(&mut s, Instant::from_millis(0), &TcpRepr {
            control: TcpControl::Syn,
            seq_number: REMOTE_SEQ,
            ack_number: Some(LOCAL_SEQ + 1),
            max_seg_size: Some(BASE_MSS - 80),
            window_scale: Some(0),
            ..SEND_TEMPL
        }),
        None
    );
    assert_eq!(s.tuple, Some(TUPLE));
}

#[test]
fn test_connect_synack_tiny_mss_is_clamped() {
    let mut s = socket();
    s.local_seq_no = LOCAL_SEQ;
    s.view().connect(REMOTE_END, LOCAL_END.port.into()).unwrap();
    pin_initial_numbers(&mut s);
    recv_is(&mut s, 0, Ok(TcpRepr {
        control: TcpControl::Syn,
        seq_number: LOCAL_SEQ,
        ack_number: None,
        max_seg_size: Some(BASE_MSS),
        window_scale: Some(0),
        sack_permitted: true,
        timestamp: Some(TcpTimestampRepr::new(0, 0)),
        ..RECV_TEMPL
    }));
    recv_nothing(&mut s, Instant::from_millis(0));
    assert_eq!(
        send(&mut s, Instant::from_millis(0), &TcpRepr {
            control: TcpControl::Syn,
            seq_number: REMOTE_SEQ,
            ack_number: Some(LOCAL_SEQ + 1),
            max_seg_size: Some(10),
            window_scale: Some(0),
            ..SEND_TEMPL
        }),
        None
    );
    assert_eq!(s.state, State::Established);
    assert_eq!(s.remote_mss, MIN_REMOTE_MSS);
}

#[test]
fn test_connect_synack_zero_mss_is_ignored() {
    let mut s = socket();
    s.local_seq_no = LOCAL_SEQ;
    s.view().connect(REMOTE_END, LOCAL_END.port.into()).unwrap();
    pin_initial_numbers(&mut s);
    recv_is(&mut s, 0, Ok(TcpRepr {
        control: TcpControl::Syn,
        seq_number: LOCAL_SEQ,
        ack_number: None,
        max_seg_size: Some(BASE_MSS),
        window_scale: Some(0),
        sack_permitted: true,
        timestamp: Some(TcpTimestampRepr::new(0, 0)),
        ..RECV_TEMPL
    }));
    recv_nothing(&mut s, Instant::from_millis(0));
    assert_eq!(
        send(&mut s, Instant::from_millis(0), &TcpRepr {
            control: TcpControl::Syn,
            seq_number: REMOTE_SEQ,
            ack_number: Some(LOCAL_SEQ + 1),
            max_seg_size: Some(0),
            window_scale: Some(0),
            ..SEND_TEMPL
        }),
        None
    );
    assert_eq!(s.state, State::Established);
    assert_eq!(s.remote_mss, DEFAULT_MSS);
}

/// RFC 2018: If the data receiver has not received a SACK-Permitted option
/// for a given connection, it MUST NOT send SACK options on that connection.
#[test]
fn test_connect_sack_not_offered_by_remote() {
    let mut s = socket_syn_sent();
    recv_is(&mut s, 0, Ok(TcpRepr {
        control: TcpControl::Syn,
        seq_number: LOCAL_SEQ,
        ack_number: None,
        max_seg_size: Some(BASE_MSS),
        window_scale: Some(0),
        sack_permitted: true,
        ..RECV_TEMPL
    }));
    recv_nothing(&mut s, Instant::from_millis(0));

    // Ensure the remote rejecting SACK results in SACK options not being sent.
    assert_eq!(
        send(&mut s, Instant::from_millis(0), &TcpRepr {
            control: TcpControl::Syn,
            seq_number: REMOTE_SEQ,
            ack_number: Some(LOCAL_SEQ + 1),
            max_seg_size: Some(BASE_MSS - 80),
            window_scale: Some(0),
            sack_permitted: false,
            ..SEND_TEMPL
        }),
        None
    );

    assert!(!s.remote_has_sack);

    recv_is(&mut s, 0, Ok(TcpRepr {
        seq_number: LOCAL_SEQ + 1,
        ack_number: Some(REMOTE_SEQ + 1),
        ..RECV_TEMPL
    }));
    recv_nothing(&mut s, Instant::from_millis(0));

    assert_eq!(s.state, State::Established);
    sack_ranges_are_never_emitted(&mut s);
}

/// RFC 2018: If the data receiver has not received a SACK-Permitted option
/// for a given connection, it MUST NOT send SACK options on that connection.
#[test]
fn test_syn_received_sack_not_offered_by_remote() {
    let mut s = socket_syn_received();

    // Ensure the remote not sending SACK results in SACK options not being sent.
    assert!(!s.remote_has_sack);
    recv_is(&mut s, 0, Ok(TcpRepr {
        control: TcpControl::Syn,
        seq_number: LOCAL_SEQ,
        ack_number: Some(REMOTE_SEQ + 1),
        max_seg_size: Some(BASE_MSS),
        sack_permitted: false,
        ..RECV_TEMPL
    }));
    recv_nothing(&mut s, Instant::from_millis(0));

    assert_eq!(
        send(&mut s, Instant::from_millis(0), &TcpRepr {
            seq_number: REMOTE_SEQ + 1,
            ack_number: Some(LOCAL_SEQ + 1),
            ..SEND_TEMPL
        }),
        None
    );
    assert_eq!(s.state, State::Established);
    sack_ranges_are_never_emitted(&mut s);
}

// Ensure that SACK ranges are not attached to ACKs after receiving out of
// order segments. These segment should exist within the assembler however.
fn sack_ranges_are_never_emitted(mut s: &mut TestSocket) {
    for offset in [6, 18] {
        assert_eq!(
            send(&mut s, Instant::from_millis(0), &TcpRepr {
                seq_number: REMOTE_SEQ + 1 + offset,
                ack_number: Some(LOCAL_SEQ + 1),
                payload: b"abcdef",
                ..SEND_TEMPL
            }),
            Some(TcpRepr {
                seq_number: LOCAL_SEQ + 1,
                ack_number: Some(REMOTE_SEQ + 1),
                sack_ranges: [None, None, None],
                ..RECV_TEMPL
            })
        );
    }

    // No option space is reserved, so the MSS is not reduced.
    assert_eq!(s.sack_range_count(), 0);

    // The dispatch path is gated by the same conjunction.
    s.view().send_slice(b"x").unwrap();
    recv_is(&mut s, 0, Ok(TcpRepr {
        seq_number: LOCAL_SEQ + 1,
        ack_number: Some(REMOTE_SEQ + 1),
        payload: b"x",
        sack_ranges: [None, None, None],
        ..RECV_TEMPL
    }));
    recv_nothing(&mut s, Instant::from_millis(0));

    assert_eq!(s.assembler.count(), 2);
}

#[test]
fn test_connect_unspecified_local() {
    let mut s = socket();
    assert_eq!(s.view().connect(REMOTE_END, 80.into()), Ok(()));
}

#[test]
fn test_connect_specified_local() {
    let mut s = socket();
    assert_eq!(s.view().connect(REMOTE_END, (REMOTE_ADDR, 80).into()), Ok(()));
}

#[test]
fn test_connect_twice() {
    let mut s = socket();
    assert_eq!(s.view().connect(REMOTE_END, 80.into()), Ok(()));
    assert_eq!(s.view().connect(REMOTE_END, 80.into()), Err(ConnectError::InvalidState));
}

#[test]
fn test_connect_ephemeral_port() {
    let mut stack = Stack::new(0x1234_5678_dead_beef, packet_allocator());
    let h1 = add_socket(&mut stack);
    let h2 = add_socket(&mut stack);

    // Local port 0 allocates an ephemeral port. (The explicit local address
    // avoids needing an interface for source address selection.)
    stack.tcp_socket(h1).connect(REMOTE_END, (LOCAL_ADDR, 0).into()).unwrap();
    let p1 = stack.tcp_socket(h1).local_endpoint().unwrap().port;
    assert!(p1 >= EPHEMERAL_PORT_MIN);

    // A second connection to the same remote would duplicate the 4-tuple,
    // so the allocation skips the port the first socket claimed.
    stack.tcp_socket(h2).connect(REMOTE_END, (LOCAL_ADDR, 0).into()).unwrap();
    let p2 = stack.tcp_socket(h2).local_endpoint().unwrap().port;
    assert!(p2 >= EPHEMERAL_PORT_MIN);
    assert_ne!(p1, p2);
}

#[test]
fn test_connect_tuple_conflicts() {
    const OTHER_REMOTE_END: IpEndpoint = IpEndpoint {
        addr: IpAddress::Ipv4(OTHER_ADDR),
        port: REMOTE_PORT,
    };

    let mut stack = Stack::new(0x1234_5678_dead_beef, packet_allocator());
    let h1 = add_socket(&mut stack);
    let h2 = add_socket(&mut stack);
    let h3 = add_socket(&mut stack);
    let h4 = add_socket(&mut stack);

    stack
        .tcp_socket(h1)
        .connect(REMOTE_END, (LOCAL_ADDR, LOCAL_PORT).into())
        .unwrap();

    // Only the full 4-tuple must be unique: the same local endpoint may
    // connect to a different remote...
    stack
        .tcp_socket(h2)
        .connect(OTHER_REMOTE_END, (LOCAL_ADDR, LOCAL_PORT).into())
        .unwrap();
    // ...and a different local address may connect to the same remote.
    stack
        .tcp_socket(h3)
        .connect(REMOTE_END, (OTHER_ADDR, LOCAL_PORT).into())
        .unwrap();

    // The identical 4-tuple is rejected.
    assert_eq!(
        stack.tcp_socket(h4).connect(REMOTE_END, (LOCAL_ADDR, LOCAL_PORT).into()),
        Err(ConnectError::InUse)
    );
}

#[test]
fn test_syn_sent_sanity() {
    let mut s = socket();
    s.local_seq_no = LOCAL_SEQ;
    s.view().connect(REMOTE_END, LOCAL_END.into()).unwrap();
    pin_initial_numbers(&mut s);
    sanity(&s, &socket_syn_sent());
}

#[test]
fn test_syn_sent_syn_ack() {
    let mut s = socket_syn_sent();
    recv_is(&mut s, 0, Ok(TcpRepr {
        control: TcpControl::Syn,
        seq_number: LOCAL_SEQ,
        ack_number: None,
        max_seg_size: Some(BASE_MSS),
        window_scale: Some(0),
        sack_permitted: true,
        ..RECV_TEMPL
    }));
    recv_nothing(&mut s, Instant::from_millis(0));
    assert_eq!(
        send(&mut s, Instant::from_millis(0), &TcpRepr {
            control: TcpControl::Syn,
            seq_number: REMOTE_SEQ,
            ack_number: Some(LOCAL_SEQ + 1),
            max_seg_size: Some(BASE_MSS - 80),
            window_scale: Some(0),
            ..SEND_TEMPL
        }),
        None
    );
    recv_is(&mut s, 0, Ok(TcpRepr {
        seq_number: LOCAL_SEQ + 1,
        ack_number: Some(REMOTE_SEQ + 1),
        ..RECV_TEMPL
    }));
    recv_nothing(&mut s, Instant::from_millis(0));
    recv_nothing(&mut s, Instant::from_millis(1000));
    assert_eq!(s.state, State::Established);
    sanity(&s, &socket_established());
}

#[test]
fn test_syn_sent_syn_received_ack() {
    let mut s = socket_syn_sent();
    recv_is(&mut s, 0, Ok(TcpRepr {
        control: TcpControl::Syn,
        seq_number: LOCAL_SEQ,
        ack_number: None,
        max_seg_size: Some(BASE_MSS),
        window_scale: Some(0),
        sack_permitted: true,
        ..RECV_TEMPL
    }));
    recv_nothing(&mut s, Instant::from_millis(0));

    // A SYN packet changes the SYN-SENT state to SYN-RECEIVED.
    assert_eq!(
        send(&mut s, Instant::from_millis(0), &TcpRepr {
            control: TcpControl::Syn,
            seq_number: REMOTE_SEQ,
            ack_number: None,
            max_seg_size: Some(BASE_MSS - 80),
            window_scale: Some(0),
            ..SEND_TEMPL
        }),
        None
    );
    assert_eq!(s.state, State::SynReceived);

    // The socket will then send a SYN|ACK packet.
    recv_is(&mut s, 0, Ok(TcpRepr {
        control: TcpControl::Syn,
        seq_number: LOCAL_SEQ,
        ack_number: Some(REMOTE_SEQ + 1),
        max_seg_size: Some(BASE_MSS),
        window_scale: Some(0),
        ..RECV_TEMPL
    }));
    recv_nothing(&mut s, Instant::from_millis(0));
    recv_nothing(&mut s, Instant::from_millis(0));

    // The socket may retransmit the SYN|ACK packet.
    recv_is(&mut s, 1001, Ok(TcpRepr {
        control: TcpControl::Syn,
        seq_number: LOCAL_SEQ,
        ack_number: Some(REMOTE_SEQ + 1),
        max_seg_size: Some(BASE_MSS),
        window_scale: Some(0),
        ..RECV_TEMPL
    }));

    // An ACK packet changes the SYN-RECEIVED state to ESTABLISHED.
    assert_eq!(
        send(&mut s, Instant::from_millis(0), &TcpRepr {
            control: TcpControl::Plain,
            seq_number: REMOTE_SEQ + 1,
            ack_number: Some(LOCAL_SEQ + 1),
            ..SEND_TEMPL
        }),
        None
    );
    assert_eq!(s.state, State::Established);
    sanity(&s, &socket_established());
}

#[test]
fn test_syn_sent_syn_ack_not_incremented() {
    let mut s = socket_syn_sent();
    recv_is(&mut s, 0, Ok(TcpRepr {
        control: TcpControl::Syn,
        seq_number: LOCAL_SEQ,
        ack_number: None,
        max_seg_size: Some(BASE_MSS),
        window_scale: Some(0),
        sack_permitted: true,
        ..RECV_TEMPL
    }));
    recv_nothing(&mut s, Instant::from_millis(0));
    assert_eq!(
        send(&mut s, Instant::from_millis(0), &TcpRepr {
            control: TcpControl::Syn,
            seq_number: REMOTE_SEQ,
            ack_number: Some(LOCAL_SEQ), // WRONG
            max_seg_size: Some(BASE_MSS - 80),
            window_scale: Some(0),
            ..SEND_TEMPL
        }),
        Some(TcpRepr {
            control: TcpControl::Rst,
            seq_number: LOCAL_SEQ,
            ack_number: None,
            window_len: 0,
            ..RECV_TEMPL
        })
    );
    assert_eq!(s.state, State::SynSent);
}

#[test]
fn test_syn_sent_syn_received_rst() {
    let mut s = socket_syn_sent();
    recv_is(&mut s, 0, Ok(TcpRepr {
        control: TcpControl::Syn,
        seq_number: LOCAL_SEQ,
        ack_number: None,
        max_seg_size: Some(BASE_MSS),
        window_scale: Some(0),
        sack_permitted: true,
        ..RECV_TEMPL
    }));
    recv_nothing(&mut s, Instant::from_millis(0));

    // A SYN packet changes the SYN-SENT state to SYN-RECEIVED.
    assert_eq!(
        send(&mut s, Instant::from_millis(0), &TcpRepr {
            control: TcpControl::Syn,
            seq_number: REMOTE_SEQ,
            ack_number: None,
            max_seg_size: Some(BASE_MSS - 80),
            window_scale: Some(0),
            ..SEND_TEMPL
        }),
        None
    );
    assert_eq!(s.state, State::SynReceived);

    // A RST packet changes the SYN-RECEIVED state to CLOSED.
    assert_eq!(
        send(&mut s, Instant::from_millis(0), &TcpRepr {
            control: TcpControl::Rst,
            seq_number: REMOTE_SEQ + 1,
            ack_number: Some(LOCAL_SEQ),
            ..SEND_TEMPL
        }),
        None
    );
    assert_eq!(s.state, State::Closed);
}

#[test]
fn test_syn_sent_rst() {
    let mut s = socket_syn_sent();
    assert_eq!(
        send(&mut s, Instant::from_millis(0), &TcpRepr {
            control: TcpControl::Rst,
            seq_number: REMOTE_SEQ,
            ack_number: Some(LOCAL_SEQ + 1),
            ..SEND_TEMPL
        }),
        None
    );
    assert_eq!(s.state, State::Closed);
}

#[test]
fn test_syn_sent_rst_no_ack() {
    let mut s = socket_syn_sent();
    assert_eq!(
        send(&mut s, Instant::from_millis(0), &TcpRepr {
            control: TcpControl::Rst,
            seq_number: REMOTE_SEQ,
            ack_number: None,
            ..SEND_TEMPL
        }),
        None
    );
    assert_eq!(s.state, State::SynSent);
}

#[test]
fn test_syn_sent_rst_bad_ack() {
    let mut s = socket_syn_sent();
    assert_eq!(
        send(&mut s, Instant::from_millis(0), &TcpRepr {
            control: TcpControl::Rst,
            seq_number: REMOTE_SEQ,
            ack_number: Some(TcpSeqNumber(1234)),
            ..SEND_TEMPL
        }),
        None
    );
    assert_eq!(s.state, State::SynSent);
}

#[test]
fn test_syn_sent_bad_ack() {
    let mut s = socket_syn_sent();
    recv_is(&mut s, 0, Ok(TcpRepr {
        control: TcpControl::Syn,
        seq_number: LOCAL_SEQ,
        ack_number: None,
        max_seg_size: Some(BASE_MSS),
        window_scale: Some(0),
        sack_permitted: true,
        ..RECV_TEMPL
    }));
    recv_nothing(&mut s, Instant::from_millis(0));
    assert_eq!(
        send(&mut s, Instant::from_millis(0), &TcpRepr {
            control: TcpControl::Plain, // Unexpected
            seq_number: REMOTE_SEQ,
            ack_number: Some(LOCAL_SEQ + 1), // Correct
            ..SEND_TEMPL
        }),
        None
    );

    // It should trigger no response and change no state
    recv_nothing(&mut s, Instant::from_millis(0));
    assert_eq!(s.state, State::SynSent);
}

#[test]
fn test_syn_sent_bad_ack_seq_1() {
    let mut s = socket_syn_sent();
    recv_is(&mut s, 0, Ok(TcpRepr {
        control: TcpControl::Syn,
        seq_number: LOCAL_SEQ,
        ack_number: None,
        max_seg_size: Some(BASE_MSS),
        window_scale: Some(0),
        sack_permitted: true,
        ..RECV_TEMPL
    }));
    recv_nothing(&mut s, Instant::from_millis(0));
    assert_eq!(
        send(&mut s, Instant::from_millis(0), &TcpRepr {
            control: TcpControl::Plain,
            seq_number: REMOTE_SEQ,
            ack_number: Some(LOCAL_SEQ), // WRONG
            ..SEND_TEMPL
        }),
        Some(TcpRepr {
            control: TcpControl::Rst,
            seq_number: LOCAL_SEQ, // matching the ack_number of the unexpected ack
            ack_number: None,
            window_len: 0,
            ..RECV_TEMPL
        })
    );

    // It should trigger a RST, and change no state
    assert_eq!(s.state, State::SynSent);
}

#[test]
fn test_syn_sent_bad_ack_seq_2() {
    let mut s = socket_syn_sent();
    recv_is(&mut s, 0, Ok(TcpRepr {
        control: TcpControl::Syn,
        seq_number: LOCAL_SEQ,
        ack_number: None,
        max_seg_size: Some(BASE_MSS),
        window_scale: Some(0),
        sack_permitted: true,
        ..RECV_TEMPL
    }));
    recv_nothing(&mut s, Instant::from_millis(0));
    assert_eq!(
        send(&mut s, Instant::from_millis(0), &TcpRepr {
            control: TcpControl::Plain,
            seq_number: REMOTE_SEQ,
            ack_number: Some(LOCAL_SEQ + 123456), // WRONG
            ..SEND_TEMPL
        }),
        Some(TcpRepr {
            control: TcpControl::Rst,
            seq_number: LOCAL_SEQ + 123456, // matching the ack_number of the unexpected ack
            ack_number: None,
            window_len: 0,
            ..RECV_TEMPL
        })
    );

    // It should trigger a RST, and change no state
    assert_eq!(s.state, State::SynSent);
}

#[test]
fn test_syn_sent_close() {
    let mut s = socket();
    s.view().close();
    assert_eq!(s.state, State::Closed);
}

#[test]
fn test_syn_sent_sack_option() {
    let mut s = socket_syn_sent();
    recv_is(&mut s, 0, Ok(TcpRepr {
        control: TcpControl::Syn,
        seq_number: LOCAL_SEQ,
        ack_number: None,
        max_seg_size: Some(BASE_MSS),
        window_scale: Some(0),
        sack_permitted: true,
        ..RECV_TEMPL
    }));
    recv_nothing(&mut s, Instant::from_millis(0));
    assert_eq!(
        send(&mut s, Instant::from_millis(0), &TcpRepr {
            control: TcpControl::Syn,
            seq_number: REMOTE_SEQ,
            ack_number: Some(LOCAL_SEQ + 1),
            max_seg_size: Some(BASE_MSS - 80),
            window_scale: Some(0),
            sack_permitted: true,
            ..SEND_TEMPL
        }),
        None
    );
    assert!(s.remote_has_sack);

    let mut s = socket_syn_sent();
    recv_is(&mut s, 0, Ok(TcpRepr {
        control: TcpControl::Syn,
        seq_number: LOCAL_SEQ,
        ack_number: None,
        max_seg_size: Some(BASE_MSS),
        window_scale: Some(0),
        sack_permitted: true,
        ..RECV_TEMPL
    }));
    recv_nothing(&mut s, Instant::from_millis(0));
    assert_eq!(
        send(&mut s, Instant::from_millis(0), &TcpRepr {
            control: TcpControl::Syn,
            seq_number: REMOTE_SEQ,
            ack_number: Some(LOCAL_SEQ + 1),
            max_seg_size: Some(BASE_MSS - 80),
            window_scale: Some(0),
            sack_permitted: false,
            ..SEND_TEMPL
        }),
        None
    );
    assert!(!s.remote_has_sack);
}

#[test]
fn test_syn_sent_win_scale_buffers() {
    for (buffer_size, shift_amt) in &[
        (64, 0),
        (128, 0),
        (1024, 0),
        (65535, 0),
        (65536, 1),
        (65537, 1),
        (131071, 1),
        (131072, 2),
        (524287, 3),
        (524288, 4),
        (655350, 4),
        (1048576, 5),
    ] {
        let mut s = socket_with_buffer_sizes(64, *buffer_size);
        s.local_seq_no = LOCAL_SEQ;
        assert_eq!(s.remote_win_shift, *shift_amt);
        s.view().connect(REMOTE_END, LOCAL_END.into()).unwrap();
        pin_initial_numbers(&mut s);
        recv_is(&mut s, 0, Ok(TcpRepr {
            control: TcpControl::Syn,
            seq_number: LOCAL_SEQ,
            ack_number: None,
            max_seg_size: Some(BASE_MSS),
            window_scale: Some(*shift_amt),
            window_len: u16::try_from(*buffer_size).unwrap_or(u16::MAX),
            sack_permitted: true,
            timestamp: Some(TcpTimestampRepr::new(0, 0)),
            ..RECV_TEMPL
        }));
        recv_nothing(&mut s, Instant::from_millis(0));
    }
}

#[test]
fn test_syn_sent_syn_ack_no_window_scaling() {
    let mut s = socket_syn_sent_with_buffer_sizes(1048576, 1048576);
    recv_is(&mut s, 0, Ok(TcpRepr {
        control: TcpControl::Syn,
        seq_number: LOCAL_SEQ,
        ack_number: None,
        max_seg_size: Some(BASE_MSS),
        // scaling does NOT apply to the window value in SYN packets
        window_len: 65535,
        window_scale: Some(5),
        sack_permitted: true,
        ..RECV_TEMPL
    }));
    recv_nothing(&mut s, Instant::from_millis(0));
    assert_eq!(s.remote_win_shift, 5);
    assert_eq!(
        send(&mut s, Instant::from_millis(0), &TcpRepr {
            control: TcpControl::Syn,
            seq_number: REMOTE_SEQ,
            ack_number: Some(LOCAL_SEQ + 1),
            max_seg_size: Some(BASE_MSS - 80),
            window_scale: None,
            window_len: 42,
            ..SEND_TEMPL
        }),
        None
    );
    assert_eq!(s.state, State::Established);
    assert_eq!(s.remote_win_shift, 0);
    assert_eq!(s.remote_win_scale, None);
    assert_eq!(s.remote_win_len, 42);
}

#[test]
fn test_syn_sent_syn_ack_window_scaling() {
    let mut s = socket_syn_sent();
    recv_is(&mut s, 0, Ok(TcpRepr {
        control: TcpControl::Syn,
        seq_number: LOCAL_SEQ,
        ack_number: None,
        max_seg_size: Some(BASE_MSS),
        window_scale: Some(0),
        sack_permitted: true,
        ..RECV_TEMPL
    }));
    recv_nothing(&mut s, Instant::from_millis(0));
    assert_eq!(
        send(&mut s, Instant::from_millis(0), &TcpRepr {
            control: TcpControl::Syn,
            seq_number: REMOTE_SEQ,
            ack_number: Some(LOCAL_SEQ + 1),
            max_seg_size: Some(BASE_MSS - 80),
            window_scale: Some(7),
            window_len: 42,
            ..SEND_TEMPL
        }),
        None
    );
    assert_eq!(s.state, State::Established);
    assert_eq!(s.remote_win_scale, Some(7));
    // scaling does NOT apply to the window value in SYN packets
    assert_eq!(s.remote_win_len, 42);
}

// =========================================================================================//
// Tests for the ESTABLISHED state.
// =========================================================================================//

#[test]
fn test_established_recv() {
    let mut s = socket_established();
    assert_eq!(
        send(&mut s, Instant::from_millis(0), &TcpRepr {
            seq_number: REMOTE_SEQ + 1,
            ack_number: Some(LOCAL_SEQ + 1),
            payload: &b"abcdef"[..],
            ..SEND_TEMPL
        }),
        None
    );
    recv_is(&mut s, 0, Ok(TcpRepr {
        seq_number: LOCAL_SEQ + 1,
        ack_number: Some(REMOTE_SEQ + 1 + 6),
        window_len: 58,
        ..RECV_TEMPL
    }));
    recv_nothing(&mut s, Instant::from_millis(0));
    assert_eq!(s.rx_buffer.dequeue_many(6), &b"abcdef"[..]);
}

#[test]
fn test_peek_slice() {
    const BUF_SIZE: usize = 10;

    let send_buf = b"0123456";

    let mut s = socket_established_with_buffer_sizes(BUF_SIZE, BUF_SIZE);

    // Populate the recv buffer
    assert_eq!(
        send(&mut s, Instant::from_millis(0), &TcpRepr {
            seq_number: REMOTE_SEQ + 1,
            ack_number: Some(LOCAL_SEQ + 1),
            payload: &send_buf[..],
            ..SEND_TEMPL
        }),
        None
    );

    // Peek into the recv buffer
    let mut peeked_buf = [0u8; BUF_SIZE];
    let actually_peeked = s.view().peek_slice(&mut peeked_buf[..]).unwrap();
    let mut recv_buf = [0u8; BUF_SIZE];
    let actually_recvd = s.view().recv_slice(&mut recv_buf[..]).unwrap();
    assert_eq!(&mut peeked_buf[..actually_peeked], &mut recv_buf[..actually_recvd]);
}

#[test]
fn test_peek_slice_buffer_wrap() {
    const BUF_SIZE: usize = 10;

    let send_buf = b"0123456789";

    let mut s = socket_established_with_buffer_sizes(BUF_SIZE, BUF_SIZE);

    let _ = s.rx_buffer.enqueue_slice(&send_buf[..8]);
    let _ = s.rx_buffer.dequeue_many(6);
    let _ = s.rx_buffer.enqueue_slice(&send_buf[..5]);

    let mut peeked_buf = [0u8; BUF_SIZE];
    let actually_peeked = s.view().peek_slice(&mut peeked_buf[..]).unwrap();
    let mut recv_buf = [0u8; BUF_SIZE];
    let actually_recvd = s.view().recv_slice(&mut recv_buf[..]).unwrap();
    assert_eq!(&mut peeked_buf[..actually_peeked], &mut recv_buf[..actually_recvd]);
}

/// Case:
/// The remote sequence space straddles the u32 wrap and two islands
/// are created. One straddling the boundary and another past it.
///
/// Outcome:
/// The SACK ranges are reported correctly with no overflow.
#[test]
fn test_established_sack_no_overflow_on_near_max_seqnumber() {
    let mut s = socket_established();
    s.remote_has_sack = true;
    s.remote_seq_no = TcpSeqNumber(-4);
    s.remote_last_ack = Some(TcpSeqNumber(-4));

    // Create first island - [-2..2) - and SACK reports it
    assert_eq!(
        send(&mut s, Instant::from_millis(0), &TcpRepr {
            seq_number: TcpSeqNumber(-2),
            ack_number: Some(LOCAL_SEQ + 1),
            payload: &b"AAAA"[..],
            ..SEND_TEMPL
        }),
        Some(TcpRepr {
            seq_number: LOCAL_SEQ + 1,
            ack_number: Some(TcpSeqNumber(-4)),
            window_len: 64,
            sack_ranges: [Some((u32::MAX - 1, 2)), None, None],
            ..RECV_TEMPL
        })
    );

    // Create second island - [6..10) - and SACK reports both
    assert_eq!(
        send(&mut s, Instant::from_millis(0), &TcpRepr {
            seq_number: TcpSeqNumber(6),
            ack_number: Some(LOCAL_SEQ + 1),
            payload: &b"BBBB"[..],
            ..SEND_TEMPL
        }),
        Some(TcpRepr {
            seq_number: LOCAL_SEQ + 1,
            ack_number: Some(TcpSeqNumber(-4)),
            window_len: 64,
            sack_ranges: [Some((6, 10)), Some((u32::MAX - 1, 2)), None],
            ..RECV_TEMPL
        })
    );
}

#[test]
fn test_established_sliding_window_recv() {
    let mut s = socket_established();
    // Update our scaling parameters for a TCP with a scaled buffer.
    assert_eq!(s.rx_buffer.len(), 0);
    s.rx_buffer = SocketBuffer::new(ManagedSlice::Borrowed(vec![0; 262143].leak()));
    s.assembler = Assembler::new();
    s.remote_win_scale = Some(0);
    s.remote_last_win = 65535;
    s.remote_win_shift = 2;

    // Create a TCP segment that will mostly fill an IP frame.
    let mut segment: Vec<u8> = Vec::with_capacity(1400);
    for _ in 0..100 {
        segment.extend_from_slice(b"abcdefghijklmn")
    }
    assert_eq!(segment.len(), 1400);

    // Send the frame
    assert_eq!(
        send(&mut s, Instant::from_millis(0), &TcpRepr {
            seq_number: REMOTE_SEQ + 1,
            ack_number: Some(LOCAL_SEQ + 1),
            payload: &segment,
            ..SEND_TEMPL
        }),
        None
    );

    // Ensure that the received window size is shifted right by 2.
    recv_is(&mut s, 0, Ok(TcpRepr {
        seq_number: LOCAL_SEQ + 1,
        ack_number: Some(REMOTE_SEQ + 1 + 1400),
        window_len: 65185,
        ..RECV_TEMPL
    }));
    recv_nothing(&mut s, Instant::from_millis(0));
}

#[test]
fn test_established_send() {
    let mut s = socket_established();
    // First roundtrip after establishing.
    s.view().send_slice(b"abcdef").unwrap();
    recv_is(&mut s, 0, Ok(TcpRepr {
        seq_number: LOCAL_SEQ + 1,
        ack_number: Some(REMOTE_SEQ + 1),
        payload: &b"abcdef"[..],
        ..RECV_TEMPL
    }));
    recv_nothing(&mut s, Instant::from_millis(0));
    assert_eq!(s.tx_buffer.len(), 6);
    assert_eq!(
        send(&mut s, Instant::from_millis(0), &TcpRepr {
            seq_number: REMOTE_SEQ + 1,
            ack_number: Some(LOCAL_SEQ + 1 + 6),
            ..SEND_TEMPL
        }),
        None
    );
    assert_eq!(s.tx_buffer.len(), 0);
    // Second roundtrip.
    s.view().send_slice(b"foobar").unwrap();
    recv_is(&mut s, 0, Ok(TcpRepr {
        seq_number: LOCAL_SEQ + 1 + 6,
        ack_number: Some(REMOTE_SEQ + 1),
        payload: &b"foobar"[..],
        ..RECV_TEMPL
    }));
    recv_nothing(&mut s, Instant::from_millis(0));
    assert_eq!(
        send(&mut s, Instant::from_millis(0), &TcpRepr {
            seq_number: REMOTE_SEQ + 1,
            ack_number: Some(LOCAL_SEQ + 1 + 6 + 6),
            ..SEND_TEMPL
        }),
        None
    );
    assert_eq!(s.tx_buffer.len(), 0);
}

#[test]
fn test_established_send_no_ack_send() {
    let mut s = socket_established();
    s.view().set_nagle_enabled(false);
    s.view().send_slice(b"abcdef").unwrap();
    recv_is(&mut s, 0, Ok(TcpRepr {
        seq_number: LOCAL_SEQ + 1,
        ack_number: Some(REMOTE_SEQ + 1),
        payload: &b"abcdef"[..],
        ..RECV_TEMPL
    }));
    recv_nothing(&mut s, Instant::from_millis(0));
    s.view().send_slice(b"foobar").unwrap();
    recv_is(&mut s, 0, Ok(TcpRepr {
        seq_number: LOCAL_SEQ + 1 + 6,
        ack_number: Some(REMOTE_SEQ + 1),
        payload: &b"foobar"[..],
        ..RECV_TEMPL
    }));
    recv_nothing(&mut s, Instant::from_millis(0));
}

#[test]
fn test_established_send_buf_gt_win() {
    let mut data = [0; 32];
    for (i, elem) in data.iter_mut().enumerate() {
        *elem = i as u8
    }

    let mut s = socket_established();
    s.remote_win_len = 16;
    s.view().send_slice(&data[..]).unwrap();
    recv_is(&mut s, 0, Ok(TcpRepr {
        seq_number: LOCAL_SEQ + 1,
        ack_number: Some(REMOTE_SEQ + 1),
        payload: &data[0..16],
        ..RECV_TEMPL
    }));
    recv_nothing(&mut s, Instant::from_millis(0));
}

#[test]
fn test_established_send_window_shrink() {
    let mut s = socket_established();

    // 6 octets fit on the remote side's window, so we send them.
    s.view().send_slice(b"abcdef").unwrap();
    recv_is(&mut s, 0, Ok(TcpRepr {
        seq_number: LOCAL_SEQ + 1,
        ack_number: Some(REMOTE_SEQ + 1),
        payload: &b"abcdef"[..],
        ..RECV_TEMPL
    }));
    recv_nothing(&mut s, Instant::from_millis(0));
    assert_eq!(s.tx_buffer.len(), 6);


    // - Peer doesn't ack them yet
    // - Sends data so we need to reply with an ACK
    // - ...AND and sends a window announcement that SHRINKS the window, so data we've
    //   previously sent is now outside the window. Yes, this is allowed by TCP.
    assert_eq!(
        send(&mut s, Instant::from_millis(0), &TcpRepr {
            seq_number: REMOTE_SEQ + 1,
            ack_number: Some(LOCAL_SEQ + 1),
            window_len: 3,
            payload: &b"xyzxyz"[..],
            ..SEND_TEMPL
        }),
        None
    );
    assert_eq!(s.tx_buffer.len(), 6);


    // More data should not get sent since it doesn't fit in the window
    s.view().send_slice(b"foobar").unwrap();
    recv_is(&mut s, 0, Ok(TcpRepr {
        seq_number: LOCAL_SEQ + 1 + 6,
        ack_number: Some(REMOTE_SEQ + 1 + 6),
        window_len: 64 - 6,
        ..RECV_TEMPL
    }));
    recv_nothing(&mut s, Instant::from_millis(0));
}

#[test]
fn test_established_receive_partially_outside_window() {
    let mut s = socket_established();

    assert_eq!(
        send(&mut s, Instant::from_millis(0), &TcpRepr {
            seq_number: REMOTE_SEQ + 1,
            ack_number: Some(LOCAL_SEQ + 1),
            payload: &b"abc"[..],
            ..SEND_TEMPL
        }),
        None
    );

    s.view()
        .recv(|data| {
            assert_eq!(data, b"abc");
            (3, ())
        })
        .unwrap();

    // Peer decides to retransmit (perhaps because the ACK was lost)
    // and also pushed data.
    assert_eq!(
        send(&mut s, Instant::from_millis(0), &TcpRepr {
            seq_number: REMOTE_SEQ + 1,
            ack_number: Some(LOCAL_SEQ + 1),
            payload: &b"abcdef"[..],
            ..SEND_TEMPL
        }),
        None
    );

    s.view()
        .recv(|data| {
            assert_eq!(data, b"def");
            (3, ())
        })
        .unwrap();
}

#[test]
fn test_established_receive_partially_outside_window_fin() {
    let mut s = socket_established();

    assert_eq!(
        send(&mut s, Instant::from_millis(0), &TcpRepr {
            seq_number: REMOTE_SEQ + 1,
            ack_number: Some(LOCAL_SEQ + 1),
            payload: &b"abc"[..],
            ..SEND_TEMPL
        }),
        None
    );

    s.view()
        .recv(|data| {
            assert_eq!(data, b"abc");
            (3, ())
        })
        .unwrap();

    // Peer decides to retransmit (perhaps because the ACK was lost)
    // and also pushed data, and sent a FIN.
    assert_eq!(
        send(&mut s, Instant::from_millis(0), &TcpRepr {
            seq_number: REMOTE_SEQ + 1,
            ack_number: Some(LOCAL_SEQ + 1),
            control: TcpControl::Fin,
            payload: &b"abcdef"[..],
            ..SEND_TEMPL
        }),
        None
    );

    s.view()
        .recv(|data| {
            assert_eq!(data, b"def");
            (3, ())
        })
        .unwrap();

    // We should accept the FIN, because even though the last packet was partially
    // outside the receive window, there is no hole after adding its data to the assembler.
    assert_eq!(s.state, State::CloseWait);
}

#[test]
fn test_established_send_wrap() {
    let mut s = socket_established();
    let local_seq_start = TcpSeqNumber(i32::MAX - 1);
    s.local_seq_no = local_seq_start + 1;
    s.remote_last_seq = local_seq_start + 1;
    s.view().send_slice(b"abc").unwrap();
    recv_is(&mut s, 1000, Ok(TcpRepr {
        seq_number: local_seq_start + 1,
        ack_number: Some(REMOTE_SEQ + 1),
        payload:    &b"abc"[..],
        ..RECV_TEMPL
    }));
}

#[test]
fn test_established_no_ack() {
    let mut s = socket_established();
    assert_eq!(
        send(&mut s, Instant::from_millis(0), &TcpRepr {
            seq_number: REMOTE_SEQ + 1,
            ack_number: None,
            ..SEND_TEMPL
        }),
        None
    );
}

#[test]
fn test_established_bad_ack() {
    let mut s = socket_established();
    // Already acknowledged data.
    assert_eq!(
        send(&mut s, Instant::from_millis(0), &TcpRepr {
            seq_number: REMOTE_SEQ + 1,
            ack_number: Some(TcpSeqNumber(LOCAL_SEQ.0 - 1)),
            ..SEND_TEMPL
        }),
        None
    );
    assert_eq!(s.local_seq_no, LOCAL_SEQ + 1);
    // Data not yet transmitted.
    assert_eq!(
        send(&mut s, Instant::from_millis(0), &TcpRepr {
            seq_number: REMOTE_SEQ + 1,
            ack_number: Some(LOCAL_SEQ + 10),
            ..SEND_TEMPL
        }),
        Some(TcpRepr {
            seq_number: LOCAL_SEQ + 1,
            ack_number: Some(REMOTE_SEQ + 1),
            ..RECV_TEMPL
        })
    );
    assert_eq!(s.local_seq_no, LOCAL_SEQ + 1);
}

#[test]
fn test_established_bad_seq() {
    let mut s = socket_established();
    // Data outside of receive window.
    assert_eq!(
        send(&mut s, Instant::from_millis(0), &TcpRepr {
            seq_number: REMOTE_SEQ + 1 + 256,
            ack_number: Some(LOCAL_SEQ + 1),
            ..SEND_TEMPL
        }),
        Some(TcpRepr {
            seq_number: LOCAL_SEQ + 1,
            ack_number: Some(REMOTE_SEQ + 1),
            ..RECV_TEMPL
        })
    );
    assert_eq!(s.remote_seq_no, REMOTE_SEQ + 1);

    // Challenge ACKs are rate-limited, we don't get a second one immediately.
    assert_eq!(
        send(&mut s, Instant::from_millis(100), &TcpRepr {
            seq_number: REMOTE_SEQ + 1 + 256,
            ack_number: Some(LOCAL_SEQ + 1),
            ..SEND_TEMPL
        }),
        None
    );

    // If we wait a bit, we do get a new one.
    assert_eq!(
        send(&mut s, Instant::from_millis(2000), &TcpRepr {
            seq_number: REMOTE_SEQ + 1 + 256,
            ack_number: Some(LOCAL_SEQ + 1),
            ..SEND_TEMPL
        }),
        Some(TcpRepr {
            seq_number: LOCAL_SEQ + 1,
            ack_number: Some(REMOTE_SEQ + 1),
            ..RECV_TEMPL
        })
    );
    assert_eq!(s.remote_seq_no, REMOTE_SEQ + 1);
}

#[test]
fn test_old_data_ack_not_rate_limited() {
    let mut s = socket_established();
    assert_eq!(
        send(&mut s, Instant::from_millis(0), &TcpRepr {
            seq_number: REMOTE_SEQ + 1,
            ack_number: Some(LOCAL_SEQ + 1),
            payload: &b"abcdef"[..],
            ..SEND_TEMPL
        }),
        None
    );
    recv_is(&mut s, 0, Ok(TcpRepr {
        seq_number: LOCAL_SEQ + 1,
        ack_number: Some(REMOTE_SEQ + 1 + 6),
        window_len: 58,
        ..RECV_TEMPL
    }));
    recv_nothing(&mut s, Instant::from_millis(0));
    s.view()
        .recv(|data| {
            assert_eq!(data, b"abcdef");
            (6, ())
        })
        .unwrap();
    // The remote retransmits data we already acknowledged, e.g. because
    // the ACK above was lost. Each retransmission must elicit a duplicate
    // ACK, even within the challenge ACK rate limit window: withholding it
    // strands the remote in retransmission backoff.
    assert_eq!(
        send(&mut s, Instant::from_millis(100), &TcpRepr {
            seq_number: REMOTE_SEQ + 1,
            ack_number: Some(LOCAL_SEQ + 1),
            payload: &b"abcdef"[..],
            ..SEND_TEMPL
        }),
        Some(TcpRepr {
            seq_number: LOCAL_SEQ + 1,
            ack_number: Some(REMOTE_SEQ + 1 + 6),
            ..RECV_TEMPL
        })
    );
    assert_eq!(
        send(&mut s, Instant::from_millis(200), &TcpRepr {
            seq_number: REMOTE_SEQ + 1,
            ack_number: Some(LOCAL_SEQ + 1),
            payload: &b"abcdef"[..],
            ..SEND_TEMPL
        }),
        Some(TcpRepr {
            seq_number: LOCAL_SEQ + 1,
            ack_number: Some(REMOTE_SEQ + 1 + 6),
            ..RECV_TEMPL
        })
    );
}

#[test]
fn test_bad_seq_rst_dropped_silently() {
    let mut s = socket_established();
    // Out-of-window RSTs are silently dropped, per RFC 9293 (3.10.7.4)
    // and RFC 5961 (3.2): no challenge ACK, no state change.
    assert_eq!(
        send(&mut s, Instant::from_millis(0), &TcpRepr {
            control: TcpControl::Rst,
            seq_number: REMOTE_SEQ + 1 + 256,
            ack_number: Some(LOCAL_SEQ + 1),
            ..SEND_TEMPL
        }),
        None
    );
    assert_eq!(s.state, State::Established);

    // A payload doesn't make it eligible for the data segment exemption
    // from challenge ACK rate limiting either: still no reply.
    assert_eq!(
        send(&mut s, Instant::from_millis(100), &TcpRepr {
            control: TcpControl::Rst,
            seq_number: REMOTE_SEQ + 1 + 256,
            ack_number: Some(LOCAL_SEQ + 1),
            payload: &b"abcdef"[..],
            ..SEND_TEMPL
        }),
        None
    );
    assert_eq!(s.state, State::Established);
}

#[test]
fn test_bad_seq_syn_with_data_rate_limited() {
    let mut s = socket_established();
    // An out-of-window SYN carrying data must not be exempt from challenge
    // ACK rate limiting: RFC 5961 (4.2) says challenge ACKs sent in
    // response to SYNs should be throttled.
    assert_eq!(
        send(&mut s, Instant::from_millis(0), &TcpRepr {
            control: TcpControl::Syn,
            seq_number: REMOTE_SEQ + 1 + 256,
            ack_number: Some(LOCAL_SEQ + 1),
            payload: &b"abcdef"[..],
            ..SEND_TEMPL
        }),
        Some(TcpRepr {
            seq_number: LOCAL_SEQ + 1,
            ack_number: Some(REMOTE_SEQ + 1),
            ..RECV_TEMPL
        })
    );

    // The second one within the rate limit window gets no reply.
    assert_eq!(
        send(&mut s, Instant::from_millis(100), &TcpRepr {
            control: TcpControl::Syn,
            seq_number: REMOTE_SEQ + 1 + 256,
            ack_number: Some(LOCAL_SEQ + 1),
            payload: &b"abcdef"[..],
            ..SEND_TEMPL
        }),
        None
    );
    assert_eq!(s.state, State::Established);
}

#[test]
fn test_established_options_reduce_payload_when_local_mss_limited() {
    const EFFECTIVE_MSS: usize = 64;

    // construct socket where remote MSS is less than local MSS
    let mut s = socket_established();
    s.timestamps = true;
    s.remote_mss = EFFECTIVE_MSS;

    // Payload should contain 12 bytes less due to timestamp
    s.view().send_slice(&[0; EFFECTIVE_MSS]).unwrap();
    recv_is(&mut s, 0, Ok(TcpRepr {
        seq_number: LOCAL_SEQ + 1,
        ack_number: Some(REMOTE_SEQ + 1),
        payload: &[0; EFFECTIVE_MSS - 12],
        timestamp: Some(TcpTimestampRepr::new(0, 0)),
        ..RECV_TEMPL
    }));
    recv_nothing(&mut s, Instant::from_millis(0));
}

#[test]
fn test_established_options_reduce_payload_when_remote_mss_limited() {
    const EFFECTIVE_MSS: usize = BASE_MSS as usize;

    // construct socket where remote MSS is more than local MSS
    let mut s = socket_established_with_buffer_sizes(EFFECTIVE_MSS, 64);
    s.timestamps = true;
    s.remote_mss = 9999;
    s.remote_win_len = 9999;

    // Payload should contain 12 bytes less due to timestamp
    s.view().send_slice(&[0; EFFECTIVE_MSS]).unwrap();
    recv_is(&mut s, 0, Ok(TcpRepr {
        seq_number: LOCAL_SEQ + 1,
        ack_number: Some(REMOTE_SEQ + 1),
        payload: &[0; EFFECTIVE_MSS - 12],
        timestamp: Some(TcpTimestampRepr::new(0, 0)),
        ..RECV_TEMPL
    }));
    recv_nothing(&mut s, Instant::from_millis(0));
}

#[test]
fn test_mss_derived_from_iface_mtu() {
    // A device with an MTU smaller than a packet buffer.
    const MTU: usize = 576;
    const MTU_MSS: usize = MTU - IPV4_HEADER_LEN - TCP_HEADER_LEN;

    let mut s = socket_with_buffer_sizes(2048, 64);
    s.stack = Stack::new(0x1234_5678_dead_beef, packet_allocator());
    let handle = TestDevice::new(Medium::Ip)
        .with_mtu(MTU)
        .install(&mut s.stack, HardwareAddress::Ip);
    s.stack
        .iface(handle)
        .add_ip_addr(IpCidr::new(LOCAL_ADDR.into(), 24));
    s.state = State::SynSent;
    s.tuple = Some(TUPLE);
    s.local_seq_no = LOCAL_SEQ;
    s.remote_last_seq = LOCAL_SEQ;

    // The SYN advertises the MSS derived from the egress interface's MTU.
    recv_is(&mut s, 0, Ok(TcpRepr {
        control: TcpControl::Syn,
        seq_number: LOCAL_SEQ,
        ack_number: None,
        max_seg_size: Some(MTU_MSS as u16),
        window_scale: Some(0),
        sack_permitted: true,
        ..RECV_TEMPL
    }));
    recv_nothing(&mut s, Instant::from_millis(0));

    // Complete the handshake. The remote's MSS and window are no constraint.
    assert_eq!(
        send(&mut s, Instant::from_millis(0), &TcpRepr {
            control: TcpControl::Syn,
            seq_number: REMOTE_SEQ,
            ack_number: Some(LOCAL_SEQ + 1),
            max_seg_size: Some(2000),
            window_scale: Some(0),
            window_len: 4096,
            ..SEND_TEMPL
        }),
        None
    );
    recv_is(&mut s, 0, Ok(TcpRepr {
        seq_number: LOCAL_SEQ + 1,
        ack_number: Some(REMOTE_SEQ + 1),
        ..RECV_TEMPL
    }));
    recv_nothing(&mut s, Instant::from_millis(0));
    assert_eq!(s.state, State::Established);

    // Data is segmented at the MTU-derived MSS, not the remote's 2000.
    s.view().send_slice(&[0; MTU_MSS * 2]).unwrap();
    recv_is(&mut s, 0, Ok(TcpRepr {
        seq_number: LOCAL_SEQ + 1,
        ack_number: Some(REMOTE_SEQ + 1),
        payload: &[0; MTU_MSS],
        ..RECV_TEMPL
    }));
    recv_is(&mut s, 0, Ok(TcpRepr {
        seq_number: LOCAL_SEQ + 1 + MTU_MSS,
        ack_number: Some(REMOTE_SEQ + 1),
        payload: &[0; MTU_MSS],
        ..RECV_TEMPL
    }));
    recv_nothing(&mut s, Instant::from_millis(0));
}

#[test]
fn test_established_tiny_mss_with_options_makes_progress() {
    // Connect with timestamps enabled to a remote advertising an absurdly
    // small MSS. Without the MIN_SND_MSS clamp, an MSS smaller than the
    // options length would result in an effective MSS of zero, sending
    // empty segments in a loop without ever making progress.
    let mut s = socket();
    s.local_seq_no = LOCAL_SEQ;
    s.view().connect(REMOTE_END, LOCAL_END.port.into()).unwrap();
    pin_initial_numbers(&mut s);
    recv_is(&mut s, 0, Ok(TcpRepr {
        control: TcpControl::Syn,
        seq_number: LOCAL_SEQ,
        ack_number: None,
        max_seg_size: Some(BASE_MSS),
        window_scale: Some(0),
        sack_permitted: true,
        timestamp: Some(TcpTimestampRepr::new(0, 0)),
        ..RECV_TEMPL
    }));
    recv_nothing(&mut s, Instant::from_millis(0));
    assert_eq!(
        send(&mut s, Instant::from_millis(0), &TcpRepr {
            control: TcpControl::Syn,
            seq_number: REMOTE_SEQ,
            ack_number: Some(LOCAL_SEQ + 1),
            max_seg_size: Some(10),
            window_scale: Some(0),
            timestamp: Some(TcpTimestampRepr::new(500, 1)),
            ..SEND_TEMPL
        }),
        None
    );
    assert_eq!(s.state, State::Established);
    assert_eq!(s.remote_mss, MIN_REMOTE_MSS);

    s.view().send_slice(&[0; 64]).unwrap();
    recv_is(&mut s, 0, Ok(TcpRepr {
        seq_number: LOCAL_SEQ + 1,
        ack_number: Some(REMOTE_SEQ + 1),
        payload: &[0; MIN_REMOTE_MSS - 12],
        timestamp: Some(TcpTimestampRepr::new(0, 500)),
        ..RECV_TEMPL
    }));
    recv_nothing(&mut s, Instant::from_millis(0));
}

#[test]
fn test_established_fin() {
    let mut s = socket_established();
    assert_eq!(
        send(&mut s, Instant::from_millis(0), &TcpRepr {
            control: TcpControl::Fin,
            seq_number: REMOTE_SEQ + 1,
            ack_number: Some(LOCAL_SEQ + 1),
            ..SEND_TEMPL
        }),
        None
    );
    recv_is(&mut s, 0, Ok(TcpRepr {
        seq_number: LOCAL_SEQ + 1,
        ack_number: Some(REMOTE_SEQ + 1 + 1),
        ..RECV_TEMPL
    }));
    recv_nothing(&mut s, Instant::from_millis(0));
    assert_eq!(s.state, State::CloseWait);
    sanity(&s, &socket_close_wait());
}

#[test]
fn test_established_fin_after_missing() {
    let mut s = socket_established();
    assert_eq!(
        send(&mut s, Instant::from_millis(0), &TcpRepr {
            control: TcpControl::Fin,
            seq_number: REMOTE_SEQ + 1 + 6,
            ack_number: Some(LOCAL_SEQ + 1),
            payload: &b"123456"[..],
            ..SEND_TEMPL
        }),
        Some(TcpRepr {
            seq_number: LOCAL_SEQ + 1,
            ack_number: Some(REMOTE_SEQ + 1),
            ..RECV_TEMPL
        })
    );
    assert_eq!(s.state, State::Established);
    assert_eq!(
        send(&mut s, Instant::from_millis(0), &TcpRepr {
            seq_number: REMOTE_SEQ + 1,
            ack_number: Some(LOCAL_SEQ + 1),
            payload: &b"abcdef"[..],
            ..SEND_TEMPL
        }),
        Some(TcpRepr {
            seq_number: LOCAL_SEQ + 1,
            ack_number: Some(REMOTE_SEQ + 1 + 6 + 6),
            window_len: 52,
            ..RECV_TEMPL
        })
    );
    assert_eq!(s.state, State::Established);
}

#[test]
fn test_established_send_fin() {
    let mut s = socket_established();
    s.view().send_slice(b"abcdef").unwrap();
    assert_eq!(
        send(&mut s, Instant::from_millis(0), &TcpRepr {
            control: TcpControl::Fin,
            seq_number: REMOTE_SEQ + 1,
            ack_number: Some(LOCAL_SEQ + 1),
            ..SEND_TEMPL
        }),
        None
    );
    assert_eq!(s.state, State::CloseWait);
    recv_is(&mut s, 0, Ok(TcpRepr {
        seq_number: LOCAL_SEQ + 1,
        ack_number: Some(REMOTE_SEQ + 1 + 1),
        payload: &b"abcdef"[..],
        ..RECV_TEMPL
    }));
    recv_nothing(&mut s, Instant::from_millis(0));
}

#[test]
fn test_established_rst() {
    let mut s = socket_established();
    assert_eq!(
        send(&mut s, Instant::from_millis(0), &TcpRepr {
            control: TcpControl::Rst,
            seq_number: REMOTE_SEQ + 1,
            ack_number: Some(LOCAL_SEQ + 1),
            ..SEND_TEMPL
        }),
        None
    );
    assert_eq!(s.state, State::Closed);
}

#[test]
fn test_established_rst_no_ack() {
    let mut s = socket_established();
    assert_eq!(
        send(&mut s, Instant::from_millis(0), &TcpRepr {
            control: TcpControl::Rst,
            seq_number: REMOTE_SEQ + 1,
            ack_number: None,
            ..SEND_TEMPL
        }),
        None
    );
    assert_eq!(s.state, State::Closed);
}

#[test]
fn test_established_close() {
    let mut s = socket_established();
    s.view().close();
    assert_eq!(s.state, State::FinWait1);
    sanity(&s, &socket_fin_wait_1());
}

#[test]
fn test_established_abort() {
    let mut s = socket_established();
    s.view().abort();
    assert_eq!(s.state, State::Closed);
    recv_is(&mut s, 0, Ok(TcpRepr {
        control: TcpControl::Rst,
        seq_number: LOCAL_SEQ + 1,
        ack_number: Some(REMOTE_SEQ + 1),
        ..RECV_TEMPL
    }));
    recv_nothing(&mut s, Instant::from_millis(0));
}

#[test]
fn test_established_rst_bad_seq() {
    let mut s = socket_established();
    // Out-of-window RSTs are dropped silently, per RFC 9293 (3.10.7.4)
    // and RFC 5961 (3.2).
    assert_eq!(
        send(&mut s, Instant::from_millis(0), &TcpRepr {
            control: TcpControl::Rst,
            seq_number: REMOTE_SEQ, // Wrong seq
            ack_number: None,
            ..SEND_TEMPL
        }),
        None
    );

    assert_eq!(s.state, State::Established);

    // An in-window RST still resets the connection.
    assert_eq!(
        send(&mut s, Instant::from_millis(2000), &TcpRepr {
            control: TcpControl::Rst,
            seq_number: REMOTE_SEQ + 1, // Correct seq
            ack_number: None,
            ..SEND_TEMPL
        }),
        None
    );

    assert_eq!(s.state, State::Closed);
}

#[test]
fn test_established_bad_seq_challenge_ack_updated() {
    let mut s = socket_established();
    assert_eq!(
        send(&mut s, Instant::from_millis(0), &TcpRepr {
            seq_number: REMOTE_SEQ, // Wrong seq
            ack_number: Some(LOCAL_SEQ + 1),
            ..SEND_TEMPL
        }),
        Some(TcpRepr {
            seq_number: LOCAL_SEQ + 1,
            ack_number: Some(REMOTE_SEQ + 1),
            ..RECV_TEMPL
        })
    );

    assert_eq!(s.state, State::Established);

    // Send something to advance seq by 1
    assert_eq!(
        send(&mut s, Instant::from_millis(0), &TcpRepr {
            seq_number: REMOTE_SEQ + 1, // correct seq
            ack_number: Some(LOCAL_SEQ + 1),
            payload: &b"a"[..],
            ..SEND_TEMPL
        }),
        None
    );

    // Send the wrong seq again, check that the challenge ack is correctly updated
    // The ack number must be updated even if we don't call dispatch on the socket
    // See https://github.com/xarxa-rs/xarxa/issues/338
    assert_eq!(
        send(&mut s, Instant::from_millis(2000), &TcpRepr {
            seq_number: REMOTE_SEQ, // Wrong seq
            ack_number: Some(LOCAL_SEQ + 1),
            ..SEND_TEMPL
        }),
        Some(TcpRepr {
            seq_number: LOCAL_SEQ + 1,
            ack_number: Some(REMOTE_SEQ + 2), // this has changed
            window_len: 63,
            ..RECV_TEMPL
        })
    );
}

// =========================================================================================//
// Tests for the FIN-WAIT-1 state.
// =========================================================================================//

#[test]
fn test_fin_wait_1_fin_ack() {
    let mut s = socket_fin_wait_1();
    recv_is(&mut s, 0, Ok(TcpRepr {
        control: TcpControl::Fin,
        seq_number: LOCAL_SEQ + 1,
        ack_number: Some(REMOTE_SEQ + 1),
        ..RECV_TEMPL
    }));
    recv_nothing(&mut s, Instant::from_millis(0));
    assert_eq!(
        send(&mut s, Instant::from_millis(0), &TcpRepr {
            seq_number: REMOTE_SEQ + 1,
            ack_number: Some(LOCAL_SEQ + 1 + 1),
            ..SEND_TEMPL
        }),
        None
    );
    assert_eq!(s.state, State::FinWait2);
    sanity(&s, &socket_fin_wait_2());
}

#[test]
fn test_fin_wait_1_fin_fin() {
    let mut s = socket_fin_wait_1();
    recv_is(&mut s, 0, Ok(TcpRepr {
        control: TcpControl::Fin,
        seq_number: LOCAL_SEQ + 1,
        ack_number: Some(REMOTE_SEQ + 1),
        ..RECV_TEMPL
    }));
    recv_nothing(&mut s, Instant::from_millis(0));
    assert_eq!(
        send(&mut s, Instant::from_millis(0), &TcpRepr {
            control: TcpControl::Fin,
            seq_number: REMOTE_SEQ + 1,
            ack_number: Some(LOCAL_SEQ + 1),
            ..SEND_TEMPL
        }),
        None
    );
    assert_eq!(s.state, State::Closing);
    sanity(&s, &socket_closing());
}

#[test]
fn test_fin_wait_1_fin_with_data_queued() {
    let mut s = socket_established();
    s.remote_win_len = 6;
    s.view().send_slice(b"abcdef123456").unwrap();
    s.view().close();
    recv_is(&mut s, 0, Ok(TcpRepr {
        seq_number: LOCAL_SEQ + 1,
        ack_number: Some(REMOTE_SEQ + 1),
        payload: &b"abcdef"[..],
        ..RECV_TEMPL
    }));
    assert_eq!(
        send(&mut s, Instant::from_millis(0), &TcpRepr {
            seq_number: REMOTE_SEQ + 1,
            ack_number: Some(LOCAL_SEQ + 1 + 6),
            ..SEND_TEMPL
        }),
        None
    );
    assert_eq!(s.state, State::FinWait1);
}

#[test]
fn test_fin_wait_1_recv() {
    let mut s = socket_fin_wait_1();
    assert_eq!(
        send(&mut s, Instant::from_millis(0), &TcpRepr {
            seq_number: REMOTE_SEQ + 1,
            ack_number: Some(LOCAL_SEQ + 1),
            payload: &b"abc"[..],
            ..SEND_TEMPL
        }),
        None
    );
    assert_eq!(s.state, State::FinWait1);
    s.view()
        .recv(|data| {
            assert_eq!(data, b"abc");
            (3, ())
        })
        .unwrap();
}

#[test]
fn test_fin_wait_1_close() {
    let mut s = socket_fin_wait_1();
    s.view().close();
    assert_eq!(s.state, State::FinWait1);
}

// =========================================================================================//
// Tests for the FIN-WAIT-2 state.
// =========================================================================================//

#[test]
fn test_fin_wait_2_fin() {
    let mut s = socket_fin_wait_2();
    assert_eq!(
        send(&mut s, Instant::from_millis(1_000), &TcpRepr {
            control: TcpControl::Fin,
            seq_number: REMOTE_SEQ + 1,
            ack_number: Some(LOCAL_SEQ + 1 + 1),
            ..SEND_TEMPL
        }),
        None
    );
    assert_eq!(s.state, State::TimeWait);
    sanity(&s, &socket_time_wait(false));
}

#[test]
fn test_fin_wait_2_recv() {
    let mut s = socket_fin_wait_2();
    assert_eq!(
        send(&mut s, Instant::from_millis(0), &TcpRepr {
            seq_number: REMOTE_SEQ + 1,
            ack_number: Some(LOCAL_SEQ + 1 + 1),
            payload: &b"abc"[..],
            ..SEND_TEMPL
        }),
        None
    );
    assert_eq!(s.state, State::FinWait2);
    s.view()
        .recv(|data| {
            assert_eq!(data, b"abc");
            (3, ())
        })
        .unwrap();
    recv_is(&mut s, 0, Ok(TcpRepr {
        seq_number: LOCAL_SEQ + 1 + 1,
        ack_number: Some(REMOTE_SEQ + 1 + 3),
        ..RECV_TEMPL
    }));
    recv_nothing(&mut s, Instant::from_millis(0));
}

#[test]
fn test_fin_wait_2_close() {
    let mut s = socket_fin_wait_2();
    s.view().close();
    assert_eq!(s.state, State::FinWait2);
}

// =========================================================================================//
// Tests for the CLOSING state.
// =========================================================================================//

#[test]
fn test_closing_ack_fin() {
    let mut s = socket_closing();
    recv_is(&mut s, 0, Ok(TcpRepr {
        seq_number: LOCAL_SEQ + 1 + 1,
        ack_number: Some(REMOTE_SEQ + 1 + 1),
        ..RECV_TEMPL
    }));
    recv_nothing(&mut s, Instant::from_millis(0));
    assert_eq!(
        send(&mut s, Instant::from_millis(1_000), &TcpRepr {
            seq_number: REMOTE_SEQ + 1 + 1,
            ack_number: Some(LOCAL_SEQ + 1 + 1),
            ..SEND_TEMPL
        }),
        None
    );
    assert_eq!(s.state, State::TimeWait);
    sanity(&s, &socket_time_wait(true));
}

#[test]
fn test_closing_close() {
    let mut s = socket_closing();
    s.view().close();
    assert_eq!(s.state, State::Closing);
}

// =========================================================================================//
// Tests for the TIME-WAIT state.
// =========================================================================================//

#[test]
fn test_time_wait_from_fin_wait_2_ack() {
    let mut s = socket_time_wait(false);
    recv_is(&mut s, 0, Ok(TcpRepr {
        seq_number: LOCAL_SEQ + 1 + 1,
        ack_number: Some(REMOTE_SEQ + 1 + 1),
        ..RECV_TEMPL
    }));
    recv_nothing(&mut s, Instant::from_millis(0));
}

#[test]
fn test_time_wait_from_closing_no_ack() {
    let mut s = socket_time_wait(true);
    recv_nothing(&mut s, Instant::from_millis(0));
}

#[test]
fn test_time_wait_close() {
    let mut s = socket_time_wait(false);
    s.view().close();
    assert_eq!(s.state, State::TimeWait);
}

#[test]
fn test_time_wait_retransmit() {
    let mut s = socket_time_wait(false);
    recv_is(&mut s, 0, Ok(TcpRepr {
        seq_number: LOCAL_SEQ + 1 + 1,
        ack_number: Some(REMOTE_SEQ + 1 + 1),
        ..RECV_TEMPL
    }));
    recv_nothing(&mut s, Instant::from_millis(0));
    assert_eq!(
        send(&mut s, Instant::from_millis(5_000), &TcpRepr {
            control: TcpControl::Fin,
            seq_number: REMOTE_SEQ + 1,
            ack_number: Some(LOCAL_SEQ + 1 + 1),
            ..SEND_TEMPL
        }),
        Some(TcpRepr {
            seq_number: LOCAL_SEQ + 1 + 1,
            ack_number: Some(REMOTE_SEQ + 1 + 1),
            ..RECV_TEMPL
        })
    );
    assert_eq!(
        s.timer,
        Timer::Close {
            expires_at: Instant::from_secs(5) + Duration::from_millis(CLOSE_DELAY_MS)
        }
    );
}

#[test]
fn test_time_wait_timeout() {
    let mut s = socket_time_wait(false);
    recv_is(&mut s, 0, Ok(TcpRepr {
        seq_number: LOCAL_SEQ + 1 + 1,
        ack_number: Some(REMOTE_SEQ + 1 + 1),
        ..RECV_TEMPL
    }));
    recv_nothing(&mut s, Instant::from_millis(0));
    assert_eq!(s.state, State::TimeWait);
    recv_nothing(&mut s, Instant::from_millis(60_000));
    assert_eq!(s.state, State::Closed);
}

// =========================================================================================//
// Tests for the CLOSE-WAIT state.
// =========================================================================================//

#[test]
fn test_close_wait_ack() {
    let mut s = socket_close_wait();
    s.view().send_slice(b"abcdef").unwrap();
    recv_is(&mut s, 0, Ok(TcpRepr {
        seq_number: LOCAL_SEQ + 1,
        ack_number: Some(REMOTE_SEQ + 1 + 1),
        payload: &b"abcdef"[..],
        ..RECV_TEMPL
    }));
    recv_nothing(&mut s, Instant::from_millis(0));
    assert_eq!(
        send(&mut s, Instant::from_millis(0), &TcpRepr {
            seq_number: REMOTE_SEQ + 1 + 1,
            ack_number: Some(LOCAL_SEQ + 1 + 6),
            ..SEND_TEMPL
        }),
        None
    );
}

#[test]
fn test_close_wait_close() {
    let mut s = socket_close_wait();
    s.view().close();
    assert_eq!(s.state, State::LastAck);
    sanity(&s, &socket_last_ack());
}

// =========================================================================================//
// Tests for the LAST-ACK state.
// =========================================================================================//
#[test]
fn test_last_ack_fin_ack() {
    let mut s = socket_last_ack();
    recv_is(&mut s, 0, Ok(TcpRepr {
        control: TcpControl::Fin,
        seq_number: LOCAL_SEQ + 1,
        ack_number: Some(REMOTE_SEQ + 1 + 1),
        ..RECV_TEMPL
    }));
    recv_nothing(&mut s, Instant::from_millis(0));
    assert_eq!(s.state, State::LastAck);
    assert_eq!(
        send(&mut s, Instant::from_millis(0), &TcpRepr {
            seq_number: REMOTE_SEQ + 1 + 1,
            ack_number: Some(LOCAL_SEQ + 1 + 1),
            ..SEND_TEMPL
        }),
        None
    );
    assert_eq!(s.state, State::Closed);
}

#[test]
fn test_last_ack_ack_not_of_fin() {
    let mut s = socket_last_ack();
    recv_is(&mut s, 0, Ok(TcpRepr {
        control: TcpControl::Fin,
        seq_number: LOCAL_SEQ + 1,
        ack_number: Some(REMOTE_SEQ + 1 + 1),
        ..RECV_TEMPL
    }));
    recv_nothing(&mut s, Instant::from_millis(0));
    assert_eq!(s.state, State::LastAck);

    // A duplicate ACK (ack_number == SND.UNA, not the FIN ACK) must elicit a
    // challenge ACK per RFC 9293 §3.10.7.4 and must keep the state in LAST-ACK.
    assert_eq!(
        send(&mut s, Instant::from_millis(0), &TcpRepr {
            seq_number: REMOTE_SEQ + 1 + 1,
            ack_number: Some(LOCAL_SEQ + 1),
            ..SEND_TEMPL
        }),
        Some(TcpRepr {
            seq_number: LOCAL_SEQ + 1 + 1,
            ack_number: Some(REMOTE_SEQ + 1 + 1),
            ..RECV_TEMPL
        })
    );
    assert_eq!(s.state, State::LastAck);

    // ACK received of fin: socket should change to Closed.
    assert_eq!(
        send(&mut s, Instant::from_millis(0), &TcpRepr {
            seq_number: REMOTE_SEQ + 1 + 1,
            ack_number: Some(LOCAL_SEQ + 1 + 1),
            ..SEND_TEMPL
        }),
        None
    );
    assert_eq!(s.state, State::Closed);
}

// RFC 9293 §3.10.7.4: duplicate ACK in LAST-ACK must elicit a challenge ACK,
// not be silently dropped.
#[test]
fn test_last_ack_duplicate_ack_challenge_ack() {
    let mut s = socket_last_ack();
    // Trigger dispatch so our FIN is sent and remote_last_seq advances.
    recv_is(&mut s, 0, Ok(TcpRepr {
        control: TcpControl::Fin,
        seq_number: LOCAL_SEQ + 1,
        ack_number: Some(REMOTE_SEQ + 1 + 1),
        ..RECV_TEMPL
    }));
    recv_nothing(&mut s, Instant::from_millis(0));
    assert_eq!(s.state, State::LastAck);

    // Remote re-sends an ACK for SND.UNA (not the FIN).  RFC 9293 requires a
    // challenge ACK in response so the remote can learn the current state.
    let challenge = send(
        &mut s,
        Instant::from_millis(0),
        &TcpRepr {
            seq_number: REMOTE_SEQ + 1 + 1,
            ack_number: Some(LOCAL_SEQ + 1),
            ..SEND_TEMPL
        },
    );
    assert_eq!(
        challenge,
        Some(TcpRepr {
            seq_number: LOCAL_SEQ + 1 + 1,
            ack_number: Some(REMOTE_SEQ + 1 + 1),
            ..RECV_TEMPL
        }),
        "expected challenge ACK in response to duplicate ACK in LAST-ACK"
    );
    // State must remain LAST-ACK: we have not received the FIN ACK.
    assert_eq!(s.state, State::LastAck);

    // A second duplicate in the same second is rate-limited; the FIN ACK
    // must still be correctly accepted regardless.
    assert_eq!(
        send(&mut s, Instant::from_millis(0), &TcpRepr {
            seq_number: REMOTE_SEQ + 1 + 1,
            ack_number: Some(LOCAL_SEQ + 1 + 1),
            ..SEND_TEMPL
        }),
        None
    );
    assert_eq!(s.state, State::Closed);
}

// A partial ACK in LAST-ACK (ack_len > 0 but not FIN ACK) advances SND.UNA
// without a challenge ACK; the FIN will be retransmitted by the timer.
#[test]
fn test_last_ack_partial_ack_no_challenge_ack() {
    // Build a LAST-ACK socket that has one byte of data still unacknowledged
    // before the FIN.  We manually wire the state so we can send a partial ACK.
    let mut s = socket_last_ack();
    // Push one byte into the tx buffer to simulate data that preceded the FIN.
    let _ = s.tx_buffer.enqueue_slice(b"x");
    // Mark it as already sent (remote_last_seq is past the data byte and the FIN).
    s.remote_last_seq = LOCAL_SEQ + 1 + 1 + 1; // data(1) + FIN(1)

    // Remote ACKs just the data byte, not the FIN (partial ACK).
    // ack_number = local_seq_no + 1  =>  ack_len = 1, ack_of_fin = false.
    // Per RFC 9293, a valid partial ACK should advance SND.UNA normally;
    // no challenge ACK should be emitted.
    assert_eq!(
        send(&mut s, Instant::from_millis(0), &TcpRepr {
            seq_number: REMOTE_SEQ + 1 + 1,
            ack_number: Some(LOCAL_SEQ + 1 + 1), // acks the data byte, not FIN
            ..SEND_TEMPL
        }),
        None
    );
    // State remains LAST-ACK; FIN retransmission is handled by the timer.
    assert_eq!(s.state, State::LastAck);
    // SND.UNA has advanced to the partial ACK number.
    assert_eq!(s.local_seq_no, LOCAL_SEQ + 1 + 1);
}

#[test]
fn test_last_ack_close() {
    let mut s = socket_last_ack();
    s.view().close();
    assert_eq!(s.state, State::LastAck);
}

// =========================================================================================//
// Tests for transitioning through multiple states.
// =========================================================================================//

#[test]
fn test_remote_close() {
    let mut s = socket_established();
    assert_eq!(
        send(&mut s, Instant::from_millis(0), &TcpRepr {
            control: TcpControl::Fin,
            seq_number: REMOTE_SEQ + 1,
            ack_number: Some(LOCAL_SEQ + 1),
            ..SEND_TEMPL
        }),
        None
    );
    assert_eq!(s.state, State::CloseWait);
    recv_is(&mut s, 0, Ok(TcpRepr {
        seq_number: LOCAL_SEQ + 1,
        ack_number: Some(REMOTE_SEQ + 1 + 1),
        ..RECV_TEMPL
    }));
    recv_nothing(&mut s, Instant::from_millis(0));
    s.view().close();
    assert_eq!(s.state, State::LastAck);
    recv_is(&mut s, 0, Ok(TcpRepr {
        control: TcpControl::Fin,
        seq_number: LOCAL_SEQ + 1,
        ack_number: Some(REMOTE_SEQ + 1 + 1),
        ..RECV_TEMPL
    }));
    recv_nothing(&mut s, Instant::from_millis(0));
    assert_eq!(
        send(&mut s, Instant::from_millis(0), &TcpRepr {
            seq_number: REMOTE_SEQ + 1 + 1,
            ack_number: Some(LOCAL_SEQ + 1 + 1),
            ..SEND_TEMPL
        }),
        None
    );
    assert_eq!(s.state, State::Closed);
}

#[test]
fn test_local_close() {
    let mut s = socket_established();
    s.view().close();
    assert_eq!(s.state, State::FinWait1);
    recv_is(&mut s, 0, Ok(TcpRepr {
        control: TcpControl::Fin,
        seq_number: LOCAL_SEQ + 1,
        ack_number: Some(REMOTE_SEQ + 1),
        ..RECV_TEMPL
    }));
    recv_nothing(&mut s, Instant::from_millis(0));
    assert_eq!(
        send(&mut s, Instant::from_millis(0), &TcpRepr {
            seq_number: REMOTE_SEQ + 1,
            ack_number: Some(LOCAL_SEQ + 1 + 1),
            ..SEND_TEMPL
        }),
        None
    );
    assert_eq!(s.state, State::FinWait2);
    assert_eq!(
        send(&mut s, Instant::from_millis(0), &TcpRepr {
            control: TcpControl::Fin,
            seq_number: REMOTE_SEQ + 1,
            ack_number: Some(LOCAL_SEQ + 1 + 1),
            ..SEND_TEMPL
        }),
        None
    );
    assert_eq!(s.state, State::TimeWait);
    recv_is(&mut s, 0, Ok(TcpRepr {
        seq_number: LOCAL_SEQ + 1 + 1,
        ack_number: Some(REMOTE_SEQ + 1 + 1),
        ..RECV_TEMPL
    }));
    recv_nothing(&mut s, Instant::from_millis(0));
}

#[test]
fn test_simultaneous_close() {
    let mut s = socket_established();
    s.view().close();
    assert_eq!(s.state, State::FinWait1);
    recv_is(&mut s, 0, Ok(TcpRepr {
        // due to reordering, this is logically located...
        control: TcpControl::Fin,
        seq_number: LOCAL_SEQ + 1,
        ack_number: Some(REMOTE_SEQ + 1),
        ..RECV_TEMPL
    }));
    recv_nothing(&mut s, Instant::from_millis(0));
    assert_eq!(
        send(&mut s, Instant::from_millis(0), &TcpRepr {
            control: TcpControl::Fin,
            seq_number: REMOTE_SEQ + 1,
            ack_number: Some(LOCAL_SEQ + 1),
            ..SEND_TEMPL
        }),
        None
    );
    assert_eq!(s.state, State::Closing);
    recv_is(&mut s, 0, Ok(TcpRepr {
        seq_number: LOCAL_SEQ + 1 + 1,
        ack_number: Some(REMOTE_SEQ + 1 + 1),
        ..RECV_TEMPL
    }));
    recv_nothing(&mut s, Instant::from_millis(0));
    // ... at this point
    assert_eq!(
        send(&mut s, Instant::from_millis(0), &TcpRepr {
            seq_number: REMOTE_SEQ + 1 + 1,
            ack_number: Some(LOCAL_SEQ + 1 + 1),
            ..SEND_TEMPL
        }),
        None
    );
    assert_eq!(s.state, State::TimeWait);
    recv_nothing(&mut s, Instant::from_millis(0));
}

#[test]
fn test_simultaneous_close_combined_fin_ack() {
    let mut s = socket_established();
    s.view().close();
    assert_eq!(s.state, State::FinWait1);
    recv_is(&mut s, 0, Ok(TcpRepr {
        control: TcpControl::Fin,
        seq_number: LOCAL_SEQ + 1,
        ack_number: Some(REMOTE_SEQ + 1),
        ..RECV_TEMPL
    }));
    recv_nothing(&mut s, Instant::from_millis(0));
    assert_eq!(
        send(&mut s, Instant::from_millis(0), &TcpRepr {
            control: TcpControl::Fin,
            seq_number: REMOTE_SEQ + 1,
            ack_number: Some(LOCAL_SEQ + 1 + 1),
            ..SEND_TEMPL
        }),
        None
    );
    assert_eq!(s.state, State::TimeWait);
    recv_is(&mut s, 0, Ok(TcpRepr {
        seq_number: LOCAL_SEQ + 1 + 1,
        ack_number: Some(REMOTE_SEQ + 1 + 1),
        ..RECV_TEMPL
    }));
    recv_nothing(&mut s, Instant::from_millis(0));
}

#[test]
fn test_simultaneous_close_raced() {
    let mut s = socket_established();
    s.view().close();
    assert_eq!(s.state, State::FinWait1);

    // Socket receives FIN before it has a chance to send its own FIN
    assert_eq!(
        send(&mut s, Instant::from_millis(0), &TcpRepr {
            control: TcpControl::Fin,
            seq_number: REMOTE_SEQ + 1,
            ack_number: Some(LOCAL_SEQ + 1),
            ..SEND_TEMPL
        }),
        None
    );
    assert_eq!(s.state, State::Closing);

    // FIN + ack-of-FIN
    recv_is(&mut s, 0, Ok(TcpRepr {
        control: TcpControl::Fin,
        seq_number: LOCAL_SEQ + 1,
        ack_number: Some(REMOTE_SEQ + 1 + 1),
        ..RECV_TEMPL
    }));
    recv_nothing(&mut s, Instant::from_millis(0));
    assert_eq!(s.state, State::Closing);

    assert_eq!(
        send(&mut s, Instant::from_millis(0), &TcpRepr {
            seq_number: REMOTE_SEQ + 1 + 1,
            ack_number: Some(LOCAL_SEQ + 1 + 1),
            ..SEND_TEMPL
        }),
        None
    );
    assert_eq!(s.state, State::TimeWait);
    recv_nothing(&mut s, Instant::from_millis(0));
}

#[test]
fn test_simultaneous_close_raced_with_data() {
    let mut s = socket_established();
    s.view().send_slice(b"abcdef").unwrap();
    s.view().close();
    assert_eq!(s.state, State::FinWait1);

    // Socket receives FIN before it has a chance to send its own data+FIN
    assert_eq!(
        send(&mut s, Instant::from_millis(0), &TcpRepr {
            control: TcpControl::Fin,
            seq_number: REMOTE_SEQ + 1,
            ack_number: Some(LOCAL_SEQ + 1),
            ..SEND_TEMPL
        }),
        None
    );
    assert_eq!(s.state, State::Closing);

    // data + FIN + ack-of-FIN
    recv_is(&mut s, 0, Ok(TcpRepr {
        control: TcpControl::Fin,
        seq_number: LOCAL_SEQ + 1,
        ack_number: Some(REMOTE_SEQ + 1 + 1),
        payload: &b"abcdef"[..],
        ..RECV_TEMPL
    }));
    recv_nothing(&mut s, Instant::from_millis(0));
    assert_eq!(s.state, State::Closing);

    assert_eq!(
        send(&mut s, Instant::from_millis(0), &TcpRepr {
            seq_number: REMOTE_SEQ + 1 + 1,
            ack_number: Some(LOCAL_SEQ + 1 + 6 + 1),
            ..SEND_TEMPL
        }),
        None
    );
    assert_eq!(s.state, State::TimeWait);
    recv_nothing(&mut s, Instant::from_millis(0));
}

#[test]
fn test_fin_with_data() {
    let mut s = socket_established();
    s.view().send_slice(b"abcdef").unwrap();
    s.view().close();
    recv_is(&mut s, 0, Ok(TcpRepr {
        control: TcpControl::Fin,
        seq_number: LOCAL_SEQ + 1,
        ack_number: Some(REMOTE_SEQ + 1),
        payload: &b"abcdef"[..],
        ..RECV_TEMPL
    }));
    recv_nothing(&mut s, Instant::from_millis(0))
}

#[test]
fn test_mutual_close_with_data_1() {
    let mut s = socket_established();
    s.view().send_slice(b"abcdef").unwrap();
    s.view().close();
    assert_eq!(s.state, State::FinWait1);
    recv_is(&mut s, 0, Ok(TcpRepr {
        control: TcpControl::Fin,
        seq_number: LOCAL_SEQ + 1,
        ack_number: Some(REMOTE_SEQ + 1),
        payload: &b"abcdef"[..],
        ..RECV_TEMPL
    }));
    recv_nothing(&mut s, Instant::from_millis(0));
    assert_eq!(
        send(&mut s, Instant::from_millis(0), &TcpRepr {
            control: TcpControl::Fin,
            seq_number: REMOTE_SEQ + 1,
            ack_number: Some(LOCAL_SEQ + 1 + 6 + 1),
            ..SEND_TEMPL
        }),
        None
    );
}

#[test]
fn test_mutual_close_with_data_2() {
    let mut s = socket_established();
    s.view().send_slice(b"abcdef").unwrap();
    s.view().close();
    assert_eq!(s.state, State::FinWait1);
    recv_is(&mut s, 0, Ok(TcpRepr {
        control: TcpControl::Fin,
        seq_number: LOCAL_SEQ + 1,
        ack_number: Some(REMOTE_SEQ + 1),
        payload: &b"abcdef"[..],
        ..RECV_TEMPL
    }));
    recv_nothing(&mut s, Instant::from_millis(0));
    assert_eq!(
        send(&mut s, Instant::from_millis(0), &TcpRepr {
            seq_number: REMOTE_SEQ + 1,
            ack_number: Some(LOCAL_SEQ + 1 + 6 + 1),
            ..SEND_TEMPL
        }),
        None
    );
    assert_eq!(s.state, State::FinWait2);
    assert_eq!(
        send(&mut s, Instant::from_millis(0), &TcpRepr {
            control: TcpControl::Fin,
            seq_number: REMOTE_SEQ + 1,
            ack_number: Some(LOCAL_SEQ + 1 + 6 + 1),
            ..SEND_TEMPL
        }),
        None
    );
    recv_is(&mut s, 0, Ok(TcpRepr {
        seq_number: LOCAL_SEQ + 1 + 6 + 1,
        ack_number: Some(REMOTE_SEQ + 1 + 1),
        ..RECV_TEMPL
    }));
    recv_nothing(&mut s, Instant::from_millis(0));
    assert_eq!(s.state, State::TimeWait);
}

// =========================================================================================//
// Tests for retransmission on packet loss.
// =========================================================================================//

#[test]
fn test_duplicate_seq_ack() {
    let mut s = socket_recved();
    // remote retransmission
    assert_eq!(
        send(&mut s, Instant::from_millis(0), &TcpRepr {
            seq_number: REMOTE_SEQ + 1,
            ack_number: Some(LOCAL_SEQ + 1),
            payload: &b"abcdef"[..],
            ..SEND_TEMPL
        }),
        Some(TcpRepr {
            seq_number: LOCAL_SEQ + 1,
            ack_number: Some(REMOTE_SEQ + 1 + 6),
            window_len: 58,
            ..RECV_TEMPL
        })
    );
}

#[test]
fn test_data_retransmit() {
    let mut s = socket_established();
    s.view().send_slice(b"abcdef").unwrap();
    recv_is(&mut s, 1000, Ok(TcpRepr {
        seq_number: LOCAL_SEQ + 1,
        ack_number: Some(REMOTE_SEQ + 1),
        payload:    &b"abcdef"[..],
        ..RECV_TEMPL
    }));
    recv_nothing(&mut s, Instant::from_millis(1050));
    recv_is(&mut s, 2000, Ok(TcpRepr {
        seq_number: LOCAL_SEQ + 1,
        ack_number: Some(REMOTE_SEQ + 1),
        payload:    &b"abcdef"[..],
        ..RECV_TEMPL
    }));
}

#[test]
fn test_reset_clears_connection_state() {
    let mut s = socket_established();
    {
        s.remote_has_sack = true;
        s.local_rx_last_seq = Some(TcpSeqNumber(42));
    }
    s.local_rx_last_ack = Some(TcpSeqNumber(42));
    s.local_rx_dup_acks = 2;
    s.pending_fast_retransmit = true;
    {
        s.last_remote_tsval = 7;
    }

    s.reset();

    {
        assert!(!s.remote_has_sack);
        assert_eq!(s.local_rx_last_seq, None);
    }
    assert_eq!(s.local_rx_last_ack, None);
    assert_eq!(s.local_rx_dup_acks, 0);
    assert!(!s.pending_fast_retransmit);
    {
        assert_eq!(s.last_remote_tsval, 0);
    }
}

#[test]
fn test_congestion_window_limits_data_in_flight() {
    let mut s = socket_established_with_buffer_sizes(8192, 64);
    s.congestion_controller = Congestion::reno();
    s.remote_win_len = 65535;
    s.remote_mss = 1024;

    let data = [b'x'; 8192];
    s.view().send_slice(&data[..]).unwrap();

    // Reno's initial congestion window is 2048 bytes: only two
    // 1024-byte segments may be in flight, the rest must wait for ACKs.
    recv_is(&mut s, 0, Ok(TcpRepr {
        seq_number: LOCAL_SEQ + 1,
        ack_number: Some(REMOTE_SEQ + 1),
        payload: &data[..1024],
        ..RECV_TEMPL
    }));
    recv_is(&mut s, 0, Ok(TcpRepr {
        seq_number: LOCAL_SEQ + 1 + 1024,
        ack_number: Some(REMOTE_SEQ + 1),
        payload: &data[..1024],
        ..RECV_TEMPL
    }));
    recv_nothing(&mut s, Instant::from_millis(0));

    // ACKing one segment frees congestion window space and grows
    // cwnd (slow start), allowing further segments out.
    assert_eq!(
        send(&mut s, Instant::from_millis(10), &TcpRepr {
            seq_number: REMOTE_SEQ + 1,
            ack_number: Some(LOCAL_SEQ + 1 + 1024),
            window_len: 65535,
            ..SEND_TEMPL
        }),
        None
    );
    recv_is(&mut s, 10, Ok(TcpRepr {
        seq_number: LOCAL_SEQ + 1 + 2048,
        ack_number: Some(REMOTE_SEQ + 1),
        payload: &data[..1024],
        ..RECV_TEMPL
    }));
}

#[test]
fn test_congestion_window_doesnt_limit_fast_retransmit() {
    let mut s = socket_established_with_buffer_sizes(8192, 64);
    s.congestion_controller = Congestion::reno();
    s.remote_win_len = 65535;
    s.remote_mss = 1024;

    // Normal ACK of previously received segment
    assert_eq!(
        send(&mut s, Instant::from_millis(0), &TcpRepr {
            seq_number: REMOTE_SEQ + 1,
            ack_number: Some(LOCAL_SEQ + 1),
            window_len: 65535,
            ..SEND_TEMPL
        }),
        None
    );

    let data = [b'x'; 8192];
    s.view().send_slice(&data[..]).unwrap();

    // Reno's initial congestion window is 2048 bytes, allowing 2 segments
    recv_is(&mut s, 0, Ok(TcpRepr {
        seq_number: LOCAL_SEQ + 1,
        ack_number: Some(REMOTE_SEQ + 1),
        payload: &data[..1024],
        ..RECV_TEMPL
    }));

    recv_is(&mut s, 0, Ok(TcpRepr {
        seq_number: LOCAL_SEQ + 1 + 1024,
        ack_number: Some(REMOTE_SEQ + 1),
        payload: &data[..1024],
        ..RECV_TEMPL
    }));
    recv_nothing(&mut s, Instant::from_millis(0));

    // Send three duplicate ACKS, treating the first segment as lost
    assert_eq!(
        send(&mut s, Instant::from_millis(10), &TcpRepr {
            seq_number: REMOTE_SEQ + 1,
            ack_number: Some(LOCAL_SEQ + 1),
            window_len: 65535,
            ..SEND_TEMPL
        }),
        None
    );
    assert_eq!(
        send(&mut s, Instant::from_millis(10), &TcpRepr {
            seq_number: REMOTE_SEQ + 1,
            ack_number: Some(LOCAL_SEQ + 1),
            window_len: 65535,
            ..SEND_TEMPL
        }),
        None
    );
    assert_eq!(
        send(&mut s, Instant::from_millis(10), &TcpRepr {
            seq_number: REMOTE_SEQ + 1,
            ack_number: Some(LOCAL_SEQ + 1),
            window_len: 65535,
            ..SEND_TEMPL
        }),
        None
    );

    // A fast retrnasmit should be sent and not be blocked by congestion control
    recv_is(&mut s, 20, Ok(TcpRepr {
        seq_number: LOCAL_SEQ + 1,
        ack_number: Some(REMOTE_SEQ + 1),
        payload: &data[..1024],
        ..RECV_TEMPL
    }));
}

#[test]
fn test_data_retransmit_bursts() {
    let mut s = socket_established();
    s.remote_mss = 6;
    s.view().send_slice(b"abcdef012345").unwrap();

    recv_is_exactly(&mut s, 0, Ok(TcpRepr {
        control:    TcpControl::Plain,
        seq_number: LOCAL_SEQ + 1,
        ack_number: Some(REMOTE_SEQ + 1),
        payload:    &b"abcdef"[..],
        ..RECV_TEMPL
    }));
    recv_is_exactly(&mut s, 0, Ok(TcpRepr {
        control:    TcpControl::Psh,
        seq_number: LOCAL_SEQ + 1 + 6,
        ack_number: Some(REMOTE_SEQ + 1),
        payload:    &b"012345"[..],
        ..RECV_TEMPL
    }));
    recv_nothing(&mut s, Instant::from_millis(0));

    recv_nothing(&mut s, Instant::from_millis(50));

    recv_is_exactly(&mut s, 1000, Ok(TcpRepr {
        control:    TcpControl::Plain,
        seq_number: LOCAL_SEQ + 1,
        ack_number: Some(REMOTE_SEQ + 1),
        payload:    &b"abcdef"[..],
        ..RECV_TEMPL
    }));
    recv_is_exactly(&mut s, 1500, Ok(TcpRepr {
        control:    TcpControl::Psh,
        seq_number: LOCAL_SEQ + 1 + 6,
        ack_number: Some(REMOTE_SEQ + 1),
        payload:    &b"012345"[..],
        ..RECV_TEMPL
    }));
    recv_nothing(&mut s, Instant::from_millis(1550));
}

#[test]
fn test_data_retransmit_bursts_half_ack() {
    let mut s = socket_established();
    s.remote_mss = 6;
    s.view().send_slice(b"abcdef012345").unwrap();

    recv_is_exactly(&mut s, 0, Ok(TcpRepr {
        control:    TcpControl::Plain,
        seq_number: LOCAL_SEQ + 1,
        ack_number: Some(REMOTE_SEQ + 1),
        payload:    &b"abcdef"[..],
        ..RECV_TEMPL
    }));
    recv_is_exactly(&mut s, 0, Ok(TcpRepr {
        control:    TcpControl::Psh,
        seq_number: LOCAL_SEQ + 1 + 6,
        ack_number: Some(REMOTE_SEQ + 1),
        payload:    &b"012345"[..],
        ..RECV_TEMPL
    }));
    // Acknowledge the first packet
    assert_eq!(
        send(&mut s, Instant::from_millis(5), &TcpRepr {
            seq_number: REMOTE_SEQ + 1,
            ack_number: Some(LOCAL_SEQ + 1 + 6),
            window_len: 6,
            ..SEND_TEMPL
        }),
        None
    );
    // The second packet should be re-sent.
    recv_is_exactly(&mut s, 1500, Ok(TcpRepr {
        control:    TcpControl::Psh,
        seq_number: LOCAL_SEQ + 1 + 6,
        ack_number: Some(REMOTE_SEQ + 1),
        payload:    &b"012345"[..],
        ..RECV_TEMPL
    }));

    recv_nothing(&mut s, Instant::from_millis(1550));
}

#[test]
fn test_retransmit_timer_restart_on_partial_ack() {
    let mut s = socket_established();
    s.remote_mss = 6;
    s.view().send_slice(b"abcdef012345").unwrap();

    recv_is_exactly(&mut s, 0, Ok(TcpRepr {
        control:    TcpControl::Plain,
        seq_number: LOCAL_SEQ + 1,
        ack_number: Some(REMOTE_SEQ + 1),
        payload:    &b"abcdef"[..],
        ..RECV_TEMPL
    }));
    recv_is_exactly(&mut s, 0, Ok(TcpRepr {
        control:    TcpControl::Psh,
        seq_number: LOCAL_SEQ + 1 + 6,
        ack_number: Some(REMOTE_SEQ + 1),
        payload:    &b"012345"[..],
        ..RECV_TEMPL
    }));
    // Acknowledge the first packet
    assert_eq!(
        send(&mut s, Instant::from_millis(600), &TcpRepr {
            seq_number: REMOTE_SEQ + 1,
            ack_number: Some(LOCAL_SEQ + 1 + 6),
            window_len: 6,
            ..SEND_TEMPL
        }),
        None
    );
    // The ACK of the first packet should restart the retransmit timer and delay a retransmission.
    recv_nothing(&mut s, Instant::from_millis(2399));
    // The second packet should be re-sent.
    recv_is_exactly(&mut s, 2400, Ok(TcpRepr {
        control:    TcpControl::Psh,
        seq_number: LOCAL_SEQ + 1 + 6,
        ack_number: Some(REMOTE_SEQ + 1),
        payload:    &b"012345"[..],
        ..RECV_TEMPL
    }));
}

#[test]
fn test_data_retransmit_bursts_half_ack_close() {
    let mut s = socket_established();
    s.remote_mss = 6;
    s.view().send_slice(b"abcdef012345").unwrap();
    s.view().close();

    recv_is_exactly(&mut s, 0, Ok(TcpRepr {
        control:    TcpControl::Plain,
        seq_number: LOCAL_SEQ + 1,
        ack_number: Some(REMOTE_SEQ + 1),
        payload:    &b"abcdef"[..],
        ..RECV_TEMPL
    }));
    recv_is_exactly(&mut s, 0, Ok(TcpRepr {
        control:    TcpControl::Fin,
        seq_number: LOCAL_SEQ + 1 + 6,
        ack_number: Some(REMOTE_SEQ + 1),
        payload:    &b"012345"[..],
        ..RECV_TEMPL
    }));
    // Acknowledge the first packet
    assert_eq!(
        send(&mut s, Instant::from_millis(5), &TcpRepr {
            seq_number: REMOTE_SEQ + 1,
            ack_number: Some(LOCAL_SEQ + 1 + 6),
            window_len: 6,
            ..SEND_TEMPL
        }),
        None
    );
    // The second packet should be re-sent.
    recv_is_exactly(&mut s, 1500, Ok(TcpRepr {
        control:    TcpControl::Fin,
        seq_number: LOCAL_SEQ + 1 + 6,
        ack_number: Some(REMOTE_SEQ + 1),
        payload:    &b"012345"[..],
        ..RECV_TEMPL
    }));

    recv_nothing(&mut s, Instant::from_millis(1550));
}

#[test]
fn test_send_data_after_syn_ack_retransmit() {
    let mut s = socket_syn_received();
    recv_is(&mut s, 50, Ok(TcpRepr {
        control:    TcpControl::Syn,
        seq_number: LOCAL_SEQ,
        ack_number: Some(REMOTE_SEQ + 1),
        max_seg_size: Some(BASE_MSS),
        ..RECV_TEMPL
    }));
    recv_is(&mut s, 1050, Ok(TcpRepr { // retransmit
        control:    TcpControl::Syn,
        seq_number: LOCAL_SEQ,
        ack_number: Some(REMOTE_SEQ + 1),
        max_seg_size: Some(BASE_MSS),
        ..RECV_TEMPL
    }));
    assert_eq!(
        send(&mut s, Instant::from_millis(0), &TcpRepr {
            seq_number: REMOTE_SEQ + 1,
            ack_number: Some(LOCAL_SEQ + 1),
            ..SEND_TEMPL
        }),
        None
    );
    assert_eq!(s.view().state(), State::Established);
    s.view().send_slice(b"abcdef").unwrap();
    recv_is(&mut s, 0, Ok(TcpRepr {
        seq_number: LOCAL_SEQ + 1,
        ack_number: Some(REMOTE_SEQ + 1),
        payload: &b"abcdef"[..],
        ..RECV_TEMPL
    }));
    recv_nothing(&mut s, Instant::from_millis(0))
}

#[test]
fn test_established_retransmit_for_dup_ack() {
    let mut s = socket_established();
    // Duplicate ACKs do not replace the retransmission timer
    s.view().send_slice(b"abc").unwrap();
    recv_is(&mut s, 1000, Ok(TcpRepr {
        seq_number: LOCAL_SEQ + 1,
        ack_number: Some(REMOTE_SEQ + 1),
        payload:    &b"abc"[..],
        ..RECV_TEMPL
    }));
    // Retransmit timer is on because all data was sent
    assert_eq!(s.tx_buffer.len(), 3);
    // ACK nothing new
    assert_eq!(
        send(&mut s, Instant::from_millis(0), &TcpRepr {
            seq_number: REMOTE_SEQ + 1,
            ack_number: Some(LOCAL_SEQ + 1),
            ..SEND_TEMPL
        }),
        None
    );
    // Retransmit
    recv_is(&mut s, 4000, Ok(TcpRepr {
        seq_number: LOCAL_SEQ + 1,
        ack_number: Some(REMOTE_SEQ + 1),
        payload:    &b"abc"[..],
        ..RECV_TEMPL
    }));
}

#[test]
fn test_established_retransmit_reset_after_ack() {
    let mut s = socket_established();
    s.remote_win_len = 6;
    s.view().send_slice(b"abcdef").unwrap();
    s.view().send_slice(b"123456").unwrap();
    s.view().send_slice(b"ABCDEF").unwrap();
    recv_is(&mut s, 1000, Ok(TcpRepr {
        seq_number: LOCAL_SEQ + 1,
        ack_number: Some(REMOTE_SEQ + 1),
        payload:    &b"abcdef"[..],
        ..RECV_TEMPL
    }));
    assert_eq!(
        send(&mut s, Instant::from_millis(1005), &TcpRepr {
            seq_number: REMOTE_SEQ + 1,
            ack_number: Some(LOCAL_SEQ + 1 + 6),
            window_len: 6,
            ..SEND_TEMPL
        }),
        None
    );
    recv_is(&mut s, 1010, Ok(TcpRepr {
        seq_number: LOCAL_SEQ + 1 + 6,
        ack_number: Some(REMOTE_SEQ + 1),
        payload:    &b"123456"[..],
        ..RECV_TEMPL
    }));
    assert_eq!(
        send(&mut s, Instant::from_millis(1015), &TcpRepr {
            seq_number: REMOTE_SEQ + 1,
            ack_number: Some(LOCAL_SEQ + 1 + 6 + 6),
            window_len: 6,
            ..SEND_TEMPL
        }),
        None
    );
    recv_is(&mut s, 1020, Ok(TcpRepr {
        seq_number: LOCAL_SEQ + 1 + 6 + 6,
        ack_number: Some(REMOTE_SEQ + 1),
        payload:    &b"ABCDEF"[..],
        ..RECV_TEMPL
    }));
}

#[test]
fn test_established_queue_during_retransmission() {
    let mut s = socket_established();
    s.remote_mss = 6;
    s.view().send_slice(b"abcdef123456ABCDEF").unwrap();
    recv_is(&mut s, 1000, Ok(TcpRepr {
        seq_number: LOCAL_SEQ + 1,
        ack_number: Some(REMOTE_SEQ + 1),
        payload:    &b"abcdef"[..],
        ..RECV_TEMPL
    })); // this one is dropped
    recv_is(&mut s, 1005, Ok(TcpRepr {
        seq_number: LOCAL_SEQ + 1 + 6,
        ack_number: Some(REMOTE_SEQ + 1),
        payload:    &b"123456"[..],
        ..RECV_TEMPL
    })); // this one is received
    recv_is(&mut s, 1010, Ok(TcpRepr {
        seq_number: LOCAL_SEQ + 1 + 6 + 6,
        ack_number: Some(REMOTE_SEQ + 1),
        payload:    &b"ABCDEF"[..],
        ..RECV_TEMPL
    })); // also dropped
    recv_is(&mut s, 3000, Ok(TcpRepr {
        seq_number: LOCAL_SEQ + 1,
        ack_number: Some(REMOTE_SEQ + 1),
        payload:    &b"abcdef"[..],
        ..RECV_TEMPL
    })); // retransmission
    assert_eq!(
        send(&mut s, Instant::from_millis(3005), &TcpRepr {
            seq_number: REMOTE_SEQ + 1,
            ack_number: Some(LOCAL_SEQ + 1 + 6 + 6),
            ..SEND_TEMPL
        }),
        None
    ); // acknowledgement of both segments
    recv_is(&mut s, 3010, Ok(TcpRepr {
        seq_number: LOCAL_SEQ + 1 + 6 + 6,
        ack_number: Some(REMOTE_SEQ + 1),
        payload:    &b"ABCDEF"[..],
        ..RECV_TEMPL
    })); // retransmission of only unacknowledged data
}

#[test]
fn test_close_wait_retransmit_reset_after_ack() {
    let mut s = socket_close_wait();
    s.remote_win_len = 6;
    s.view().send_slice(b"abcdef").unwrap();
    s.view().send_slice(b"123456").unwrap();
    s.view().send_slice(b"ABCDEF").unwrap();
    recv_is(&mut s, 1000, Ok(TcpRepr {
        seq_number: LOCAL_SEQ + 1,
        ack_number: Some(REMOTE_SEQ + 1 + 1),
        payload:    &b"abcdef"[..],
        ..RECV_TEMPL
    }));
    assert_eq!(
        send(&mut s, Instant::from_millis(1005), &TcpRepr {
            seq_number: REMOTE_SEQ + 1 + 1,
            ack_number: Some(LOCAL_SEQ + 1 + 6),
            window_len: 6,
            ..SEND_TEMPL
        }),
        None
    );
    recv_is(&mut s, 1010, Ok(TcpRepr {
        seq_number: LOCAL_SEQ + 1 + 6,
        ack_number: Some(REMOTE_SEQ + 1 + 1),
        payload:    &b"123456"[..],
        ..RECV_TEMPL
    }));
    assert_eq!(
        send(&mut s, Instant::from_millis(1015), &TcpRepr {
            seq_number: REMOTE_SEQ + 1 + 1,
            ack_number: Some(LOCAL_SEQ + 1 + 6 + 6),
            window_len: 6,
            ..SEND_TEMPL
        }),
        None
    );
    recv_is(&mut s, 1020, Ok(TcpRepr {
        seq_number: LOCAL_SEQ + 1 + 6 + 6,
        ack_number: Some(REMOTE_SEQ + 1 + 1),
        payload:    &b"ABCDEF"[..],
        ..RECV_TEMPL
    }));
}

#[test]
fn test_fin_wait_1_retransmit_reset_after_ack() {
    let mut s = socket_established();
    s.remote_win_len = 6;
    s.view().send_slice(b"abcdef").unwrap();
    s.view().send_slice(b"123456").unwrap();
    s.view().send_slice(b"ABCDEF").unwrap();
    s.view().close();
    recv_is(&mut s, 1000, Ok(TcpRepr {
        seq_number: LOCAL_SEQ + 1,
        ack_number: Some(REMOTE_SEQ + 1),
        payload:    &b"abcdef"[..],
        ..RECV_TEMPL
    }));
    assert_eq!(
        send(&mut s, Instant::from_millis(1005), &TcpRepr {
            seq_number: REMOTE_SEQ + 1,
            ack_number: Some(LOCAL_SEQ + 1 + 6),
            window_len: 6,
            ..SEND_TEMPL
        }),
        None
    );
    recv_is(&mut s, 1010, Ok(TcpRepr {
        seq_number: LOCAL_SEQ + 1 + 6,
        ack_number: Some(REMOTE_SEQ + 1),
        payload:    &b"123456"[..],
        ..RECV_TEMPL
    }));
    assert_eq!(
        send(&mut s, Instant::from_millis(1015), &TcpRepr {
            seq_number: REMOTE_SEQ + 1,
            ack_number: Some(LOCAL_SEQ + 1 + 6 + 6),
            window_len: 6,
            ..SEND_TEMPL
        }),
        None
    );
    recv_is(&mut s, 1020, Ok(TcpRepr {
        control:    TcpControl::Fin,
        seq_number: LOCAL_SEQ + 1 + 6 + 6,
        ack_number: Some(REMOTE_SEQ + 1),
        payload:    &b"ABCDEF"[..],
        ..RECV_TEMPL
    }));
}

#[test]
fn test_fast_retransmit_after_triple_duplicate_ack() {
    let mut s = socket_established();
    s.remote_mss = 3;

    // Normal ACK of previously received segment
    assert_eq!(
        send(&mut s, Instant::from_millis(0), &TcpRepr {
            seq_number: REMOTE_SEQ + 1,
            ack_number: Some(LOCAL_SEQ + 1),
            ..SEND_TEMPL
        }),
        None
    );

    // Send a long string of text divided into several packets
    // because of previously received "window_len"
    s.view().send_slice(b"aaaBBBcccDDDeeeFFF").unwrap();

    // This packet is lost
    recv_is(&mut s, 1000, Ok(TcpRepr {
        seq_number: LOCAL_SEQ + 1,
        ack_number: Some(REMOTE_SEQ + 1),
        payload:    &b"aaa"[..],
        ..RECV_TEMPL
    }));

    // These packets arrive
    recv_is(&mut s, 1005, Ok(TcpRepr {
        seq_number: LOCAL_SEQ + 1 + 3,
        ack_number: Some(REMOTE_SEQ + 1),
        payload:    &b"BBB"[..],
        ..RECV_TEMPL
    }));
    recv_is(&mut s, 1010, Ok(TcpRepr {
        seq_number: LOCAL_SEQ + 1 + (3 * 2),
        ack_number: Some(REMOTE_SEQ + 1),
        payload:    &b"ccc"[..],
        ..RECV_TEMPL
    }));
    recv_is(&mut s, 1015, Ok(TcpRepr {
        seq_number: LOCAL_SEQ + 1 + (3 * 3),
        ack_number: Some(REMOTE_SEQ + 1),
        payload:    &b"DDD"[..],
        ..RECV_TEMPL
    }));

    // Duplicate ACKs trigger fast rentramsit after 3rd successive one
    assert_eq!(
        send(&mut s, Instant::from_millis(1050), &TcpRepr {
            seq_number: REMOTE_SEQ + 1,
            ack_number: Some(LOCAL_SEQ + 1),
            ..SEND_TEMPL
        }),
        None
    );
    assert_eq!(
        send(&mut s, Instant::from_millis(1055), &TcpRepr {
            seq_number: REMOTE_SEQ + 1,
            ack_number: Some(LOCAL_SEQ + 1),
            ..SEND_TEMPL
        }),
        None
    );
    assert_eq!(
        send(&mut s, Instant::from_millis(1060), &TcpRepr {
            seq_number: REMOTE_SEQ + 1,
            ack_number: Some(LOCAL_SEQ + 1),
            ..SEND_TEMPL
        }),
        None
    );

    // Fast retransmit should have triggered
    recv_is(&mut s, 1100, Ok(TcpRepr {
        seq_number: LOCAL_SEQ + 1,
        ack_number: Some(REMOTE_SEQ + 1),
        payload:    &b"aaa"[..],
        ..RECV_TEMPL
    }));

    // Transmission should continue as normal after re-transitting the first segment
    recv_is(&mut s, 1105, Ok(TcpRepr {
        seq_number: LOCAL_SEQ + 1 + (3 * 4),
        ack_number: Some(REMOTE_SEQ + 1),
        payload:    &b"eee"[..],
        ..RECV_TEMPL
    }));
    recv_is(&mut s, 1110, Ok(TcpRepr {
        seq_number: LOCAL_SEQ + 1 + (3 * 5),
        ack_number: Some(REMOTE_SEQ + 1),
        payload:    &b"FFF"[..],
        ..RECV_TEMPL
    }));

    // ACK all received segments
    assert_eq!(
        send(&mut s, Instant::from_millis(1120), &TcpRepr {
            seq_number: REMOTE_SEQ + 1,
            ack_number: Some(LOCAL_SEQ + 1 + (3 * 5)),
            ..SEND_TEMPL
        }),
        None
    );
}

#[test]
fn test_fast_retransmit_duplicate_detection_with_data() {
    let mut s = socket_established();

    s.view().send_slice(b"abc").unwrap(); // This is lost
    recv_is(&mut s, 1000, Ok(TcpRepr {
        seq_number: LOCAL_SEQ + 1,
        ack_number: Some(REMOTE_SEQ + 1),
        payload:    &b"abc"[..],
        ..RECV_TEMPL
    }));

    // Normal ACK of previously received segment
    assert_eq!(
        send(&mut s, Instant::from_millis(0), &TcpRepr {
            seq_number: REMOTE_SEQ + 1,
            ack_number: Some(LOCAL_SEQ + 1),
            ..SEND_TEMPL
        }),
        None
    );
    // First duplicate
    assert_eq!(
        send(&mut s, Instant::from_millis(0), &TcpRepr {
            seq_number: REMOTE_SEQ + 1,
            ack_number: Some(LOCAL_SEQ + 1),
            ..SEND_TEMPL
        }),
        None
    );
    // Second duplicate
    assert_eq!(
        send(&mut s, Instant::from_millis(0), &TcpRepr {
            seq_number: REMOTE_SEQ + 1,
            ack_number: Some(LOCAL_SEQ + 1),
            ..SEND_TEMPL
        }),
        None
    );

    assert_eq!(s.local_rx_dup_acks, 2, "duplicate ACK counter is not set");

    // This packet has content, hence should not be detected
    // as a duplicate ACK and should reset the duplicate ACK count
    assert_eq!(
        send(&mut s, Instant::from_millis(0), &TcpRepr {
            seq_number: REMOTE_SEQ + 1,
            ack_number: Some(LOCAL_SEQ + 1),
            payload: &b"xxxxxx"[..],
            ..SEND_TEMPL
        }),
        None
    );

    recv_is(&mut s, 0, Ok(TcpRepr {
        seq_number: LOCAL_SEQ + 1 + 3,
        ack_number: Some(REMOTE_SEQ + 1 + 6),
        window_len: 58,
        ..RECV_TEMPL
    }));
    recv_nothing(&mut s, Instant::from_millis(0));

    assert_eq!(
        s.local_rx_dup_acks, 0,
        "duplicate ACK counter is not reset when receiving data"
    );
}

#[test]
fn test_fast_retransmit_duplicate_detection_with_window_update() {
    let mut s = socket_established();

    s.view().send_slice(b"abc").unwrap(); // This is lost
    recv_is(&mut s, 1000, Ok(TcpRepr {
        seq_number: LOCAL_SEQ + 1,
        ack_number: Some(REMOTE_SEQ + 1),
        payload:    &b"abc"[..],
        ..RECV_TEMPL
    }));

    // Normal ACK of previously received segment
    assert_eq!(
        send(&mut s, Instant::from_millis(0), &TcpRepr {
            seq_number: REMOTE_SEQ + 1,
            ack_number: Some(LOCAL_SEQ + 1),
            ..SEND_TEMPL
        }),
        None
    );
    // First duplicate
    assert_eq!(
        send(&mut s, Instant::from_millis(0), &TcpRepr {
            seq_number: REMOTE_SEQ + 1,
            ack_number: Some(LOCAL_SEQ + 1),
            ..SEND_TEMPL
        }),
        None
    );
    // Second duplicate
    assert_eq!(
        send(&mut s, Instant::from_millis(0), &TcpRepr {
            seq_number: REMOTE_SEQ + 1,
            ack_number: Some(LOCAL_SEQ + 1),
            ..SEND_TEMPL
        }),
        None
    );

    assert_eq!(s.local_rx_dup_acks, 2, "duplicate ACK counter is not set");

    // This packet has a window update, hence should not be detected
    // as a duplicate ACK and should reset the duplicate ACK count
    assert_eq!(
        send(&mut s, Instant::from_millis(0), &TcpRepr {
            seq_number: REMOTE_SEQ + 1,
            ack_number: Some(LOCAL_SEQ + 1),
            window_len: 400,
            ..SEND_TEMPL
        }),
        None
    );

    assert_eq!(
        s.local_rx_dup_acks, 0,
        "duplicate ACK counter is not reset when receiving a window update"
    );
}

#[test]
fn test_fast_retransmit_duplicate_detection() {
    let mut s = socket_established();
    s.remote_mss = 6;

    // Normal ACK of previously received segment
    assert_eq!(
        send(&mut s, Instant::from_millis(0), &TcpRepr {
            seq_number: REMOTE_SEQ + 1,
            ack_number: Some(LOCAL_SEQ + 1),
            ..SEND_TEMPL
        }),
        None
    );

    // First duplicate, should not be counted as there is nothing to resend
    assert_eq!(
        send(&mut s, Instant::from_millis(0), &TcpRepr {
            seq_number: REMOTE_SEQ + 1,
            ack_number: Some(LOCAL_SEQ + 1),
            ..SEND_TEMPL
        }),
        None
    );

    assert_eq!(
        s.local_rx_dup_acks, 0,
        "duplicate ACK counter is set but wound not transmit data"
    );

    // Send a long string of text divided into several packets
    // because of small remote_mss
    s.view().send_slice(b"xxxxxxyyyyyywwwwwwzzzzzz").unwrap();

    // This packet is reordered in network
    recv_is(&mut s, 1000, Ok(TcpRepr {
        seq_number: LOCAL_SEQ + 1,
        ack_number: Some(REMOTE_SEQ + 1),
        payload:    &b"xxxxxx"[..],
        ..RECV_TEMPL
    }));
    recv_is(&mut s, 1005, Ok(TcpRepr {
        seq_number: LOCAL_SEQ + 1 + 6,
        ack_number: Some(REMOTE_SEQ + 1),
        payload:    &b"yyyyyy"[..],
        ..RECV_TEMPL
    }));
    recv_is(&mut s, 1010, Ok(TcpRepr {
        seq_number: LOCAL_SEQ + 1 + (6 * 2),
        ack_number: Some(REMOTE_SEQ + 1),
        payload:    &b"wwwwww"[..],
        ..RECV_TEMPL
    }));
    recv_is(&mut s, 1015, Ok(TcpRepr {
        seq_number: LOCAL_SEQ + 1 + (6 * 3),
        ack_number: Some(REMOTE_SEQ + 1),
        payload:    &b"zzzzzz"[..],
        ..RECV_TEMPL
    }));

    // First duplicate ACK
    assert_eq!(
        send(&mut s, Instant::from_millis(1050), &TcpRepr {
            seq_number: REMOTE_SEQ + 1,
            ack_number: Some(LOCAL_SEQ + 1),
            ..SEND_TEMPL
        }),
        None
    );
    // Second duplicate ACK
    assert_eq!(
        send(&mut s, Instant::from_millis(1055), &TcpRepr {
            seq_number: REMOTE_SEQ + 1,
            ack_number: Some(LOCAL_SEQ + 1),
            ..SEND_TEMPL
        }),
        None
    );
    // Reordered packet arrives which should reset duplicate ACK count
    assert_eq!(
        send(&mut s, Instant::from_millis(1060), &TcpRepr {
            seq_number: REMOTE_SEQ + 1,
            ack_number: Some(LOCAL_SEQ + 1 + (6 * 3)),
            ..SEND_TEMPL
        }),
        None
    );

    assert_eq!(
        s.local_rx_dup_acks, 0,
        "duplicate ACK counter is not reset when receiving ACK which updates send window"
    );

    // ACK all received segments
    assert_eq!(
        send(&mut s, Instant::from_millis(1120), &TcpRepr {
            seq_number: REMOTE_SEQ + 1,
            ack_number: Some(LOCAL_SEQ + 1 + (6 * 4)),
            ..SEND_TEMPL
        }),
        None
    );
}

#[test]
fn test_fast_retransmit_dup_acks_counter() {
    let mut s = socket_established();

    s.view().send_slice(b"abc").unwrap(); // This is lost
    recv_is(&mut s, 0, Ok(TcpRepr {
        seq_number: LOCAL_SEQ + 1,
        ack_number: Some(REMOTE_SEQ + 1),
        payload:    &b"abc"[..],
        ..RECV_TEMPL
    }));

    assert_eq!(
        send(&mut s, Instant::from_millis(0), &TcpRepr {
            seq_number: REMOTE_SEQ + 1,
            ack_number: Some(LOCAL_SEQ + 1),
            ..SEND_TEMPL
        }),
        None
    );

    // A lot of retransmits happen here
    s.local_rx_dup_acks = u8::MAX - 1;

    // Send 3 more ACKs, which could overflow local_rx_dup_acks,
    // but intended behaviour is that we saturate the bounds
    // of local_rx_dup_acks
    assert_eq!(
        send(&mut s, Instant::from_millis(0), &TcpRepr {
            seq_number: REMOTE_SEQ + 1,
            ack_number: Some(LOCAL_SEQ + 1),
            ..SEND_TEMPL
        }),
        None
    );
    assert_eq!(
        send(&mut s, Instant::from_millis(0), &TcpRepr {
            seq_number: REMOTE_SEQ + 1,
            ack_number: Some(LOCAL_SEQ + 1),
            ..SEND_TEMPL
        }),
        None
    );
    assert_eq!(
        send(&mut s, Instant::from_millis(0), &TcpRepr {
            seq_number: REMOTE_SEQ + 1,
            ack_number: Some(LOCAL_SEQ + 1),
            ..SEND_TEMPL
        }),
        None
    );
    assert_eq!(
        s.local_rx_dup_acks,
        u8::MAX,
        "duplicate ACK count should not overflow but saturate"
    );
}

#[test]
fn test_fast_retransmit_zero_window() {
    let mut s = socket_established();

    assert_eq!(
        send(&mut s, Instant::from_millis(1000), &TcpRepr {
            seq_number: REMOTE_SEQ + 1,
            ack_number: Some(LOCAL_SEQ + 1),
            ..SEND_TEMPL
        }),
        None
    );

    s.view().send_slice(b"abc").unwrap();

    recv_is(&mut s, 0, Ok(TcpRepr {
        seq_number: LOCAL_SEQ + 1,
        ack_number: Some(REMOTE_SEQ + 1),
        payload:    &b"abc"[..],
        ..RECV_TEMPL
    }));

    // 3 dup acks
    assert_eq!(
        send(&mut s, Instant::from_millis(1050), &TcpRepr {
            seq_number: REMOTE_SEQ + 1,
            ack_number: Some(LOCAL_SEQ + 1),
            ..SEND_TEMPL
        }),
        None
    );
    assert_eq!(
        send(&mut s, Instant::from_millis(1050), &TcpRepr {
            seq_number: REMOTE_SEQ + 1,
            ack_number: Some(LOCAL_SEQ + 1),
            ..SEND_TEMPL
        }),
        None
    );
    assert_eq!(
        send(&mut s, Instant::from_millis(1050), &TcpRepr {
            seq_number: REMOTE_SEQ + 1,
            ack_number: Some(LOCAL_SEQ + 1),
            window_len: 0, // boom
            ..SEND_TEMPL
        }),
        None
    );

    // even though we're in "fast retransmit", we shouldn't
    // force-send anything because the remote's window is full.
    recv_nothing(&mut s, Instant::from_millis(0));
}

#[test]
fn test_retransmit_exponential_backoff() {
    let mut s = socket_established();
    s.view().send_slice(b"abcdef").unwrap();
    recv_is(&mut s, 0, Ok(TcpRepr {
        seq_number: LOCAL_SEQ + 1,
        ack_number: Some(REMOTE_SEQ + 1),
        payload:    &b"abcdef"[..],
        ..RECV_TEMPL
    }));

    let expected_retransmission_instant = s.rtte.retransmission_timeout().total_millis() as i64;
    recv_nothing(&mut s, Instant::from_millis(expected_retransmission_instant - 1));
    recv_is(&mut s, expected_retransmission_instant, Ok(TcpRepr {
        seq_number: LOCAL_SEQ + 1,
        ack_number: Some(REMOTE_SEQ + 1),
        payload:    &b"abcdef"[..],
        ..RECV_TEMPL
    }));

    // "current time" is expected_retransmission_instant, and we want to wait 2 * retransmission timeout
    let expected_retransmission_instant = 3 * expected_retransmission_instant;

    recv_nothing(&mut s, Instant::from_millis(expected_retransmission_instant - 1));
    recv_is(&mut s, expected_retransmission_instant, Ok(TcpRepr {
        seq_number: LOCAL_SEQ + 1,
        ack_number: Some(REMOTE_SEQ + 1),
        payload:    &b"abcdef"[..],
        ..RECV_TEMPL
    }));
}

#[test]
fn test_data_retransmit_ack_more_than_expected() {
    let mut s = socket_established();
    s.remote_mss = 6;
    s.view().send_slice(b"aaaaaabbbbbbcccccc").unwrap();

    recv_is(&mut s, 0, Ok(TcpRepr {
        seq_number: LOCAL_SEQ + 1,
        ack_number: Some(REMOTE_SEQ + 1),
        payload:    &b"aaaaaa"[..],
        ..RECV_TEMPL
    }));
    recv_is(&mut s, 0, Ok(TcpRepr {
        seq_number: LOCAL_SEQ + 1 + 6,
        ack_number: Some(REMOTE_SEQ + 1),
        payload:    &b"bbbbbb"[..],
        ..RECV_TEMPL
    }));
    recv_is(&mut s, 0, Ok(TcpRepr {
        seq_number: LOCAL_SEQ + 1 + 12,
        ack_number: Some(REMOTE_SEQ + 1),
        payload:    &b"cccccc"[..],
        ..RECV_TEMPL
    }));
    recv_nothing(&mut s, Instant::from_millis(0));

    recv_nothing(&mut s, Instant::from_millis(50));

    // retransmit timer expires, we want to retransmit all 3 packets
    // but we only manage to retransmit 2 (due to e.g. lack of device buffer space)
    assert!(s.timer.is_retransmit());
    recv_is(&mut s, 1000, Ok(TcpRepr {
        seq_number: LOCAL_SEQ + 1,
        ack_number: Some(REMOTE_SEQ + 1),
        payload:    &b"aaaaaa"[..],
        ..RECV_TEMPL
    }));
    recv_is(&mut s, 1000, Ok(TcpRepr {
        seq_number: LOCAL_SEQ + 1 + 6,
        ack_number: Some(REMOTE_SEQ + 1),
        payload:    &b"bbbbbb"[..],
        ..RECV_TEMPL
    }));

    // ack first packet.
    assert_eq!(
        send(&mut s, Instant::from_millis(3000), &TcpRepr {
            seq_number: REMOTE_SEQ + 1,
            ack_number: Some(LOCAL_SEQ + 1 + 6),
            ..SEND_TEMPL
        }),
        None
    );

    // this should keep retransmit timer on, because there's
    // still unacked data.
    assert!(s.timer.is_retransmit());

    // ack all three packets.
    // This might confuse the TCP stack because after the retransmit
    // it "thinks" the 3rd packet hasn't been transmitted yet, but it is getting acked.
    assert_eq!(
        send(&mut s, Instant::from_millis(3000), &TcpRepr {
            seq_number: REMOTE_SEQ + 1,
            ack_number: Some(LOCAL_SEQ + 1 + 18),
            ..SEND_TEMPL
        }),
        None
    );

    // this should exit retransmit mode.
    assert!(!s.timer.is_retransmit());
    // and consider all data ACKed.
    assert!(s.tx_buffer.is_empty());
    recv_nothing(&mut s, Instant::from_millis(5000));
}

#[test]
fn test_retransmit_fin() {
    let mut s = socket_established();
    s.view().close();
    recv_is(&mut s, 0, Ok(TcpRepr {
        control: TcpControl::Fin,
        seq_number: LOCAL_SEQ + 1,
        ack_number: Some(REMOTE_SEQ + 1),
        ..RECV_TEMPL
    }));

    recv_nothing(&mut s, Instant::from_millis(999));
    recv_is(&mut s, 1000, Ok(TcpRepr {
        control: TcpControl::Fin,
        seq_number: LOCAL_SEQ + 1,
        ack_number: Some(REMOTE_SEQ + 1),
        ..RECV_TEMPL
    }));
}

#[test]
fn test_retransmit_fin_wait() {
    let mut s = socket_fin_wait_1();
    // we send FIN
    recv_is(&mut s, 0, Ok(TcpRepr {
        control: TcpControl::Fin,
        seq_number: LOCAL_SEQ + 1,
        ack_number: Some(REMOTE_SEQ + 1),
        ..RECV_TEMPL
    }));
    recv_nothing(&mut s, Instant::from_millis(0));
    // remote also sends FIN, does NOT ack ours.
    assert_eq!(
        send(&mut s, Instant::from_millis(0), &TcpRepr {
            control: TcpControl::Fin,
            seq_number: REMOTE_SEQ + 1,
            ack_number: Some(LOCAL_SEQ + 1),
            ..SEND_TEMPL
        }),
        None
    );
    // we ack it
    recv_is(&mut s, 0, Ok(TcpRepr {
        control: TcpControl::Plain,
        seq_number: LOCAL_SEQ + 2,
        ack_number: Some(REMOTE_SEQ + 2),
        ..RECV_TEMPL
    }));
    recv_nothing(&mut s, Instant::from_millis(0));

    // we haven't got an ACK for our FIN, we should retransmit.
    recv_nothing(&mut s, Instant::from_millis(999));
    recv_is(&mut s, 1000, Ok(TcpRepr {
        control: TcpControl::Fin,
        seq_number: LOCAL_SEQ + 1,
        ack_number: Some(REMOTE_SEQ + 2),
        ..RECV_TEMPL
    }));
    recv_nothing(&mut s, Instant::from_millis(1000));
    recv_nothing(&mut s, Instant::from_millis(2999));
    recv_is(&mut s, 3000, Ok(TcpRepr {
        control: TcpControl::Fin,
        seq_number: LOCAL_SEQ + 1,
        ack_number: Some(REMOTE_SEQ + 2),
        ..RECV_TEMPL
    }));
    recv_nothing(&mut s, Instant::from_millis(3000));
}

// =========================================================================================//
// Tests for window management.
// =========================================================================================//

#[test]
fn test_maximum_segment_size() {
    let mut s = socket_established_with_buffer_sizes(32767, 64);
    // The remote advertised MSS 1000 in its SYN, and a 32767-byte window in
    // its handshake ACK: segments are capped at 1000 bytes.
    s.remote_mss = 1000;
    s.remote_win_len = 32767;
    s.view().send_slice(&[0; 1200][..]).unwrap();
    recv_is(&mut s, 0, Ok(TcpRepr {
        seq_number: LOCAL_SEQ + 1,
        ack_number: Some(REMOTE_SEQ + 1),
        payload: &[0; 1000][..],
        ..RECV_TEMPL
    }));
}

#[test]
fn test_recv_out_of_recv_win() {
    let mut s = socket_established();
    s.view().set_ack_delay(Some(Duration::from_millis(ACK_DELAY_DEFAULT_MS)));
    s.remote_mss = 32;

    // No ACKs are sent due to the ACK delay.
    assert_eq!(
        send(&mut s, Instant::from_millis(0), &TcpRepr {
            control: TcpControl::Psh,
            seq_number: REMOTE_SEQ + 1,
            ack_number: Some(LOCAL_SEQ + 1),
            payload: &[0; 32],
            ..SEND_TEMPL
        }),
        None
    );
    recv_nothing(&mut s, Instant::from_millis(0));

    // RMSS+1 bytes of data has been received, so ACK is sent without delay.
    assert_eq!(
        send(&mut s, Instant::from_millis(0), &TcpRepr {
            control: TcpControl::Psh,
            seq_number: REMOTE_SEQ + 33,
            ack_number: Some(LOCAL_SEQ + 1),
            payload: &[0; 1],
            ..SEND_TEMPL
        }),
        None
    );
    recv_is(&mut s, 0, Ok(TcpRepr {
        seq_number: LOCAL_SEQ + 1,
        ack_number: Some(REMOTE_SEQ + 34),
        window_len: 31,
        ..RECV_TEMPL
    }));

    // This frees up a byte in the receive buffer. However, the remote shouldn't be aware of
    // this since no ACKs are sent.
    s.view().recv_slice(&mut [0; 1]).unwrap();
    recv_nothing(&mut s, Instant::from_millis(0));

    // Now, if the remote wants to send one byte outside of the receive window that we
    // previously advertised, it should not succeed.
    assert_eq!(
        send(&mut s, Instant::from_millis(0), &TcpRepr {
            control: TcpControl::Psh,
            seq_number: REMOTE_SEQ + 34,
            ack_number: Some(LOCAL_SEQ + 1),
            payload: &[0; 32],
            ..SEND_TEMPL
        }),
        None
    );
    recv_is(&mut s, 0, Ok(TcpRepr {
        seq_number: LOCAL_SEQ + 1,
        ack_number: Some(REMOTE_SEQ + 65),
        window_len: 1, // The last byte isn't accepted.
        ..RECV_TEMPL
    }));
}

#[test]
fn test_close_wait_no_window_update() {
    let mut s = socket_established();
    assert_eq!(
        send(&mut s, Instant::from_millis(0), &TcpRepr {
            control: TcpControl::Fin,
            seq_number: REMOTE_SEQ + 1,
            ack_number: Some(LOCAL_SEQ + 1),
            payload: &[1, 2, 3, 4],
            ..SEND_TEMPL
        }),
        None
    );
    assert_eq!(s.state, State::CloseWait);

    // we ack the FIN, with the reduced window size.
    recv_is(&mut s, 0, Ok(TcpRepr {
        seq_number: LOCAL_SEQ + 1,
        ack_number: Some(REMOTE_SEQ + 6),
        window_len: 60,
        ..RECV_TEMPL
    }));

    let rx_buf = &mut [0; 32];
    assert_eq!(s.view().recv_slice(rx_buf), Ok(4));

    // check that we do NOT send a window update even if it has changed.
    recv_nothing(&mut s, Instant::from_millis(0));
}

#[test]
fn test_time_wait_no_window_update() {
    let mut s = socket_fin_wait_2();
    assert_eq!(
        send(&mut s, Instant::from_millis(0), &TcpRepr {
            control: TcpControl::Fin,
            seq_number: REMOTE_SEQ + 1,
            ack_number: Some(LOCAL_SEQ + 2),
            payload: &[1, 2, 3, 4],
            ..SEND_TEMPL
        }),
        None
    );
    assert_eq!(s.state, State::TimeWait);

    // we ack the FIN, with the reduced window size.
    recv_is(&mut s, 0, Ok(TcpRepr {
        seq_number: LOCAL_SEQ + 2,
        ack_number: Some(REMOTE_SEQ + 6),
        window_len: 60,
        ..RECV_TEMPL
    }));

    let rx_buf = &mut [0; 32];
    assert_eq!(s.view().recv_slice(rx_buf), Ok(4));

    // check that we do NOT send a window update even if it has changed.
    recv_nothing(&mut s, Instant::from_millis(0));
}

// =========================================================================================//
// Tests for flow control.
// =========================================================================================//

#[test]
fn test_psh_transmit() {
    let mut s = socket_established();
    s.remote_mss = 6;
    s.view().send_slice(b"abcdef").unwrap();
    s.view().send_slice(b"123456").unwrap();
    recv_is_exactly(&mut s, 0, Ok(TcpRepr {
        control:    TcpControl::Plain,
        seq_number: LOCAL_SEQ + 1,
        ack_number: Some(REMOTE_SEQ + 1),
        payload:    &b"abcdef"[..],
        ..RECV_TEMPL
    }));
    recv_is_exactly(&mut s, 0, Ok(TcpRepr {
        control:    TcpControl::Psh,
        seq_number: LOCAL_SEQ + 1 + 6,
        ack_number: Some(REMOTE_SEQ + 1),
        payload:    &b"123456"[..],
        ..RECV_TEMPL
    }));
}

#[test]
fn test_psh_receive() {
    let mut s = socket_established();
    assert_eq!(
        send(&mut s, Instant::from_millis(0), &TcpRepr {
            control: TcpControl::Psh,
            seq_number: REMOTE_SEQ + 1,
            ack_number: Some(LOCAL_SEQ + 1),
            payload: &b"abcdef"[..],
            ..SEND_TEMPL
        }),
        None
    );
    recv_is(&mut s, 0, Ok(TcpRepr {
        seq_number: LOCAL_SEQ + 1,
        ack_number: Some(REMOTE_SEQ + 1 + 6),
        window_len: 58,
        ..RECV_TEMPL
    }));
    recv_nothing(&mut s, Instant::from_millis(0));
}

#[test]
fn test_zero_window_ack() {
    let mut s = socket_established();
    s.rx_buffer = SocketBuffer::new(ManagedSlice::Borrowed(vec![0; 6].leak()));
    s.assembler = Assembler::new();
    assert_eq!(
        send(&mut s, Instant::from_millis(0), &TcpRepr {
            seq_number: REMOTE_SEQ + 1,
            ack_number: Some(LOCAL_SEQ + 1),
            payload: &b"abcdef"[..],
            ..SEND_TEMPL
        }),
        None
    );
    recv_is(&mut s, 0, Ok(TcpRepr {
        seq_number: LOCAL_SEQ + 1,
        ack_number: Some(REMOTE_SEQ + 1 + 6),
        window_len: 0,
        ..RECV_TEMPL
    }));
    recv_nothing(&mut s, Instant::from_millis(0));
    assert_eq!(
        send(&mut s, Instant::from_millis(0), &TcpRepr {
            seq_number: REMOTE_SEQ + 1 + 6,
            ack_number: Some(LOCAL_SEQ + 1),
            payload: &b"123456"[..],
            ..SEND_TEMPL
        }),
        Some(TcpRepr {
            seq_number: LOCAL_SEQ + 1,
            ack_number: Some(REMOTE_SEQ + 1 + 6),
            window_len: 0,
            ..RECV_TEMPL
        })
    );
}

#[test]
fn test_zero_window_ack_not_rate_limited() {
    let mut s = socket_established();
    s.rx_buffer = SocketBuffer::new(ManagedSlice::Borrowed(vec![0; 6].leak()));
    s.assembler = Assembler::new();
    assert_eq!(
        send(&mut s, Instant::from_millis(0), &TcpRepr {
            seq_number: REMOTE_SEQ + 1,
            ack_number: Some(LOCAL_SEQ + 1),
            payload: &b"abcdef"[..],
            ..SEND_TEMPL
        }),
        None
    );
    recv_is(&mut s, 0, Ok(TcpRepr {
        seq_number: LOCAL_SEQ + 1,
        ack_number: Some(REMOTE_SEQ + 1 + 6),
        window_len: 0,
        ..RECV_TEMPL
    }));
    recv_nothing(&mut s, Instant::from_millis(0));
    assert_eq!(
        send(&mut s, Instant::from_millis(0), &TcpRepr {
            seq_number: REMOTE_SEQ + 1 + 6,
            ack_number: Some(LOCAL_SEQ + 1),
            payload: &b"123456"[..],
            ..SEND_TEMPL
        }),
        Some(TcpRepr {
            seq_number: LOCAL_SEQ + 1,
            ack_number: Some(REMOTE_SEQ + 1 + 6),
            window_len: 0,
            ..RECV_TEMPL
        })
    );
    // The remote retransmits into the zero window again within a second,
    // e.g. because the ACK above was lost. The ACK must not be withheld by
    // challenge ACK rate limiting: it is the remote's only way to learn
    // the window state, and a data segment cannot cause an ACK loop.
    assert_eq!(
        send(&mut s, Instant::from_millis(100), &TcpRepr {
            seq_number: REMOTE_SEQ + 1 + 6,
            ack_number: Some(LOCAL_SEQ + 1),
            payload: &b"123456"[..],
            ..SEND_TEMPL
        }),
        Some(TcpRepr {
            seq_number: LOCAL_SEQ + 1,
            ack_number: Some(REMOTE_SEQ + 1 + 6),
            window_len: 0,
            ..RECV_TEMPL
        })
    );
}

#[test]
fn test_zero_window_fin() {
    let mut s = socket_established();
    s.rx_buffer = SocketBuffer::new(ManagedSlice::Borrowed(vec![0; 6].leak()));
    s.assembler = Assembler::new();
    s.ack_delay = None;

    assert_eq!(
        send(&mut s, Instant::from_millis(0), &TcpRepr {
            seq_number: REMOTE_SEQ + 1,
            ack_number: Some(LOCAL_SEQ + 1),
            payload: &b"abcdef"[..],
            ..SEND_TEMPL
        }),
        None
    );
    recv_is(&mut s, 0, Ok(TcpRepr {
        seq_number: LOCAL_SEQ + 1,
        ack_number: Some(REMOTE_SEQ + 1 + 6),
        window_len: 0,
        ..RECV_TEMPL
    }));
    recv_nothing(&mut s, Instant::from_millis(0));

    // Even though the sequence space for the FIN itself is outside the window,
    // it is not data, so FIN must be accepted when window full.
    assert_eq!(
        send(&mut s, Instant::from_millis(0), &TcpRepr {
            seq_number: REMOTE_SEQ + 1 + 6,
            ack_number: Some(LOCAL_SEQ + 1),
            payload: &[],
            control: TcpControl::Fin,
            ..SEND_TEMPL
        }),
        None
    );
    assert_eq!(s.state, State::CloseWait);

    recv_is(&mut s, 0, Ok(TcpRepr {
        seq_number: LOCAL_SEQ + 1,
        ack_number: Some(REMOTE_SEQ + 1 + 7),
        window_len: 0,
        ..RECV_TEMPL
    }));
    recv_nothing(&mut s, Instant::from_millis(0));
}

#[test]
fn test_zero_window_ack_on_window_growth() {
    let mut s = socket_established();
    s.rx_buffer = SocketBuffer::new(ManagedSlice::Borrowed(vec![0; 6].leak()));
    s.assembler = Assembler::new();
    assert_eq!(
        send(&mut s, Instant::from_millis(0), &TcpRepr {
            seq_number: REMOTE_SEQ + 1,
            ack_number: Some(LOCAL_SEQ + 1),
            payload: &b"abcdef"[..],
            ..SEND_TEMPL
        }),
        None
    );
    recv_is(&mut s, 0, Ok(TcpRepr {
        seq_number: LOCAL_SEQ + 1,
        ack_number: Some(REMOTE_SEQ + 1 + 6),
        window_len: 0,
        ..RECV_TEMPL
    }));
    recv_nothing(&mut s, Instant::from_millis(0));
    recv_nothing(&mut s, Instant::from_millis(0));
    s.view()
        .recv(|buffer| {
            assert_eq!(&buffer[..3], b"abc");
            (3, ())
        })
        .unwrap();
    recv_is(&mut s, 0, Ok(TcpRepr {
        seq_number: LOCAL_SEQ + 1,
        ack_number: Some(REMOTE_SEQ + 1 + 6),
        window_len: 3,
        ..RECV_TEMPL
    }));
    recv_nothing(&mut s, Instant::from_millis(0));
    s.view()
        .recv(|buffer| {
            assert_eq!(buffer, b"def");
            (buffer.len(), ())
        })
        .unwrap();
    recv_is(&mut s, 0, Ok(TcpRepr {
        seq_number: LOCAL_SEQ + 1,
        ack_number: Some(REMOTE_SEQ + 1 + 6),
        window_len: 6,
        ..RECV_TEMPL
    }));
}

#[test]
fn test_window_update_with_delay_ack() {
    let mut s = socket_established_with_buffer_sizes(6, 6);
    s.ack_delay = Some(Duration::from_millis(10));

    assert_eq!(
        send(&mut s, Instant::from_millis(0), &TcpRepr {
            seq_number: REMOTE_SEQ + 1,
            ack_number: Some(LOCAL_SEQ + 1),
            payload: &b"abcdef"[..],
            ..SEND_TEMPL
        }),
        None
    );

    recv_nothing(&mut s, Instant::from_millis(5));

    s.view()
        .recv(|buffer| {
            assert_eq!(&buffer[..2], b"ab");
            (2, ())
        })
        .unwrap();
    recv_is(&mut s, 5, Ok(TcpRepr {
        seq_number: LOCAL_SEQ + 1,
        ack_number: Some(REMOTE_SEQ + 1 + 6),
        window_len: 2,
        ..RECV_TEMPL
    }));

    s.view()
        .recv(|buffer| {
            assert_eq!(&buffer[..1], b"c");
            (1, ())
        })
        .unwrap();
    recv_nothing(&mut s, Instant::from_millis(5));

    s.view()
        .recv(|buffer| {
            assert_eq!(&buffer[..1], b"d");
            (1, ())
        })
        .unwrap();
    recv_is(&mut s, 5, Ok(TcpRepr {
        seq_number: LOCAL_SEQ + 1,
        ack_number: Some(REMOTE_SEQ + 1 + 6),
        window_len: 4,
        ..RECV_TEMPL
    }));
}

#[test]
fn test_fill_peer_window() {
    let mut s = socket_established();
    s.remote_mss = 6;
    s.view().send_slice(b"abcdef123456!@#$%^").unwrap();
    recv_is(&mut s, 0, Ok(TcpRepr {
        seq_number: LOCAL_SEQ + 1,
        ack_number: Some(REMOTE_SEQ + 1),
        payload: &b"abcdef"[..],
        ..RECV_TEMPL
    }));
    recv_is(&mut s, 0, Ok(TcpRepr {
        seq_number: LOCAL_SEQ + 1 + 6,
        ack_number: Some(REMOTE_SEQ + 1),
        payload: &b"123456"[..],
        ..RECV_TEMPL
    }));
    recv_is(&mut s, 0, Ok(TcpRepr {
        seq_number: LOCAL_SEQ + 1 + 6 + 6,
        ack_number: Some(REMOTE_SEQ + 1),
        payload: &b"!@#$%^"[..],
        ..RECV_TEMPL
    }));
    recv_nothing(&mut s, Instant::from_millis(0));
}

#[test]
fn test_announce_window_after_read() {
    let mut s = socket_established();
    s.rx_buffer = SocketBuffer::new(ManagedSlice::Borrowed(vec![0; 6].leak()));
    s.assembler = Assembler::new();
    assert_eq!(
        send(&mut s, Instant::from_millis(0), &TcpRepr {
            seq_number: REMOTE_SEQ + 1,
            ack_number: Some(LOCAL_SEQ + 1),
            payload: &b"abc"[..],
            ..SEND_TEMPL
        }),
        None
    );
    recv_is(&mut s, 0, Ok(TcpRepr {
        seq_number: LOCAL_SEQ + 1,
        ack_number: Some(REMOTE_SEQ + 1 + 3),
        window_len: 3,
        ..RECV_TEMPL
    }));
    recv_nothing(&mut s, Instant::from_millis(0));
    // Test that `dispatch` updates `remote_last_win`
    assert_eq!(s.remote_last_win, s.rx_buffer.window() as u16);
    s.view().recv(|buffer| (buffer.len(), ())).unwrap();
    assert!(s.window_to_update());
    recv_is(&mut s, 0, Ok(TcpRepr {
        seq_number: LOCAL_SEQ + 1,
        ack_number: Some(REMOTE_SEQ + 1 + 3),
        window_len: 6,
        ..RECV_TEMPL
    }));
    recv_nothing(&mut s, Instant::from_millis(0));
    assert_eq!(s.remote_last_win, s.rx_buffer.window() as u16);
    // Provoke immediate ACK to test that `process` updates `remote_last_win`
    assert_eq!(
        send(&mut s, Instant::from_millis(0), &TcpRepr {
            seq_number: REMOTE_SEQ + 1 + 6,
            ack_number: Some(LOCAL_SEQ + 1),
            payload: &b"def"[..],
            ..SEND_TEMPL
        }),
        Some(TcpRepr {
            seq_number: LOCAL_SEQ + 1,
            ack_number: Some(REMOTE_SEQ + 1 + 3),
            window_len: 6,
            ..RECV_TEMPL
        })
    );
    assert_eq!(
        send(&mut s, Instant::from_millis(0), &TcpRepr {
            seq_number: REMOTE_SEQ + 1 + 3,
            ack_number: Some(LOCAL_SEQ + 1),
            payload: &b"abc"[..],
            ..SEND_TEMPL
        }),
        Some(TcpRepr {
            seq_number: LOCAL_SEQ + 1,
            ack_number: Some(REMOTE_SEQ + 1 + 9),
            window_len: 0,
            ..RECV_TEMPL
        })
    );
    assert_eq!(s.remote_last_win, s.rx_buffer.window() as u16);
    s.view().recv(|buffer| (buffer.len(), ())).unwrap();
    assert!(s.window_to_update());
}

// =========================================================================================//
// Tests for zero-window probes.
// =========================================================================================//

#[test]
fn test_zero_window_probe_enter_on_win_update() {
    let mut s = socket_established();

    assert!(!s.timer.is_zero_window_probe());

    s.view().send_slice(b"abcdef123456!@#$%^").unwrap();

    assert!(!s.timer.is_zero_window_probe());

    assert_eq!(
        send(&mut s, Instant::from_millis(0), &TcpRepr {
            seq_number: REMOTE_SEQ + 1,
            ack_number: Some(LOCAL_SEQ + 1),
            window_len: 0,
            ..SEND_TEMPL
        }),
        None
    );

    assert!(s.timer.is_zero_window_probe());
}

#[test]
fn test_zero_window_probe_enter_on_send() {
    let mut s = socket_established();

    assert_eq!(
        send(&mut s, Instant::from_millis(0), &TcpRepr {
            seq_number: REMOTE_SEQ + 1,
            ack_number: Some(LOCAL_SEQ + 1),
            window_len: 0,
            ..SEND_TEMPL
        }),
        None
    );

    assert!(!s.timer.is_zero_window_probe());

    s.view().send_slice(b"abcdef123456!@#$%^").unwrap();

    assert!(s.timer.is_zero_window_probe());
}

#[test]
fn test_zero_window_probe_exit() {
    let mut s = socket_established();

    s.view().send_slice(b"abcdef123456!@#$%^").unwrap();

    assert!(!s.timer.is_zero_window_probe());

    assert_eq!(
        send(&mut s, Instant::from_millis(0), &TcpRepr {
            seq_number: REMOTE_SEQ + 1,
            ack_number: Some(LOCAL_SEQ + 1),
            window_len: 0,
            ..SEND_TEMPL
        }),
        None
    );

    assert!(s.timer.is_zero_window_probe());

    assert_eq!(
        send(&mut s, Instant::from_millis(0), &TcpRepr {
            seq_number: REMOTE_SEQ + 1,
            ack_number: Some(LOCAL_SEQ + 1),
            window_len: 6,
            ..SEND_TEMPL
        }),
        None
    );

    assert!(!s.timer.is_zero_window_probe());
}

#[test]
fn test_zero_window_probe_exit_ack() {
    let mut s = socket_established();

    s.view().send_slice(b"abcdef123456!@#$%^").unwrap();
    assert_eq!(
        send(&mut s, Instant::from_millis(0), &TcpRepr {
            seq_number: REMOTE_SEQ + 1,
            ack_number: Some(LOCAL_SEQ + 1),
            window_len: 0,
            ..SEND_TEMPL
        }),
        None
    );

    recv_is(&mut s, 1000, Ok(TcpRepr {
        seq_number: LOCAL_SEQ + 1,
        ack_number: Some(REMOTE_SEQ + 1),
        payload: &b"a"[..],
        ..RECV_TEMPL
    }));
    recv_nothing(&mut s, Instant::from_millis(1000));

    assert_eq!(
        send(&mut s, Instant::from_millis(1010), &TcpRepr {
            seq_number: REMOTE_SEQ + 1,
            ack_number: Some(LOCAL_SEQ + 2),
            window_len: 6,
            ..SEND_TEMPL
        }),
        None
    );

    recv_is(&mut s, 1010, Ok(TcpRepr {
        seq_number: LOCAL_SEQ + 2,
        ack_number: Some(REMOTE_SEQ + 1),
        payload: &b"bcdef1"[..],
        ..RECV_TEMPL
    }));
    recv_nothing(&mut s, Instant::from_millis(1010));
}

#[test]
fn test_zero_window_probe_not_capped_by_cwnd() {
    let mut s = socket_established_with_buffer_sizes(8192, 64);
    s.congestion_controller = Congestion::reno();
    s.remote_win_len = 65535;
    s.remote_mss = 1024;

    let data = [b'x'; 4096];
    s.view().send_slice(&data[..]).unwrap();

    // Reno's initial cwnd is 2048: two segments fill the congestion window
    // exactly, leaving cwnd_remaining() == 0.
    recv_is(&mut s, 0, Ok(TcpRepr {
        seq_number: LOCAL_SEQ + 1,
        ack_number: Some(REMOTE_SEQ + 1),
        payload: &data[..1024],
        ..RECV_TEMPL
    }));
    recv_is(&mut s, 0, Ok(TcpRepr {
        seq_number: LOCAL_SEQ + 1 + 1024,
        ack_number: Some(REMOTE_SEQ + 1),
        payload: &data[..1024],
        ..RECV_TEMPL
    }));
    recv_nothing(&mut s, Instant::from_millis(0));

    // The remote closes its window without acknowledging anything new, so
    // no congestion window space is freed either.
    assert_eq!(
        send(&mut s, Instant::from_millis(10), &TcpRepr {
            seq_number: REMOTE_SEQ + 1,
            ack_number: Some(LOCAL_SEQ + 1),
            window_len: 0,
            ..SEND_TEMPL
        }),
        None
    );

    // Arm the probe timer. (Set directly because the ACK above carries no
    // new data; in real traffic this state is reached e.g. when the
    // controller shrinks cwnd below the flight size while probing.)
    s.timer
        .set_for_zero_window_probe(Instant::from_millis(10), Duration::from_millis(100));

    // The probe must carry 1 byte of data past the window edge even though
    // the congestion window is exhausted: an empty probe occupies no
    // sequence space and elicits no reply, so the connection would stall
    // if the remote's window update got lost.
    recv_is(&mut s, 110, Ok(TcpRepr {
        seq_number: LOCAL_SEQ + 1 + 2048,
        ack_number: Some(REMOTE_SEQ + 1),
        payload: &data[..1],
        ..RECV_TEMPL
    }));
}

#[test]
fn test_zero_window_probe_backoff_nack_reply() {
    let mut s = socket_established();
    s.view().send_slice(b"abcdef123456!@#$%^").unwrap();
    assert_eq!(
        send(&mut s, Instant::from_millis(0), &TcpRepr {
            seq_number: REMOTE_SEQ + 1,
            ack_number: Some(LOCAL_SEQ + 1),
            window_len: 0,
            ..SEND_TEMPL
        }),
        None
    );

    recv_nothing(&mut s, Instant::from_millis(999));
    recv_is(&mut s, 1000, Ok(TcpRepr {
        seq_number: LOCAL_SEQ + 1,
        ack_number: Some(REMOTE_SEQ + 1),
        payload: &b"a"[..],
        ..RECV_TEMPL
    }));
    recv_nothing(&mut s, Instant::from_millis(1000));
    assert_eq!(
        send(&mut s, Instant::from_millis(1100), &TcpRepr {
            seq_number: REMOTE_SEQ + 1,
            ack_number: Some(LOCAL_SEQ + 1),
            window_len: 0,
            ..SEND_TEMPL
        }),
        None
    );

    recv_nothing(&mut s, Instant::from_millis(2999));
    recv_is(&mut s, 3000, Ok(TcpRepr {
        seq_number: LOCAL_SEQ + 1,
        ack_number: Some(REMOTE_SEQ + 1),
        payload: &b"a"[..],
        ..RECV_TEMPL
    }));
    recv_nothing(&mut s, Instant::from_millis(3000));
    assert_eq!(
        send(&mut s, Instant::from_millis(3100), &TcpRepr {
            seq_number: REMOTE_SEQ + 1,
            ack_number: Some(LOCAL_SEQ + 1),
            window_len: 0,
            ..SEND_TEMPL
        }),
        None
    );

    recv_nothing(&mut s, Instant::from_millis(6999));
    recv_is(&mut s, 7000, Ok(TcpRepr {
        seq_number: LOCAL_SEQ + 1,
        ack_number: Some(REMOTE_SEQ + 1),
        payload: &b"a"[..],
        ..RECV_TEMPL
    }));
    recv_nothing(&mut s, Instant::from_millis(7000));
}

#[test]
fn test_zero_window_probe_backoff_no_reply() {
    let mut s = socket_established();
    s.view().send_slice(b"abcdef123456!@#$%^").unwrap();
    assert_eq!(
        send(&mut s, Instant::from_millis(0), &TcpRepr {
            seq_number: REMOTE_SEQ + 1,
            ack_number: Some(LOCAL_SEQ + 1),
            window_len: 0,
            ..SEND_TEMPL
        }),
        None
    );

    recv_nothing(&mut s, Instant::from_millis(999));
    recv_is(&mut s, 1000, Ok(TcpRepr {
        seq_number: LOCAL_SEQ + 1,
        ack_number: Some(REMOTE_SEQ + 1),
        payload: &b"a"[..],
        ..RECV_TEMPL
    }));
    recv_nothing(&mut s, Instant::from_millis(1000));

    recv_nothing(&mut s, Instant::from_millis(2999));
    recv_is(&mut s, 3000, Ok(TcpRepr {
        seq_number: LOCAL_SEQ + 1,
        ack_number: Some(REMOTE_SEQ + 1),
        payload: &b"a"[..],
        ..RECV_TEMPL
    }));
    recv_nothing(&mut s, Instant::from_millis(3000));
}

#[test]
fn test_zero_window_probe_shift() {
    let mut s = socket_established();

    s.view().send_slice(b"abcdef123456!@#$%^").unwrap();
    assert_eq!(
        send(&mut s, Instant::from_millis(0), &TcpRepr {
            seq_number: REMOTE_SEQ + 1,
            ack_number: Some(LOCAL_SEQ + 1),
            window_len: 0,
            ..SEND_TEMPL
        }),
        None
    );

    recv_nothing(&mut s, Instant::from_millis(999));
    recv_is(&mut s, 1000, Ok(TcpRepr {
        seq_number: LOCAL_SEQ + 1,
        ack_number: Some(REMOTE_SEQ + 1),
        payload: &b"a"[..],
        ..RECV_TEMPL
    }));
    recv_nothing(&mut s, Instant::from_millis(1000));

    recv_nothing(&mut s, Instant::from_millis(2999));
    recv_is(&mut s, 3000, Ok(TcpRepr {
        seq_number: LOCAL_SEQ + 1,
        ack_number: Some(REMOTE_SEQ + 1),
        payload: &b"a"[..],
        ..RECV_TEMPL
    }));
    recv_nothing(&mut s, Instant::from_millis(3000));

    // ack the ZWP byte, but still advertise zero window.
    // this should restart the ZWP timer.
    assert_eq!(
        send(&mut s, Instant::from_millis(3100), &TcpRepr {
            seq_number: REMOTE_SEQ + 1,
            ack_number: Some(LOCAL_SEQ + 2),
            window_len: 0,
            ..SEND_TEMPL
        }),
        None
    );

    // ZWP should be sent at 3100+1000 = 4100
    recv_nothing(&mut s, Instant::from_millis(4099));
    recv_is(&mut s, 4100, Ok(TcpRepr {
        seq_number: LOCAL_SEQ + 2,
        ack_number: Some(REMOTE_SEQ + 1),
        payload: &b"b"[..],
        ..RECV_TEMPL
    }));
    recv_nothing(&mut s, Instant::from_millis(4100));
}

// =========================================================================================//
// Tests for timeouts.
// =========================================================================================//

#[test]
fn test_connect_timeout() {
    let mut s = socket();
    s.local_seq_no = LOCAL_SEQ;
    s.view().connect(REMOTE_END, LOCAL_END.port.into()).unwrap();
    pin_initial_numbers(&mut s);
    s.view().set_timeout(Some(Duration::from_millis(100)));
    recv_is(&mut s, 150, Ok(TcpRepr {
        control:    TcpControl::Syn,
        seq_number: LOCAL_SEQ,
        ack_number: None,
        max_seg_size: Some(BASE_MSS),
        window_scale: Some(0),
        sack_permitted: true,
        timestamp: Some(TcpTimestampRepr::new(150, 0)),
        ..RECV_TEMPL
    }));
    assert_eq!(s.state, State::SynSent);
    assert_eq!(s.sockets.get_mut(0).poll_at(), Instant::from_millis(250));
    recv_is(&mut s, 250, Ok(TcpRepr {
        control:    TcpControl::Rst,
        seq_number: LOCAL_SEQ + 1,
        ack_number: Some(TcpSeqNumber(0)),
        window_scale: None,
        timestamp: Some(TcpTimestampRepr::new(250, 0)),
        ..RECV_TEMPL
    }));
    assert_eq!(s.state, State::Closed);
}

#[test]
fn test_established_timeout() {
    let mut s = socket_established();
    s.view().set_timeout(Some(Duration::from_millis(2000)));
    recv_nothing(&mut s, Instant::from_millis(250));
    assert_eq!(s.sockets.get_mut(0).poll_at(), Instant::from_millis(2250));
    s.view().send_slice(b"abcdef").unwrap();
    assert_eq!(s.sockets.get_mut(0).poll_at(), Instant::min_value());
    recv_is(&mut s, 255, Ok(TcpRepr {
        seq_number: LOCAL_SEQ + 1,
        ack_number: Some(REMOTE_SEQ + 1),
        payload:    &b"abcdef"[..],
        ..RECV_TEMPL
    }));
    assert_eq!(s.sockets.get_mut(0).poll_at(), Instant::from_millis(1255));
    recv_is(&mut s, 1255, Ok(TcpRepr {
        seq_number: LOCAL_SEQ + 1,
        ack_number: Some(REMOTE_SEQ + 1),
        payload:    &b"abcdef"[..],
        ..RECV_TEMPL
    }));
    assert_eq!(s.sockets.get_mut(0).poll_at(), Instant::from_millis(2255));
    recv_is(&mut s, 2255, Ok(TcpRepr {
        control:    TcpControl::Rst,
        seq_number: LOCAL_SEQ + 1 + 6,
        ack_number: Some(REMOTE_SEQ + 1),
        ..RECV_TEMPL
    }));
    assert_eq!(s.state, State::Closed);
}

#[test]
fn test_established_keep_alive_timeout() {
    let mut s = socket_established();
    s.view().set_keep_alive(Some(Duration::from_millis(50)));
    s.view().set_timeout(Some(Duration::from_millis(100)));
    recv_is(&mut s, 100, Ok(TcpRepr {
        seq_number: LOCAL_SEQ,
        ack_number: Some(REMOTE_SEQ + 1),
        payload:    &[0],
        ..RECV_TEMPL
    }));
    recv_nothing(&mut s, Instant::from_millis(100));
    assert_eq!(s.sockets.get_mut(0).poll_at(), Instant::from_millis(150));
    assert_eq!(
        send(&mut s, Instant::from_millis(105), &TcpRepr {
            seq_number: REMOTE_SEQ + 1,
            ack_number: Some(LOCAL_SEQ + 1),
            ..SEND_TEMPL
        }),
        None
    );
    assert_eq!(s.sockets.get_mut(0).poll_at(), Instant::from_millis(155));
    recv_is(&mut s, 155, Ok(TcpRepr {
        seq_number: LOCAL_SEQ,
        ack_number: Some(REMOTE_SEQ + 1),
        payload:    &[0],
        ..RECV_TEMPL
    }));
    recv_nothing(&mut s, Instant::from_millis(155));
    assert_eq!(s.sockets.get_mut(0).poll_at(), Instant::from_millis(205));
    recv_nothing(&mut s, Instant::from_millis(200));
    recv_is(&mut s, 205, Ok(TcpRepr {
        control:    TcpControl::Rst,
        seq_number: LOCAL_SEQ + 1,
        ack_number: Some(REMOTE_SEQ + 1),
        ..RECV_TEMPL
    }));
    recv_nothing(&mut s, Instant::from_millis(205));
    assert_eq!(s.state, State::Closed);
}

#[test]
fn test_fin_wait_1_timeout() {
    let mut s = socket_fin_wait_1();
    s.view().set_timeout(Some(Duration::from_millis(1000)));
    recv_is(&mut s, 100, Ok(TcpRepr {
        control:    TcpControl::Fin,
        seq_number: LOCAL_SEQ + 1,
        ack_number: Some(REMOTE_SEQ + 1),
        ..RECV_TEMPL
    }));
    recv_is(&mut s, 1100, Ok(TcpRepr {
        control:    TcpControl::Rst,
        seq_number: LOCAL_SEQ + 1 + 1,
        ack_number: Some(REMOTE_SEQ + 1),
        ..RECV_TEMPL
    }));
    assert_eq!(s.state, State::Closed);
}

#[test]
fn test_last_ack_timeout() {
    let mut s = socket_last_ack();
    s.view().set_timeout(Some(Duration::from_millis(1000)));
    recv_is(&mut s, 100, Ok(TcpRepr {
        control:    TcpControl::Fin,
        seq_number: LOCAL_SEQ + 1,
        ack_number: Some(REMOTE_SEQ + 1 + 1),
        ..RECV_TEMPL
    }));
    recv_is(&mut s, 1100, Ok(TcpRepr {
        control:    TcpControl::Rst,
        seq_number: LOCAL_SEQ + 1 + 1,
        ack_number: Some(REMOTE_SEQ + 1 + 1),
        ..RECV_TEMPL
    }));
    assert_eq!(s.state, State::Closed);
}

#[test]
fn test_closed_timeout() {
    let mut s = socket_established();
    s.view().set_timeout(Some(Duration::from_millis(200)));
    s.remote_last_ts = Some(Instant::from_millis(100));
    s.view().abort();
    assert_eq!(s.sockets.get_mut(0).poll_at(), Instant::min_value());
    recv_is(&mut s, 100, Ok(TcpRepr {
        control:    TcpControl::Rst,
        seq_number: LOCAL_SEQ + 1,
        ack_number: Some(REMOTE_SEQ + 1),
        ..RECV_TEMPL
    }));
    assert_eq!(s.sockets.get_mut(0).poll_at(), Instant::max_value());
}

// =========================================================================================//
// Tests for keep-alive.
// =========================================================================================//

#[test]
fn test_responds_to_keep_alive() {
    let mut s = socket_established();
    assert_eq!(
        send(&mut s, Instant::from_millis(0), &TcpRepr {
            seq_number: REMOTE_SEQ,
            ack_number: Some(LOCAL_SEQ + 1),
            ..SEND_TEMPL
        }),
        Some(TcpRepr {
            seq_number: LOCAL_SEQ + 1,
            ack_number: Some(REMOTE_SEQ + 1),
            ..RECV_TEMPL
        })
    );
}

#[test]
fn test_sends_keep_alive() {
    let mut s = socket_established();
    s.view().set_keep_alive(Some(Duration::from_millis(100)));

    // drain the forced keep-alive packet
    assert_eq!(s.sockets.get_mut(0).poll_at(), Instant::min_value());
    recv_is(&mut s, 0, Ok(TcpRepr {
        seq_number: LOCAL_SEQ,
        ack_number: Some(REMOTE_SEQ + 1),
        payload:    &[0],
        ..RECV_TEMPL
    }));

    assert_eq!(s.sockets.get_mut(0).poll_at(), Instant::from_millis(100));
    recv_nothing(&mut s, Instant::from_millis(95));
    recv_is(&mut s, 100, Ok(TcpRepr {
        seq_number: LOCAL_SEQ,
        ack_number: Some(REMOTE_SEQ + 1),
        payload:    &[0],
        ..RECV_TEMPL
    }));

    assert_eq!(s.sockets.get_mut(0).poll_at(), Instant::from_millis(200));
    recv_nothing(&mut s, Instant::from_millis(195));
    recv_is(&mut s, 200, Ok(TcpRepr {
        seq_number: LOCAL_SEQ,
        ack_number: Some(REMOTE_SEQ + 1),
        payload:    &[0],
        ..RECV_TEMPL
    }));

    assert_eq!(
        send(&mut s, Instant::from_millis(250), &TcpRepr {
            seq_number: REMOTE_SEQ + 1,
            ack_number: Some(LOCAL_SEQ + 1),
            ..SEND_TEMPL
        }),
        None
    );
    assert_eq!(s.sockets.get_mut(0).poll_at(), Instant::from_millis(350));
    recv_nothing(&mut s, Instant::from_millis(345));
    recv_is(&mut s, 350, Ok(TcpRepr {
        seq_number: LOCAL_SEQ,
        ack_number: Some(REMOTE_SEQ + 1),
        payload:    &b"\x00"[..],
        ..RECV_TEMPL
    }));
}

// =========================================================================================//
// Tests for time-to-live configuration.
// =========================================================================================//

#[test]
fn test_set_hop_limit() {
    let mut s = socket_syn_received();

    s.view().set_hop_limit(Some(0x2a));
    assert_eq!(
        s.sockets
            .get_mut(0)
            .dispatch(&mut s.stack.tx_context(), |_, (_, _, _, hop_limit, _)| {
                assert_eq!(hop_limit, 0x2a);
                Ok::<_, ()>(())
            }),
        Ok(())
    );

    // assert that user-configurable settings are kept,
    // see https://github.com/xarxa-rs/xarxa/issues/601.
    s.reset();
    assert_eq!(s.view().hop_limit(), Some(0x2a));
}


// =========================================================================================//
// Tests for reassembly.
// =========================================================================================//

#[test]
fn test_out_of_order() {
    let mut s = socket_established();
    assert_eq!(
        send(&mut s, Instant::from_millis(0), &TcpRepr {
            seq_number: REMOTE_SEQ + 1 + 3,
            ack_number: Some(LOCAL_SEQ + 1),
            payload: &b"def"[..],
            ..SEND_TEMPL
        }),
        Some(TcpRepr {
            seq_number: LOCAL_SEQ + 1,
            ack_number: Some(REMOTE_SEQ + 1),
            ..RECV_TEMPL
        })
    );
    s.view()
        .recv(|buffer| {
            assert_eq!(buffer, b"");
            (buffer.len(), ())
        })
        .unwrap();
    assert_eq!(
        send(&mut s, Instant::from_millis(0), &TcpRepr {
            seq_number: REMOTE_SEQ + 1,
            ack_number: Some(LOCAL_SEQ + 1),
            payload: &b"abcdef"[..],
            ..SEND_TEMPL
        }),
        Some(TcpRepr {
            seq_number: LOCAL_SEQ + 1,
            ack_number: Some(REMOTE_SEQ + 1 + 6),
            window_len: 58,
            ..RECV_TEMPL
        })
    );
    s.view()
        .recv(|buffer| {
            assert_eq!(buffer, b"abcdef");
            (buffer.len(), ())
        })
        .unwrap();
}

#[test]
fn test_buffer_wraparound_rx() {
    let mut s = socket_established();
    s.rx_buffer = SocketBuffer::new(ManagedSlice::Borrowed(vec![0; 6].leak()));
    s.assembler = Assembler::new();
    assert_eq!(
        send(&mut s, Instant::from_millis(0), &TcpRepr {
            seq_number: REMOTE_SEQ + 1,
            ack_number: Some(LOCAL_SEQ + 1),
            payload: &b"abc"[..],
            ..SEND_TEMPL
        }),
        None
    );
    s.view()
        .recv(|buffer| {
            assert_eq!(buffer, b"abc");
            (buffer.len(), ())
        })
        .unwrap();
    assert_eq!(
        send(&mut s, Instant::from_millis(0), &TcpRepr {
            seq_number: REMOTE_SEQ + 1 + 3,
            ack_number: Some(LOCAL_SEQ + 1),
            payload: &b"defghi"[..],
            ..SEND_TEMPL
        }),
        None
    );
    let mut data = [0; 6];
    assert_eq!(s.view().recv_slice(&mut data[..]), Ok(6));
    assert_eq!(data, &b"defghi"[..]);
}

#[test]
fn test_buffer_wraparound_tx() {
    let mut s = socket_established();
    s.view().set_nagle_enabled(false);

    s.tx_buffer = SocketBuffer::new(ManagedSlice::Borrowed(vec![b'.'; 9].leak()));
    assert_eq!(s.view().send_slice(b"xxxyyy"), Ok(6));
    assert_eq!(s.tx_buffer.dequeue_many(3), &b"xxx"[..]);
    assert_eq!(s.tx_buffer.len(), 3);

    // "abcdef" not contiguous in tx buffer. The segment straddles the ring's
    // wrap point, but is still sent as a single segment, in two chunks.
    assert_eq!(s.view().send_slice(b"abcdef"), Ok(6));
    recv_is(&mut s, 0, Ok(TcpRepr {
        seq_number: LOCAL_SEQ + 1,
        ack_number: Some(REMOTE_SEQ + 1),
        payload: &b"yyyabc"[..],
        payload2: &b"def"[..],
        ..RECV_TEMPL
    }));
    recv_nothing(&mut s, Instant::from_millis(0));
}

// =========================================================================================//
// Tests for graceful vs ungraceful rx close
// =========================================================================================//

#[test]
fn test_rx_close_fin() {
    let mut s = socket_established();
    assert_eq!(
        send(&mut s, Instant::from_millis(0), &TcpRepr {
            control: TcpControl::Fin,
            seq_number: REMOTE_SEQ + 1,
            ack_number: Some(LOCAL_SEQ + 1),
            payload: &b"abc"[..],
            ..SEND_TEMPL
        }),
        None
    );
    s.view()
        .recv(|data| {
            assert_eq!(data, b"abc");
            (3, ())
        })
        .unwrap();
    assert_eq!(s.view().recv(|_| (0, ())), Err(RecvError::Finished));
}

#[test]
fn test_rx_close_fin_in_fin_wait_1() {
    let mut s = socket_fin_wait_1();
    assert_eq!(
        send(&mut s, Instant::from_millis(0), &TcpRepr {
            control: TcpControl::Fin,
            seq_number: REMOTE_SEQ + 1,
            ack_number: Some(LOCAL_SEQ + 1),
            payload: &b"abc"[..],
            ..SEND_TEMPL
        }),
        None
    );
    assert_eq!(s.state, State::Closing);
    s.view()
        .recv(|data| {
            assert_eq!(data, b"abc");
            (3, ())
        })
        .unwrap();
    assert_eq!(s.view().recv(|_| (0, ())), Err(RecvError::Finished));
}

#[test]
fn test_rx_close_fin_in_fin_wait_2() {
    let mut s = socket_fin_wait_2();
    assert_eq!(
        send(&mut s, Instant::from_millis(0), &TcpRepr {
            control: TcpControl::Fin,
            seq_number: REMOTE_SEQ + 1,
            ack_number: Some(LOCAL_SEQ + 1 + 1),
            payload: &b"abc"[..],
            ..SEND_TEMPL
        }),
        None
    );
    assert_eq!(s.state, State::TimeWait);
    s.view()
        .recv(|data| {
            assert_eq!(data, b"abc");
            (3, ())
        })
        .unwrap();
    assert_eq!(s.view().recv(|_| (0, ())), Err(RecvError::Finished));
}

#[test]
fn test_rx_close_fin_with_hole() {
    let mut s = socket_established();
    assert_eq!(
        send(&mut s, Instant::from_millis(0), &TcpRepr {
            seq_number: REMOTE_SEQ + 1,
            ack_number: Some(LOCAL_SEQ + 1),
            payload: &b"abc"[..],
            ..SEND_TEMPL
        }),
        None
    );
    assert_eq!(
        send(&mut s, Instant::from_millis(0), &TcpRepr {
            control: TcpControl::Fin,
            seq_number: REMOTE_SEQ + 1 + 6,
            ack_number: Some(LOCAL_SEQ + 1),
            payload: &b"ghi"[..],
            ..SEND_TEMPL
        }),
        Some(TcpRepr {
            seq_number: LOCAL_SEQ + 1,
            ack_number: Some(REMOTE_SEQ + 1 + 3),
            window_len: 61,
            ..RECV_TEMPL
        })
    );
    s.view()
        .recv(|data| {
            assert_eq!(data, b"abc");
            (3, ())
        })
        .unwrap();
    s.view()
        .recv(|data| {
            assert_eq!(data, b"");
            (0, ())
        })
        .unwrap();
    assert_eq!(
        send(&mut s, Instant::from_millis(0), &TcpRepr {
            control: TcpControl::Rst,
            seq_number: REMOTE_SEQ + 1 + 9,
            ack_number: Some(LOCAL_SEQ + 1),
            ..SEND_TEMPL
        }),
        None
    );
    // Error must be `Illegal` even if we've received a FIN,
    // because we are missing data.
    assert_eq!(s.view().recv(|_| (0, ())), Err(RecvError::InvalidState));
}

#[test]
fn test_rx_close_rst() {
    let mut s = socket_established();
    assert_eq!(
        send(&mut s, Instant::from_millis(0), &TcpRepr {
            seq_number: REMOTE_SEQ + 1,
            ack_number: Some(LOCAL_SEQ + 1),
            payload: &b"abc"[..],
            ..SEND_TEMPL
        }),
        None
    );
    assert_eq!(
        send(&mut s, Instant::from_millis(0), &TcpRepr {
            control: TcpControl::Rst,
            seq_number: REMOTE_SEQ + 1 + 3,
            ack_number: Some(LOCAL_SEQ + 1),
            ..SEND_TEMPL
        }),
        None
    );
    s.view()
        .recv(|data| {
            assert_eq!(data, b"abc");
            (3, ())
        })
        .unwrap();
    assert_eq!(s.view().recv(|_| (0, ())), Err(RecvError::InvalidState));
}

#[test]
fn test_rx_close_rst_with_hole() {
    let mut s = socket_established();
    assert_eq!(
        send(&mut s, Instant::from_millis(0), &TcpRepr {
            seq_number: REMOTE_SEQ + 1,
            ack_number: Some(LOCAL_SEQ + 1),
            payload: &b"abc"[..],
            ..SEND_TEMPL
        }),
        None
    );
    assert_eq!(
        send(&mut s, Instant::from_millis(0), &TcpRepr {
            seq_number: REMOTE_SEQ + 1 + 6,
            ack_number: Some(LOCAL_SEQ + 1),
            payload: &b"ghi"[..],
            ..SEND_TEMPL
        }),
        Some(TcpRepr {
            seq_number: LOCAL_SEQ + 1,
            ack_number: Some(REMOTE_SEQ + 1 + 3),
            window_len: 61,
            ..RECV_TEMPL
        })
    );
    assert_eq!(
        send(&mut s, Instant::from_millis(0), &TcpRepr {
            control: TcpControl::Rst,
            seq_number: REMOTE_SEQ + 1 + 9,
            ack_number: Some(LOCAL_SEQ + 1),
            ..SEND_TEMPL
        }),
        None
    );
    s.view()
        .recv(|data| {
            assert_eq!(data, b"abc");
            (3, ())
        })
        .unwrap();
    assert_eq!(s.view().recv(|_| (0, ())), Err(RecvError::InvalidState));
}

// =========================================================================================//
// Tests for delayed ACK
// =========================================================================================//

#[test]
fn test_delayed_ack() {
    let mut s = socket_established();
    s.view().set_ack_delay(Some(Duration::from_millis(ACK_DELAY_DEFAULT_MS)));
    assert_eq!(
        send(&mut s, Instant::from_millis(0), &TcpRepr {
            seq_number: REMOTE_SEQ + 1,
            ack_number: Some(LOCAL_SEQ + 1),
            payload: &b"abc"[..],
            ..SEND_TEMPL
        }),
        None
    );

    // No ACK is immediately sent.
    recv_nothing(&mut s, Instant::from_millis(0));

    // After 10ms, it is sent.
    recv_is(&mut s, 11, Ok(TcpRepr {
        seq_number: LOCAL_SEQ + 1,
        ack_number: Some(REMOTE_SEQ + 1 + 3),
        window_len: 61,
        ..RECV_TEMPL
    }));
}

#[test]
fn test_delayed_ack_win() {
    let mut s = socket_established();
    s.view().set_ack_delay(Some(Duration::from_millis(ACK_DELAY_DEFAULT_MS)));
    assert_eq!(
        send(&mut s, Instant::from_millis(0), &TcpRepr {
            seq_number: REMOTE_SEQ + 1,
            ack_number: Some(LOCAL_SEQ + 1),
            payload: &b"abc"[..],
            ..SEND_TEMPL
        }),
        None
    );

    // Reading the data off the buffer should cause a window update.
    s.view()
        .recv(|data| {
            assert_eq!(data, b"abc");
            (3, ())
        })
        .unwrap();

    // However, no ACK or window update is immediately sent.
    recv_nothing(&mut s, Instant::from_millis(0));

    // After 10ms, it is sent.
    recv_is(&mut s, 11, Ok(TcpRepr {
        seq_number: LOCAL_SEQ + 1,
        ack_number: Some(REMOTE_SEQ + 1 + 3),
        ..RECV_TEMPL
    }));
}

#[test]
fn test_delayed_ack_reply() {
    let mut s = socket_established();
    s.view().set_ack_delay(Some(Duration::from_millis(ACK_DELAY_DEFAULT_MS)));
    assert_eq!(
        send(&mut s, Instant::from_millis(0), &TcpRepr {
            seq_number: REMOTE_SEQ + 1,
            ack_number: Some(LOCAL_SEQ + 1),
            payload: &b"abc"[..],
            ..SEND_TEMPL
        }),
        None
    );

    s.view()
        .recv(|data| {
            assert_eq!(data, b"abc");
            (3, ())
        })
        .unwrap();

    s.view().send_slice(&b"xyz"[..]).unwrap();

    // Writing data to the socket causes ACK to not be delayed,
    // because it is immediately sent with the data.
    recv_is(&mut s, 0, Ok(TcpRepr {
        seq_number: LOCAL_SEQ + 1,
        ack_number: Some(REMOTE_SEQ + 1 + 3),
        payload: &b"xyz"[..],
        ..RECV_TEMPL
    }));
}

#[test]
fn test_delayed_ack_every_rmss() {
    let mut s = socket_established_with_buffer_sizes(DEFAULT_MSS * 2, DEFAULT_MSS * 2);
    s.view().set_ack_delay(Some(Duration::from_millis(ACK_DELAY_DEFAULT_MS)));
    assert_eq!(
        send(&mut s, Instant::from_millis(0), &TcpRepr {
            seq_number: REMOTE_SEQ + 1,
            ack_number: Some(LOCAL_SEQ + 1),
            payload: &[0; DEFAULT_MSS - 1],
            ..SEND_TEMPL
        }),
        None
    );

    // No ACK is immediately sent.
    recv_nothing(&mut s, Instant::from_millis(0));

    assert_eq!(
        send(&mut s, Instant::from_millis(0), &TcpRepr {
            seq_number: REMOTE_SEQ + 1 + (DEFAULT_MSS - 1),
            ack_number: Some(LOCAL_SEQ + 1),
            payload: &b"a"[..],
            ..SEND_TEMPL
        }),
        None
    );

    // No ACK is immediately sent.
    recv_nothing(&mut s, Instant::from_millis(0));

    assert_eq!(
        send(&mut s, Instant::from_millis(0), &TcpRepr {
            seq_number: REMOTE_SEQ + 1 + DEFAULT_MSS,
            ack_number: Some(LOCAL_SEQ + 1),
            payload: &b"a"[..],
            ..SEND_TEMPL
        }),
        None
    );

    // RMSS+1 bytes of data has been received, so ACK is sent without delay.
    recv_is(&mut s, 0, Ok(TcpRepr {
        seq_number: LOCAL_SEQ + 1,
        ack_number: Some(REMOTE_SEQ + 1 + (DEFAULT_MSS + 1)),
        window_len: (DEFAULT_MSS - 1) as u16,
        ..RECV_TEMPL
    }));
}

#[test]
fn test_delayed_ack_every_rmss_or_more() {
    let mut s = socket_established_with_buffer_sizes(DEFAULT_MSS * 2, DEFAULT_MSS * 2);
    s.view().set_ack_delay(Some(Duration::from_millis(ACK_DELAY_DEFAULT_MS)));
    assert_eq!(
        send(&mut s, Instant::from_millis(0), &TcpRepr {
            seq_number: REMOTE_SEQ + 1,
            ack_number: Some(LOCAL_SEQ + 1),
            payload: &[0; DEFAULT_MSS],
            ..SEND_TEMPL
        }),
        None
    );

    // No ACK is immediately sent.
    recv_nothing(&mut s, Instant::from_millis(0));

    assert_eq!(
        send(&mut s, Instant::from_millis(0), &TcpRepr {
            seq_number: REMOTE_SEQ + 1 + DEFAULT_MSS,
            ack_number: Some(LOCAL_SEQ + 1),
            payload: &b"a"[..],
            ..SEND_TEMPL
        }),
        None
    );

    assert_eq!(
        send(&mut s, Instant::from_millis(0), &TcpRepr {
            seq_number: REMOTE_SEQ + 1 + (DEFAULT_MSS + 1),
            ack_number: Some(LOCAL_SEQ + 1),
            payload: &b"b"[..],
            ..SEND_TEMPL
        }),
        None
    );

    // RMSS+2 bytes of data has been received, so ACK is sent without delay.
    recv_is(&mut s, 0, Ok(TcpRepr {
        seq_number: LOCAL_SEQ + 1,
        ack_number: Some(REMOTE_SEQ + 1 + (DEFAULT_MSS + 2)),
        window_len: (DEFAULT_MSS - 2) as u16,
        ..RECV_TEMPL
    }));
}

// =========================================================================================//
// Tests for Nagle's Algorithm
// =========================================================================================//

#[test]
fn test_nagle() {
    let mut s = socket_established();
    s.remote_mss = 6;

    s.view().send_slice(b"abcdef").unwrap();
    recv_is(&mut s, 0, Ok(TcpRepr {
        seq_number: LOCAL_SEQ + 1,
        ack_number: Some(REMOTE_SEQ + 1),
        payload: &b"abcdef"[..],
        ..RECV_TEMPL
    }));
    recv_nothing(&mut s, Instant::from_millis(0));

    // If there's data in flight, full segments get sent.
    s.view().send_slice(b"foobar").unwrap();
    recv_is(&mut s, 0, Ok(TcpRepr {
        seq_number: LOCAL_SEQ + 1 + 6,
        ack_number: Some(REMOTE_SEQ + 1),
        payload: &b"foobar"[..],
        ..RECV_TEMPL
    }));
    recv_nothing(&mut s, Instant::from_millis(0));

    s.view().send_slice(b"aaabbbccc").unwrap();
    // If there's data in flight, not-full segments don't get sent.
    recv_is(&mut s, 0, Ok(TcpRepr {
        seq_number: LOCAL_SEQ + 1 + 6 + 6,
        ack_number: Some(REMOTE_SEQ + 1),
        payload: &b"aaabbb"[..],
        ..RECV_TEMPL
    }));
    recv_nothing(&mut s, Instant::from_millis(0));

    // Data gets ACKd, so there's no longer data in flight
    assert_eq!(
        send(&mut s, Instant::from_millis(0), &TcpRepr {
            seq_number: REMOTE_SEQ + 1,
            ack_number: Some(LOCAL_SEQ + 1 + 6 + 6 + 6),
            ..SEND_TEMPL
        }),
        None
    );

    // Now non-full segment gets sent.
    recv_is(&mut s, 0, Ok(TcpRepr {
        seq_number: LOCAL_SEQ + 1 + 6 + 6 + 6,
        ack_number: Some(REMOTE_SEQ + 1),
        payload: &b"ccc"[..],
        ..RECV_TEMPL
    }));
    recv_nothing(&mut s, Instant::from_millis(0));
}

#[test]
fn test_nagle_works_with_reduced_payload_from_options() {
    const EFFECTIVE_MSS: usize = 64;

    let mut s = socket_established_with_buffer_sizes(256, 64);
    s.view().set_nagle_enabled(true);
    s.timestamps = true;
    s.remote_mss = EFFECTIVE_MSS;

    // Send small segment to "arm" Nagle's
    s.view().send_slice(b"abcdef").unwrap();
    recv_is(&mut s, 0, Ok(TcpRepr {
        seq_number: LOCAL_SEQ + 1,
        ack_number: Some(REMOTE_SEQ + 1),
        payload: &b"abcdef"[..],
        timestamp: Some(TcpTimestampRepr::new(0, 0)),
        ..RECV_TEMPL
    }));
    recv_nothing(&mut s, Instant::from_millis(0));

    // A full segment (once options are accounted for) should not be delayed and contain 12 bytes less due to timestamp
    s.view().send_slice(&[0; EFFECTIVE_MSS - 12]).unwrap();
    recv_is(&mut s, 0, Ok(TcpRepr {
        seq_number: LOCAL_SEQ + 1 + 6,
        ack_number: Some(REMOTE_SEQ + 1),
        payload: &[0; EFFECTIVE_MSS - 12],
        timestamp: Some(TcpTimestampRepr::new(0, 0)),
        ..RECV_TEMPL
    }));
    recv_nothing(&mut s, Instant::from_millis(0));
}

#[test]
fn test_final_packet_in_stream_doesnt_wait_for_nagle() {
    let mut s = socket_established();
    s.remote_mss = 6;
    s.view().send_slice(b"abcdef0").unwrap();
    s.view().close();

    recv_is_exactly(&mut s, 0, Ok(TcpRepr {
        control:    TcpControl::Plain,
        seq_number: LOCAL_SEQ + 1,
        ack_number: Some(REMOTE_SEQ + 1),
        payload:    &b"abcdef"[..],
        ..RECV_TEMPL
    }));
    recv_is_exactly(&mut s, 0, Ok(TcpRepr {
        control:    TcpControl::Fin,
        seq_number: LOCAL_SEQ + 1 + 6,
        ack_number: Some(REMOTE_SEQ + 1),
        payload:    &b"0"[..],
        ..RECV_TEMPL
    }));
}

// =========================================================================================//
// Tests for packet filtering.
// =========================================================================================//

#[test]
fn test_doesnt_accept_wrong_port() {
    let mut s = socket_established();
    s.rx_buffer = SocketBuffer::new(ManagedSlice::Borrowed(vec![0; 6].leak()));
    s.assembler = Assembler::new();

    let tcp_repr = TcpRepr {
        seq_number: REMOTE_SEQ + 1,
        ack_number: Some(LOCAL_SEQ + 1),
        dst_port: LOCAL_PORT + 1,
        ..SEND_TEMPL
    };
    assert!(
        !s.sockets
            .get(0)
            .accepts(&REMOTE_ADDR.into(), &LOCAL_ADDR.into(), &tcp_repr)
    );

    let tcp_repr = TcpRepr {
        seq_number: REMOTE_SEQ + 1,
        ack_number: Some(LOCAL_SEQ + 1),
        src_port: REMOTE_PORT + 1,
        ..SEND_TEMPL
    };
    assert!(
        !s.sockets
            .get(0)
            .accepts(&REMOTE_ADDR.into(), &LOCAL_ADDR.into(), &tcp_repr)
    );
}

#[test]
fn test_doesnt_accept_wrong_ip() {
    let s = socket_established();

    let tcp_repr = TcpRepr {
        seq_number: REMOTE_SEQ + 1,
        ack_number: Some(LOCAL_SEQ + 1),
        payload: &b"abcdef"[..],
        ..SEND_TEMPL
    };

    assert!(
        s.sockets
            .get(0)
            .accepts(&REMOTE_ADDR.into(), &LOCAL_ADDR.into(), &tcp_repr)
    );

    // Wrong source address.
    assert!(
        !s.sockets
            .get(0)
            .accepts(&OTHER_ADDR.into(), &LOCAL_ADDR.into(), &tcp_repr)
    );

    // Wrong destination address.
    assert!(
        !s.sockets
            .get(0)
            .accepts(&REMOTE_ADDR.into(), &OTHER_ADDR.into(), &tcp_repr)
    );
}

// =========================================================================================//
// Timer tests
// =========================================================================================//

#[test]
fn test_timer_retransmit() {
    let rto = Duration::from_millis(100);
    let mut r = Timer::new();
    assert!(!r.should_retransmit(Instant::from_secs(1)));
    r.set_for_retransmit(Instant::from_millis(1000), rto);
    assert!(!r.should_retransmit(Instant::from_millis(1000)));
    assert!(!r.should_retransmit(Instant::from_millis(1050)));
    assert!(r.should_retransmit(Instant::from_millis(1101)));
    r.set_for_retransmit(Instant::from_millis(1101), rto);
    assert!(!r.should_retransmit(Instant::from_millis(1101)));
    assert!(!r.should_retransmit(Instant::from_millis(1150)));
    assert!(!r.should_retransmit(Instant::from_millis(1200)));
    assert!(r.should_retransmit(Instant::from_millis(1301)));
    r.set_for_idle(Instant::from_millis(1301), None);
    assert!(!r.should_retransmit(Instant::from_millis(1350)));
}

#[test]
fn test_rtt_estimator() {
    let mut r = RttEstimator::default();

    let rtos = &[
        6000, 5000, 4252, 3692, 3272, 2956, 2720, 2540, 2408, 2308, 2232, 2176, 2132, 2100, 2076, 2060, 2048, 2036,
        2028, 2024, 2020, 2016, 2012, 2012,
    ];

    for &rto in rtos {
        r.sample(2000);
        assert_eq!(r.retransmission_timeout(), Duration::from_millis(rto));
    }
}

// =========================================================================================//
// Timestamp tests
// =========================================================================================//

#[test]
fn test_tsval_established_connection() {
    let mut s = socket_established();
    s.timestamps = true;

    // First roundtrip after establishing.
    s.view().send_slice(b"abcdef").unwrap();
    recv_is(&mut s, 0, Ok(TcpRepr {
        seq_number: LOCAL_SEQ + 1,
        ack_number: Some(REMOTE_SEQ + 1),
        payload: &b"abcdef"[..],
        timestamp: Some(TcpTimestampRepr::new(0, 0)),
        ..RECV_TEMPL
    }));
    recv_nothing(&mut s, Instant::from_millis(0));
    assert_eq!(s.tx_buffer.len(), 6);
    assert_eq!(
        send(&mut s, Instant::from_millis(0), &TcpRepr {
            seq_number: REMOTE_SEQ + 1,
            ack_number: Some(LOCAL_SEQ + 1 + 6),
            timestamp: Some(TcpTimestampRepr::new(500, 0)),
            ..SEND_TEMPL
        }),
        None
    );
    assert_eq!(s.tx_buffer.len(), 0);
    // Second roundtrip.
    s.view().send_slice(b"foobar").unwrap();
    recv_is(&mut s, 100, Ok(TcpRepr {
        seq_number: LOCAL_SEQ + 1 + 6,
        ack_number: Some(REMOTE_SEQ + 1),
        payload: &b"foobar"[..],
        timestamp: Some(TcpTimestampRepr::new(100, 500)),
        ..RECV_TEMPL
    }));
    recv_nothing(&mut s, Instant::from_millis(100));
    assert_eq!(
        send(&mut s, Instant::from_millis(100), &TcpRepr {
            seq_number: REMOTE_SEQ + 1,
            ack_number: Some(LOCAL_SEQ + 1 + 6 + 6),
            ..SEND_TEMPL
        }),
        None
    );
    assert_eq!(s.tx_buffer.len(), 0);
}

#[test]
fn test_tsval_offset() {
    // The tsval is the clock plus the connection's random offset, so it
    // does not leak the time since boot. The sum wraps.
    let mut s = socket_established();
    s.timestamps = true;
    s.tsval_offset = 0xffff_ff00;

    s.view().send_slice(b"abcdef").unwrap();
    recv_is(&mut s, 500, Ok(TcpRepr {
        seq_number: LOCAL_SEQ + 1,
        ack_number: Some(REMOTE_SEQ + 1),
        payload: &b"abcdef"[..],
        timestamp: Some(TcpTimestampRepr::new(0xffff_ff00u32.wrapping_add(500), 0)),
        ..RECV_TEMPL
    }));
    recv_nothing(&mut s, Instant::from_millis(500));
}

fn accepted_socket(syn: &TcpRepr) -> TestSocket {
    let (mut stack, h) = listener_stack();
    assert!(listener_deliver(&mut stack, syn));
    let sh = stack
        .tcp_listener(h)
        .accept_with_bufs(buffer(64), buffer(64))
        .unwrap();
    accepted(stack, sh)
}

#[test]
fn test_tsval_in_accepted_socket() {
    // A SYN carrying a timestamp gets a SYN|ACK echoing its tsval.
    let mut s = accepted_socket(&TcpRepr {
        timestamp: Some(TcpTimestampRepr::new(500, 0)),
        ..syn_repr()
    });
    assert!(s.timestamps);
    recv_is(&mut s, 0, Ok(TcpRepr {
        control: TcpControl::Syn,
        seq_number: LOCAL_SEQ,
        ack_number: Some(REMOTE_SEQ + 1),
        max_seg_size: Some(BASE_MSS),
        timestamp: Some(TcpTimestampRepr::new(0, 500)),
        ..RECV_TEMPL
    }));
    recv_nothing(&mut s, Instant::from_millis(0));

    // A SYN without one gets a SYN|ACK without one: we only answer with
    // timestamps if the remote offered them.
    let mut s = accepted_socket(&syn_repr());
    assert!(!s.timestamps);
    recv_is(&mut s, 0, Ok(TcpRepr {
        control: TcpControl::Syn,
        seq_number: LOCAL_SEQ,
        ack_number: Some(REMOTE_SEQ + 1),
        max_seg_size: Some(BASE_MSS),
        timestamp: None,
        ..RECV_TEMPL
    }));
    recv_nothing(&mut s, Instant::from_millis(0));
}

#[test]
fn test_tsval_enabled_by_handshake() {
    // Every connection we open offers timestamps, and a remote that answers
    // with one keeps them on for the rest of the connection.
    let mut s = socket();
    s.local_seq_no = LOCAL_SEQ;
    s.view().connect(REMOTE_END, LOCAL_END.port.into()).unwrap();
    pin_initial_numbers(&mut s);
    assert!(s.timestamps);
    recv_is(&mut s, 0, Ok(TcpRepr {
        control: TcpControl::Syn,
        seq_number: LOCAL_SEQ,
        ack_number: None,
        max_seg_size: Some(BASE_MSS),
        window_scale: Some(0),
        sack_permitted: true,
        timestamp: Some(TcpTimestampRepr::new(0, 0)),
        ..RECV_TEMPL
    }));
    recv_nothing(&mut s, Instant::from_millis(0));
    assert_eq!(
        send(&mut s, Instant::from_millis(0), &TcpRepr {
            control: TcpControl::Syn,
            seq_number: REMOTE_SEQ,
            ack_number: Some(LOCAL_SEQ + 1),
            max_seg_size: Some(BASE_MSS - 80),
            window_scale: Some(0),
            timestamp: Some(TcpTimestampRepr::new(500, 0)),
            ..SEND_TEMPL
        }),
        None
    );
    assert!(s.timestamps);
    s.view().send_slice(b"abcdef").unwrap();
    recv_is(&mut s, 0, Ok(TcpRepr {
        seq_number: LOCAL_SEQ + 1,
        ack_number: Some(REMOTE_SEQ + 1),
        payload: &b"abcdef"[..],
        timestamp: Some(TcpTimestampRepr::new(0, 500)),
        ..RECV_TEMPL
    }));
    recv_nothing(&mut s, Instant::from_millis(0));
}

#[test]
fn test_tsval_disabled_in_remote_server() {
    // A remote that answers our SYN without a timestamp turns them off.
    let mut s = socket();
    s.local_seq_no = LOCAL_SEQ;
    s.view().connect(REMOTE_END, LOCAL_END.port.into()).unwrap();
    pin_initial_numbers(&mut s);
    assert!(s.timestamps);
    recv_is(&mut s, 0, Ok(TcpRepr {
        control: TcpControl::Syn,
        seq_number: LOCAL_SEQ,
        ack_number: None,
        max_seg_size: Some(BASE_MSS),
        window_scale: Some(0),
        sack_permitted: true,
        timestamp: Some(TcpTimestampRepr::new(0, 0)),
        ..RECV_TEMPL
    }));
    recv_nothing(&mut s, Instant::from_millis(0));
    assert_eq!(
        send(&mut s, Instant::from_millis(0), &TcpRepr {
            control: TcpControl::Syn,
            seq_number: REMOTE_SEQ,
            ack_number: Some(LOCAL_SEQ + 1),
            max_seg_size: Some(BASE_MSS - 80),
            window_scale: Some(0),
            timestamp: None,
            ..SEND_TEMPL
        }),
        None
    );
    assert!(!s.timestamps);
    s.view().send_slice(b"abcdef").unwrap();
    recv_is(&mut s, 0, Ok(TcpRepr {
        seq_number: LOCAL_SEQ + 1,
        ack_number: Some(REMOTE_SEQ + 1),
        payload: &b"abcdef"[..],
        timestamp: None,
        ..RECV_TEMPL
    }));
    recv_nothing(&mut s, Instant::from_millis(0));
}

// =========================================================================================//
// Tests for Selective Acknowledgements
// =========================================================================================//

/// Creates a SACK range from segment's left and right edges.
fn block(left: usize, right: usize) -> Option<(u32, u32)> {
    Some(((REMOTE_SEQ + 1 + left).0 as u32, (REMOTE_SEQ + 1 + right).0 as u32))
}

/// Sets up a socket to the initial conditions used in the RFC 2018 test cases.
///
/// RFC 2018: Assume the left window edge is 5000 and that the data transmitter sends [...]
/// segments, each containing 500 data bytes.
fn setup_rfc2018_cases() -> (TestSocket, Vec<u8>) {
    setup_rfc2018_cases_with_rx_buffer(4000)
}

/// As `setup_rfc2018_cases()`, with the receive buffer size chosen by the caller.
fn setup_rfc2018_cases_with_rx_buffer(rx_len: usize) -> (TestSocket, Vec<u8>) {
    let mut s = socket_established_with_buffer_sizes(4000, rx_len);
    s.remote_has_sack = true;

    // The window advertised while one 500 byte segment sits undrained.
    let win = (rx_len - 500) as u16;

    // create a segment that is 500 bytes long
    let mut segment: Vec<u8> = Vec::with_capacity(500);

    // move the last ack to 5000 by sending ten of them
    for _ in 0..50 {
        segment.extend_from_slice(b"abcdefghij")
    }
    for offset in (0..5000).step_by(500) {
        assert_eq!(
            send(&mut s, Instant::from_millis(0), &TcpRepr {
                seq_number: REMOTE_SEQ + 1 + offset,
                ack_number: Some(LOCAL_SEQ + 1),
                payload: &segment,
                ..SEND_TEMPL
            }),
            None
        );
        recv_is(&mut s, 0, Ok(TcpRepr {
            seq_number: LOCAL_SEQ + 1,
            ack_number: Some(REMOTE_SEQ + 1 + offset + 500),
            window_len: win,
            ..RECV_TEMPL
        }));
        recv_nothing(&mut s, Instant::from_millis(0));
        s.view()
            .recv(|data| {
                assert_eq!(data.len(), 500);
                assert_eq!(data, segment.as_slice());
                (500, ())
            })
            .unwrap();
    }
    assert_eq!(s.remote_last_win, win);
    (s, segment)
}

/// Case:
/// Following RFC 2018 setup, the first segment is dropped but the
/// remaining 7 are received.
///
/// Outcome:
/// Upon receiving each of the last seven packets, the data receiver will
/// return a TCP ACK segment that acknowledges sequence number 5000 and
/// contains a SACK option specifying one block of queued data.
///
///                             +---------------+----------------+
///                             |          First Block           |
/// +-------------+-------------+---------------+----------------+
/// |    Segment  |     ACK     |   Left Edge   |   Right Edge   |
/// +-------------+-------------+---------------+----------------|
/// |    5000     |    (lost)   |               |                |
/// |    5500     |    5000     |     5500      |      6000      |
/// |    6000     |    5000     |     5500      |      6500      |
/// |    6500     |    5000     |     5500      |      7000      |
/// |    7000     |    5000     |     5500      |      7500      |
/// |    7500     |    5000     |     5500      |      8000      |
/// |    8000     |    5000     |     5500      |      8500      |
/// |    8500     |    5000     |     5500      |      9000      |
/// +-------------+-------------+---------------+----------------+
#[test]
fn test_sack_rfc2018_case_2() {
    let (mut s, segment) = setup_rfc2018_cases();

    for offset in (500..3500).step_by(500) {
        assert_eq!(
            send(&mut s, Instant::from_millis(0), &TcpRepr {
                seq_number: REMOTE_SEQ + 1 + offset + 5000,
                ack_number: Some(LOCAL_SEQ + 1),
                payload: &segment,
                ..SEND_TEMPL
            }),
            Some(TcpRepr {
                seq_number: LOCAL_SEQ + 1,
                ack_number: Some(REMOTE_SEQ + 1 + 5000),
                window_len: 4000,
                sack_ranges: [block(5500, 5500 + offset), None, None],
                ..RECV_TEMPL
            })
        );
    }
}

/// Case:
/// Following RFC 2018 setup, the 2nd, 4th, 6th, and 8th (last) segments
/// are dropped.
///
/// Outcome:
/// The data receiver ACKs the first packet normally.  The third, fifth, and
/// seventh packets trigger SACK options.
///
///                          +-----------------+-----------------+-----------------+
///                          |   First Block   |  Second Block   |   Third Block   |
/// +------------+----------+--------+--------+--------+--------+--------+--------+
/// |   Segment  |    ACK   |  Left  |  Right |  Left  |  Right |  Left  |  Right |
/// +------------+----------+--------+--------+--------+--------+--------+--------+
/// |    5000    |   5500   |        |        |        |        |        |        |
/// |    5500    |   (lost) |        |        |        |        |        |        |
/// |    6000    |   5500   |  6000  |  6500  |        |        |        |        |
/// |    6500    |   (lost) |        |        |        |        |        |        |
/// |    7000    |   5500   |  7000  |  7500  |  6000  |  6500  |        |        |
/// |    7500    |   (lost) |        |        |        |        |        |        |
/// |    8000    |   5500   |  8000  |  8500  |  7000  |  7500  |  6000  |  6500  |
/// |    8500    |   (lost) |        |        |        |        |        |        |
/// +------------+----------+--------+--------+--------+--------+--------+--------+
///
/// Now, the 4th, 2nd and 6th (not specified in RFC test case) segments are
/// received:
///
///                          +-----------------+-----------------+-----------------+
///                          |   First Block   |  Second Block   |   Third Block   |
/// +------------+----------+--------+--------+--------+--------+--------+--------+
/// |   Segment  |    ACK   |  Left  |  Right |  Left  |  Right |  Left  |  Right |
/// +------------+----------+--------+--------+--------+--------+--------+--------+
/// |    6500    |   5500   |  6000  |  7500  |  8000  |  8500  |        |        |
/// |    5500    |   7500   |  8000  |  8500  |        |        |        |        |
/// |    7500    |   8500   |        |        |        |        |        |        |
/// +------------+----------+--------+--------+--------+--------+--------+--------+
#[test]
fn test_sack_rfc2018_case_3() {
    let (mut s, segment) = setup_rfc2018_cases();

    // Segment 5000 advances the left edge.
    assert_eq!(
        send(&mut s, Instant::from_millis(0), &TcpRepr {
            seq_number: REMOTE_SEQ + 1 + 5000,
            ack_number: Some(LOCAL_SEQ + 1),
            payload: &segment,
            ..SEND_TEMPL
        }),
        None
    );
    recv_is(&mut s, 0, Ok(TcpRepr {
        seq_number: LOCAL_SEQ + 1,
        ack_number: Some(REMOTE_SEQ + 1 + 5500),
        window_len: 3500,
        sack_ranges: [None, None, None],
        ..RECV_TEMPL
    }));
    recv_nothing(&mut s, Instant::from_millis(0));

    // 5500 is lost. Segment 6000 opens an island. One SACK block should be reported.
    assert_eq!(
        send(&mut s, Instant::from_millis(0), &TcpRepr {
            seq_number: REMOTE_SEQ + 1 + 6000,
            ack_number: Some(LOCAL_SEQ + 1),
            payload: &segment,
            ..SEND_TEMPL
        }),
        Some(TcpRepr {
            seq_number: LOCAL_SEQ + 1,
            ack_number: Some(REMOTE_SEQ + 1 + 5500),
            window_len: 3500,
            sack_ranges: [block(6000, 6500), None, None],
            ..RECV_TEMPL
        })
    );

    // 6500 is lost. Segment 7000 opens a second island. Two SACK blocks should be reported.
    assert_eq!(
        send(&mut s, Instant::from_millis(0), &TcpRepr {
            seq_number: REMOTE_SEQ + 1 + 7000,
            ack_number: Some(LOCAL_SEQ + 1),
            payload: &segment,
            ..SEND_TEMPL
        }),
        Some(TcpRepr {
            seq_number: LOCAL_SEQ + 1,
            ack_number: Some(REMOTE_SEQ + 1 + 5500),
            window_len: 3500,
            sack_ranges: [block(7000, 7500), block(6000, 6500), None],
            ..RECV_TEMPL
        })
    );

    // 7500 is lost. Segment 8000 opens a third island. Three SACK blocks should be reported.
    assert_eq!(
        send(&mut s, Instant::from_millis(0), &TcpRepr {
            seq_number: REMOTE_SEQ + 1 + 8000,
            ack_number: Some(LOCAL_SEQ + 1),
            payload: &segment,
            ..SEND_TEMPL
        }),
        Some(TcpRepr {
            seq_number: LOCAL_SEQ + 1,
            ack_number: Some(REMOTE_SEQ + 1 + 5500),
            window_len: 3500,
            sack_ranges: [block(8000, 8500), block(7000, 7500), block(6000, 6500)],
            ..RECV_TEMPL
        })
    );

    // 6500 is received out of order. SACK ranges merge. Two SACK blocks should be reported.
    assert_eq!(
        send(&mut s, Instant::from_millis(0), &TcpRepr {
            seq_number: REMOTE_SEQ + 1 + 6500,
            ack_number: Some(LOCAL_SEQ + 1),
            payload: &segment,
            ..SEND_TEMPL
        }),
        Some(TcpRepr {
            seq_number: LOCAL_SEQ + 1,
            ack_number: Some(REMOTE_SEQ + 1 + 5500),
            window_len: 3500,
            sack_ranges: [block(6000, 7500), block(8000, 8500), None],
            ..RECV_TEMPL
        })
    );

    // 5500 is received out of order. Window advances. One SACK block should be reported.
    assert_eq!(
        send(&mut s, Instant::from_millis(0), &TcpRepr {
            seq_number: REMOTE_SEQ + 1 + 5500,
            ack_number: Some(LOCAL_SEQ + 1),
            payload: &segment,
            ..SEND_TEMPL
        }),
        Some(TcpRepr {
            seq_number: LOCAL_SEQ + 1,
            ack_number: Some(REMOTE_SEQ + 1 + 7500),
            window_len: 1500,
            sack_ranges: [block(8000, 8500), None, None],
            ..RECV_TEMPL
        })
    );

    // 7500 is received. Window advances. No SACK blocks should be reported.
    assert_eq!(
        send(&mut s, Instant::from_millis(0), &TcpRepr {
            seq_number: REMOTE_SEQ + 1 + 7500,
            ack_number: Some(LOCAL_SEQ + 1),
            payload: &segment,
            ..SEND_TEMPL
        }),
        Some(TcpRepr {
            seq_number: LOCAL_SEQ + 1,
            ack_number: Some(REMOTE_SEQ + 1 + 8500),
            window_len: 500,
            sack_ranges: [None, None, None],
            ..RECV_TEMPL
        })
    );

    assert_eq!(s.local_sack_history, [None, None, None]);
}

/// Case:
/// Following RFC 2018 setup, the 2nd, 4th and 6th segments are dropped. The
///  network reorders the survivors and then the remote transmits a pure ACK.
///
/// Outcome:
/// The data receiver ACKs the first segment normally. Each later segment
/// triggers a SACK option and leads with its own block.
///
///                          +-----------------+-----------------+-----------------+
///                          |   First Block   |  Second Block   |   Third Block   |
/// +------------+----------+--------+--------+--------+--------+--------+--------+
/// |   Segment  |    ACK   |  Left  |  Right |  Left  |  Right |  Left  |  Right |
/// +------------+----------+--------+--------+--------+--------+--------+--------+
/// |    5000    |   5500   |        |        |        |        |        |        |
/// |    5500    |   (lost) |        |        |        |        |        |        |
/// |    8000    |   5500   |  8000  |  8500  |        |        |        |        |
/// |    8500    |   5500   |  8000  |  9000  |        |        |        |        |
/// |    7000    |   5500   |  7000  |  7500  |  8000  |  9000  |        |        |
/// |    6000    |   5500   |  6000  |  6500  |  7000  |  7500  |  8000  |  9000  |
/// +------------+----------+--------+--------+--------+--------+--------+--------+
///
/// A pure ACK from the transmitter now arrives. It carries no data and has a
/// sequence number of 9000, right on the edge of the data held by the assembler.
///
///                          +-----------------+-----------------+-----------------+
///                          |   First Block   |  Second Block   |   Third Block   |
/// +------------+----------+--------+--------+--------+--------+--------+--------+
/// |   Segment  |    ACK   |  Left  |  Right |  Left  |  Right |  Left  |  Right |
/// +------------+----------+--------+--------+--------+--------+--------+--------+
/// | (pure ACK) |   5500   |  6000  |  6500  |  7000  |  7500  |  8000  |  9000  |
/// +------------+----------+--------+--------+--------+--------+--------+--------+
#[test]
fn test_sack_not_affected_by_pure_ack() {
    let (mut s, segment) = setup_rfc2018_cases_with_rx_buffer(5000);

    // Segment 5000 advances the left edge.
    assert_eq!(
        send(&mut s, Instant::from_millis(0), &TcpRepr {
            seq_number: REMOTE_SEQ + 1 + 5000,
            ack_number: Some(LOCAL_SEQ + 1),
            payload: &segment,
            ..SEND_TEMPL
        }),
        None
    );
    recv_is(&mut s, 0, Ok(TcpRepr {
        seq_number: LOCAL_SEQ + 1,
        ack_number: Some(REMOTE_SEQ + 1 + 5500),
        window_len: 4500,
        sack_ranges: [None, None, None],
        ..RECV_TEMPL
    }));
    recv_nothing(&mut s, Instant::from_millis(0));

    // Segment 8000 arrives early and opens an island.
    // One SACK block should be reported.
    assert_eq!(
        send(&mut s, Instant::from_millis(0), &TcpRepr {
            seq_number: REMOTE_SEQ + 1 + 8000,
            ack_number: Some(LOCAL_SEQ + 1),
            payload: &segment,
            ..SEND_TEMPL
        }),
        Some(TcpRepr {
            seq_number: LOCAL_SEQ + 1,
            ack_number: Some(REMOTE_SEQ + 1 + 5500),
            window_len: 4500,
            sack_ranges: [block(8000, 8500), None, None],
            ..RECV_TEMPL
        })
    );

    // Segment 8500 arrives early and increases the island width.
    // One SACK block should be reported.
    assert_eq!(
        send(&mut s, Instant::from_millis(0), &TcpRepr {
            seq_number: REMOTE_SEQ + 1 + 8500,
            ack_number: Some(LOCAL_SEQ + 1),
            payload: &segment,
            ..SEND_TEMPL
        }),
        Some(TcpRepr {
            seq_number: LOCAL_SEQ + 1,
            ack_number: Some(REMOTE_SEQ + 1 + 5500),
            window_len: 4500,
            sack_ranges: [block(8000, 9000), None, None],
            ..RECV_TEMPL
        })
    );

    // Segment 7000 opens a second island.
    // Two SACK blocks should be reported.
    assert_eq!(
        send(&mut s, Instant::from_millis(0), &TcpRepr {
            seq_number: REMOTE_SEQ + 1 + 7000,
            ack_number: Some(LOCAL_SEQ + 1),
            payload: &segment,
            ..SEND_TEMPL
        }),
        Some(TcpRepr {
            seq_number: LOCAL_SEQ + 1,
            ack_number: Some(REMOTE_SEQ + 1 + 5500),
            window_len: 4500,
            sack_ranges: [block(7000, 7500), block(8000, 9000), None],
            ..RECV_TEMPL
        })
    );

    // Segment 6000 arrives and opens an island.
    // Three SACK blocks should be reported, with [6000, 6500) being first.
    assert_eq!(
        send(&mut s, Instant::from_millis(0), &TcpRepr {
            seq_number: REMOTE_SEQ + 1 + 6000,
            ack_number: Some(LOCAL_SEQ + 1),
            payload: &segment,
            ..SEND_TEMPL
        }),
        Some(TcpRepr {
            seq_number: LOCAL_SEQ + 1,
            ack_number: Some(REMOTE_SEQ + 1 + 5500),
            window_len: 4500,
            sack_ranges: [block(6000, 6500), block(7000, 7500), block(8000, 9000)],
            ..RECV_TEMPL
        })
    );

    // A pure ACK carrying the transmitter's snd_nxt of 9000. No payload.
    assert_eq!(
        send(&mut s, Instant::from_millis(0), &TcpRepr {
            seq_number: REMOTE_SEQ + 1 + 9000,
            ack_number: Some(LOCAL_SEQ + 1),
            payload: &[],
            ..SEND_TEMPL
        }),
        None
    );

    // Transmitted data will contain the SACK ranges.
    // SACK ordering should remain the same as before, unaffected by the pure ACK.
    s.view().send_slice(b"x").unwrap();
    recv_is(&mut s, 0, Ok(TcpRepr {
        seq_number: LOCAL_SEQ + 1,
        ack_number: Some(REMOTE_SEQ + 1 + 5500),
        window_len: 4500,
        payload: b"x",
        sack_ranges: [block(6000, 6500), block(7000, 7500), block(8000, 9000)],
        ..RECV_TEMPL
    }));
    recv_nothing(&mut s, Instant::from_millis(0));
}

/// Case:
/// Following RFC 2018 setup, the 2nd, 4th and 6th segments are dropped. The
/// network reorders the survivors and then a reordered pure ACK (SEQ < 9000) is
/// delivered.
///
///
/// Outcome:
/// The data receiver ACKs the first segment normally. Each later segment
/// triggers a SACK option and leads with its own block.
///
///                          +-----------------+-----------------+-----------------+
///                          |   First Block   |  Second Block   |   Third Block   |
/// +------------+----------+--------+--------+--------+--------+--------+--------+
/// |   Segment  |    ACK   |  Left  |  Right |  Left  |  Right |  Left  |  Right |
/// +------------+----------+--------+--------+--------+--------+--------+--------+
/// |    5000    |   5500   |        |        |        |        |        |        |
/// |    5500    |   (lost) |        |        |        |        |        |        |
/// |    8000    |   5500   |  8000  |  8500  |        |        |        |        |
/// |    8500    |   5500   |  8000  |  9000  |        |        |        |        |
/// |    7000    |   5500   |  7000  |  7500  |  8000  |  9000  |        |        |
/// |    6000    |   5500   |  6000  |  6500  |  7000  |  7500  |  8000  |  9000  |
/// +------------+----------+--------+--------+--------+--------+--------+--------+
///
/// A reordered pure ACK arrives, with a sequence number inside one of the ranges
/// held by the assembler.
///
///                          +-----------------+-----------------+-----------------+
///                          |   First Block   |  Second Block   |   Third Block   |
/// +------------+----------+--------+--------+--------+--------+--------+--------+
/// |   Segment  |    ACK   |  Left  |  Right |  Left  |  Right |  Left  |  Right |
/// +------------+----------+--------+--------+--------+--------+--------+--------+
/// | (pure ACK) |   5500   |  6000  |  6500  |  7000  |  7500  |  8000  |  9000  |
/// +------------+----------+--------+--------+--------+--------+--------+--------+
#[test]
fn test_sack_not_affected_by_reordered_pure_ack() {
    let (mut s, segment) = setup_rfc2018_cases_with_rx_buffer(5000);

    // Segment 5000 advances the left edge.
    assert_eq!(
        send(&mut s, Instant::from_millis(0), &TcpRepr {
            seq_number: REMOTE_SEQ + 1 + 5000,
            ack_number: Some(LOCAL_SEQ + 1),
            payload: &segment,
            ..SEND_TEMPL
        }),
        None
    );
    recv_is(&mut s, 0, Ok(TcpRepr {
        seq_number: LOCAL_SEQ + 1,
        ack_number: Some(REMOTE_SEQ + 1 + 5500),
        window_len: 4500,
        sack_ranges: [None, None, None],
        ..RECV_TEMPL
    }));
    recv_nothing(&mut s, Instant::from_millis(0));

    // Segment 8000 arrives early and opens an island.
    assert_eq!(
        send(&mut s, Instant::from_millis(0), &TcpRepr {
            seq_number: REMOTE_SEQ + 1 + 8000,
            ack_number: Some(LOCAL_SEQ + 1),
            payload: &segment,
            ..SEND_TEMPL
        }),
        Some(TcpRepr {
            seq_number: LOCAL_SEQ + 1,
            ack_number: Some(REMOTE_SEQ + 1 + 5500),
            window_len: 4500,
            sack_ranges: [block(8000, 8500), None, None],
            ..RECV_TEMPL
        })
    );

    // Segment 8500 arrives early and increases the island width.
    assert_eq!(
        send(&mut s, Instant::from_millis(0), &TcpRepr {
            seq_number: REMOTE_SEQ + 1 + 8500,
            ack_number: Some(LOCAL_SEQ + 1),
            payload: &segment,
            ..SEND_TEMPL
        }),
        Some(TcpRepr {
            seq_number: LOCAL_SEQ + 1,
            ack_number: Some(REMOTE_SEQ + 1 + 5500),
            window_len: 4500,
            sack_ranges: [block(8000, 9000), None, None],
            ..RECV_TEMPL
        })
    );

    // Segment 7000 opens a second island.
    assert_eq!(
        send(&mut s, Instant::from_millis(0), &TcpRepr {
            seq_number: REMOTE_SEQ + 1 + 7000,
            ack_number: Some(LOCAL_SEQ + 1),
            payload: &segment,
            ..SEND_TEMPL
        }),
        Some(TcpRepr {
            seq_number: LOCAL_SEQ + 1,
            ack_number: Some(REMOTE_SEQ + 1 + 5500),
            window_len: 4500,
            sack_ranges: [block(7000, 7500), block(8000, 9000), None],
            ..RECV_TEMPL
        })
    );

    // Segment 6000 opens a third island and becomes the last data segment.
    assert_eq!(
        send(&mut s, Instant::from_millis(0), &TcpRepr {
            seq_number: REMOTE_SEQ + 1 + 6000,
            ack_number: Some(LOCAL_SEQ + 1),
            payload: &segment,
            ..SEND_TEMPL
        }),
        Some(TcpRepr {
            seq_number: LOCAL_SEQ + 1,
            ack_number: Some(REMOTE_SEQ + 1 + 5500),
            window_len: 4500,
            sack_ranges: [block(6000, 6500), block(7000, 7500), block(8000, 9000)],
            ..RECV_TEMPL
        })
    );

    // The reordered pure ACK, carrying the snd_nxt of 8500 it was sent with.
    // No payload.
    assert_eq!(
        send(&mut s, Instant::from_millis(0), &TcpRepr {
            seq_number: REMOTE_SEQ + 1 + 8500,
            ack_number: Some(LOCAL_SEQ + 1),
            payload: &[],
            ..SEND_TEMPL
        }),
        None
    );

    // Transmitted data will contain the SACK ranges.
    // SACK ordering should remain the same as before, unaffected by the pure ACK.
    s.view().send_slice(b"x").unwrap();
    recv_is(&mut s, 0, Ok(TcpRepr {
        seq_number: LOCAL_SEQ + 1,
        ack_number: Some(REMOTE_SEQ + 1 + 5500),
        window_len: 4500,
        payload: b"x",
        sack_ranges: [block(6000, 6500), block(7000, 7500), block(8000, 9000)],
        ..RECV_TEMPL
    }));
    recv_nothing(&mut s, Instant::from_millis(0));
}

/// Case:
/// One island is held, so every outgoing ACK carries one SACK block. The socket
/// then gets one MSS of data to send.
///
/// Outcome:
/// The data should be split into two segments, due to the length of the options.
/// One full segment should be sent, and another carrying the remainder. One SACK
/// block is 10 option bytes, padded to 12 on the wire. This test does not
/// negotiate timestamps, so the option length is 12 and the remainder is also 12.
#[test]
fn test_sack_emitted_on_data_segments() {
    const REMOTE_MSS: usize = 128;
    const ONE_BLOCK_OPTS: usize = 12;
    const SEG: usize = REMOTE_MSS - ONE_BLOCK_OPTS;

    let mut s = socket_established_with_buffer_sizes(SEG * 2, 1024);
    s.remote_has_sack = true;
    s.remote_mss = REMOTE_MSS;
    s.remote_win_len = 9999;
    s.view().set_nagle_enabled(false);

    //  Open an island 100 bytes past the left edge
    assert_eq!(
        send(&mut s, Instant::from_millis(0), &TcpRepr {
            seq_number: REMOTE_SEQ + 1 + 100,
            ack_number: Some(LOCAL_SEQ + 1),
            payload: &[b'a'; 100],
            ..SEND_TEMPL
        }),
        Some(TcpRepr {
            seq_number: LOCAL_SEQ + 1,
            ack_number: Some(REMOTE_SEQ + 1),
            window_len: 1024,
            sack_ranges: [block(100, 200), None, None],
            ..RECV_TEMPL
        })
    );

    // One MSS of data should take two segments, due to effective MSS shrinkage from option length.
    s.view().send_slice(&[b'z'; REMOTE_MSS]).unwrap();
    recv_is(&mut s, 0, Ok(TcpRepr {
        seq_number: LOCAL_SEQ + 1,
        ack_number: Some(REMOTE_SEQ + 1),
        window_len: 1024,
        payload: &[b'z'; REMOTE_MSS - ONE_BLOCK_OPTS],
        sack_ranges: [block(100, 200), None, None],
        ..RECV_TEMPL
    }));
    recv_is(&mut s, 0, Ok(TcpRepr {
        seq_number: LOCAL_SEQ + 1 + (REMOTE_MSS - ONE_BLOCK_OPTS),
        ack_number: Some(REMOTE_SEQ + 1),
        window_len: 1024,
        payload: &[b'z'; ONE_BLOCK_OPTS],
        sack_ranges: [block(100, 200), None, None],
        ..RECV_TEMPL
    }));
    recv_nothing(&mut s, Instant::from_millis(0));
}

/// Case:
/// One island is held when the remote then closes its window. Data queues at the
/// socket and a zero window probe is sent.
///
/// Outcome:
/// The zero window probe carries the previously announced SACK range.
#[test]
fn test_sack_emitted_on_zero_window_probe() {
    let mut s = socket_established_with_buffer_sizes(64, 128);
    s.remote_has_sack = true;

    // A segment 20 bytes past the left edge opens one island
    assert_eq!(
        send(&mut s, Instant::from_millis(0), &TcpRepr {
            seq_number: REMOTE_SEQ + 1 + 20,
            ack_number: Some(LOCAL_SEQ + 1),
            payload: &[b'a'; 10],
            ..SEND_TEMPL
        }),
        Some(TcpRepr {
            seq_number: LOCAL_SEQ + 1,
            ack_number: Some(REMOTE_SEQ + 1),
            window_len: 128,
            sack_ranges: [block(20, 30), None, None],
            ..RECV_TEMPL
        })
    );

    // Queued data plus a closed remote window arms the probe timer
    s.view().send_slice(b"abcdef").unwrap();
    assert_eq!(
        send(&mut s, Instant::from_millis(0), &TcpRepr {
            seq_number: REMOTE_SEQ + 1,
            ack_number: Some(LOCAL_SEQ + 1),
            window_len: 0,
            ..SEND_TEMPL
        }),
        None
    );
    assert!(s.timer.is_zero_window_probe());

    // Timer triggers and ZWP triggers containing the SACK ranges
    recv_nothing(&mut s, Instant::from_millis(999));
    recv_is(&mut s, 1000, Ok(TcpRepr {
        seq_number: LOCAL_SEQ + 1,
        ack_number: Some(REMOTE_SEQ + 1),
        window_len: 128,
        payload: &b"a"[..],
        sack_ranges: [block(20, 30), None, None],
        ..RECV_TEMPL
    }));
    recv_nothing(&mut s, Instant::from_millis(1000));
}

/// Case:
/// Fill a 128 byte window with 96 contiguous bytes and a 10 byte out-of-order
/// segment. Then, the application drains the buffer.
///
/// Outcome:
/// The buffer drain should cause a window update to be sent. This update should
/// contain a SACK block and the window advertised should not include the bytes
/// from the out-of-order segment.
#[test]
fn test_sack_emitted_on_window_update() {
    let mut s = socket_established_with_buffer_sizes(64, 128);
    s.remote_has_sack = true;

    // Contiguous data to advance left edge and fill the buffer
    assert_eq!(
        send(&mut s, Instant::from_millis(0), &TcpRepr {
            seq_number: REMOTE_SEQ + 1,
            ack_number: Some(LOCAL_SEQ + 1),
            payload: &[b'a'; 96],
            ..SEND_TEMPL
        }),
        None
    );
    recv_is(&mut s, 0, Ok(TcpRepr {
        seq_number: LOCAL_SEQ + 1,
        ack_number: Some(REMOTE_SEQ + 1 + 96),
        window_len: 32,
        sack_ranges: [None, None, None],
        ..RECV_TEMPL
    }));
    recv_nothing(&mut s, Instant::from_millis(0));

    // 10 bytes, out-of-order, to create an island in the assembler
    assert_eq!(
        send(&mut s, Instant::from_millis(0), &TcpRepr {
            seq_number: REMOTE_SEQ + 1 + 106,
            ack_number: Some(LOCAL_SEQ + 1),
            payload: &[b'b'; 10],
            ..SEND_TEMPL
        }),
        Some(TcpRepr {
            seq_number: LOCAL_SEQ + 1,
            ack_number: Some(REMOTE_SEQ + 1 + 96),
            window_len: 32,
            sack_ranges: [block(106, 116), None, None],
            ..RECV_TEMPL
        })
    );

    // Receiving the data should trigger a window update
    s.view().recv(|data| (data.len(), ())).unwrap();

    recv_is(&mut s, 0, Ok(TcpRepr {
        seq_number: LOCAL_SEQ + 1,
        ack_number: Some(REMOTE_SEQ + 1 + 96),
        window_len: 128,
        sack_ranges: [block(106, 116), None, None],
        ..RECV_TEMPL
    }));
    recv_nothing(&mut s, Instant::from_millis(0));
}

/// Case:
/// Four islands arrive in reverse order: 8th, 6th, 4th then 2nd. Then, segment 1 is
/// received.
///
///                          +-----------------+-----------------+-----------------+
///                          |   First Block   |  Second Block   |   Third Block   |
/// +--------------+--------+--------+--------+--------+--------+--------+--------+
/// |    Segment   |   ACK  |  Left  |  Right |  Left  |  Right |  Left  |  Right |
/// +--------------+--------+--------+--------+--------+--------+--------+--------+
/// |     8500     |  5000  |  8500  |  9000  |        |        |        |        |
/// |     7500     |  5000  |  7500  |  8000  |  8500  |  9000  |        |        |
/// |     6500     |  5000  |  6500  |  7000  |  7500  |  8000  |  8500  |  9000  |
/// |     5500     |  5000  |  5500  |  6000  |  6500  |  7000  |  7500  |  8000  |
/// |     5000     |  6000  |  6500  |  7000  |  7500  |  8000  |  8500  |  9000  |
/// +--------------+--------+--------+--------+--------+--------+--------+--------+
///
/// Outcome:
/// Four islands should be held within the assembler, but only three blocks reported
/// in the order that they were received. When segment 1 is received and advances
/// the left edge, SACK ranges should now contain that fourth island.
#[test]
fn test_sack_reports_three_of_four_islands() {
    let (mut s, segment) = setup_rfc2018_cases_with_rx_buffer(5000);

    // Four islands in reverse order
    for (offset, expected) in [
        (8500, [block(8500, 9000), None, None]),
        (7500, [block(7500, 8000), block(8500, 9000), None]),
        (6500, [block(6500, 7000), block(7500, 8000), block(8500, 9000)]),
        (5500, [block(5500, 6000), block(6500, 7000), block(7500, 8000)]),
    ] {
        assert_eq!(
            send(&mut s, Instant::from_millis(0), &TcpRepr {
                seq_number: REMOTE_SEQ + 1 + offset,
                ack_number: Some(LOCAL_SEQ + 1),
                payload: &segment,
                ..SEND_TEMPL
            }),
            Some(TcpRepr {
                seq_number: LOCAL_SEQ + 1,
                ack_number: Some(REMOTE_SEQ + 1 + 5000),
                window_len: 5000,
                sack_ranges: expected,
                ..RECV_TEMPL
            })
        );
    }

    assert_eq!(s.assembler.count(), 4);

    // Advancing the left edge should remove one island and let another be reported
    assert_eq!(
        send(&mut s, Instant::from_millis(0), &TcpRepr {
            seq_number: REMOTE_SEQ + 1 + 5000,
            ack_number: Some(LOCAL_SEQ + 1),
            payload: &segment,
            ..SEND_TEMPL
        }),
        Some(TcpRepr {
            seq_number: LOCAL_SEQ + 1,
            ack_number: Some(REMOTE_SEQ + 1 + 6000),
            window_len: 4000,
            sack_ranges: [block(6500, 7000), block(7500, 8000), block(8500, 9000)],
            ..RECV_TEMPL
        })
    );
}

/// RFC 2018 defines the block edges as a half-open range:
///
/// - Left Edge of Block: the first sequence number of this block.
/// - Right Edge of Block: the sequence number immediately following the last
///   sequence number of this block.
///
/// So the right edge names the first byte the receiver does NOT hold.
///
/// Case:
/// Two segments arrive with a gap of exactly one byte between them, at 6500.
/// The one byte then arrives and closes the gap.
///
/// Outcome:
/// The first two arrivals must stay two separate blocks. A right edge of 6500
/// that meant "6500 is held" would leave no gap, and the two would report as
/// one block. The single byte at 6500 then merges them into one.
///
///                          +-----------------+-----------------+
///                          |   First Block   |  Second Block   |
/// +--------------+--------+--------+--------+--------+--------+
/// |    Segment   |   ACK  |  Left  |  Right |  Left  |  Right |
/// +--------------+--------+--------+--------+--------+--------+
/// |  6000..6500  |  5000  |  6000  |  6500  |        |        |
/// |  6501..7001  |  5000  |  6501  |  7001  |  6000  |  6500  |
/// |  6500..6501  |  5000  |  6000  |  7001  |        |        |
/// +--------------+--------+--------+--------+--------+--------+
#[test]
fn test_sack_is_an_exclusive_range() {
    let (mut s, segment) = setup_rfc2018_cases();

    // 500 bytes at 6000. The right edge is 6500, one past the last byte held.
    assert_eq!(
        send(&mut s, Instant::from_millis(0), &TcpRepr {
            seq_number: REMOTE_SEQ + 1 + 6000,
            ack_number: Some(LOCAL_SEQ + 1),
            payload: &segment,
            ..SEND_TEMPL
        }),
        Some(TcpRepr {
            seq_number: LOCAL_SEQ + 1,
            ack_number: Some(REMOTE_SEQ + 1 + 5000),
            window_len: 4000,
            sack_ranges: [block(6000, 6500), None, None],
            ..RECV_TEMPL
        })
    );

    // 500 bytes at 6501, leaving exactly one byte missing at 6500. Two blocks,
    // so 6500 is confirmed absent from the first one.
    assert_eq!(
        send(&mut s, Instant::from_millis(0), &TcpRepr {
            seq_number: REMOTE_SEQ + 1 + 6501,
            ack_number: Some(LOCAL_SEQ + 1),
            payload: &segment,
            ..SEND_TEMPL
        }),
        Some(TcpRepr {
            seq_number: LOCAL_SEQ + 1,
            ack_number: Some(REMOTE_SEQ + 1 + 5000),
            window_len: 4000,
            sack_ranges: [block(6501, 7001), block(6000, 6500), None],
            ..RECV_TEMPL
        })
    );

    // The one missing byte. Both islands become one, which is only possible if
    // 6500 was the gap and not part of either block.
    assert_eq!(
        send(&mut s, Instant::from_millis(0), &TcpRepr {
            seq_number: REMOTE_SEQ + 1 + 6500,
            ack_number: Some(LOCAL_SEQ + 1),
            payload: &segment[..1],
            ..SEND_TEMPL
        }),
        Some(TcpRepr {
            seq_number: LOCAL_SEQ + 1,
            ack_number: Some(REMOTE_SEQ + 1 + 5000),
            window_len: 4000,
            sack_ranges: [block(6000, 7001), None, None],
            ..RECV_TEMPL
        })
    );
}

/// Case:
/// Following from RFC 2018 setup, every second segment is dropped, so each
///  arrival opens a new island. The assembler holds at most  `ASSEMBLER_MAX_SEGMENT_COUNT`
/// islands, which `src/lib.rs` pins to 4 for test builds.
///
/// Outcome:
/// The data receiver ACKs the first segment normally. Each later arrival opens
/// an island and leads with its own block. Only three blocks fit, so the
/// island at 6000 stops being reported once a fourth one opens.
///
///                          +-----------------+-----------------+-----------------+
///                          |   First Block   |  Second Block   |   Third Block   |
/// +------------+----------+--------+--------+--------+--------+--------+--------+
/// |   Segment  |    ACK   |  Left  |  Right |  Left  |  Right |  Left  |  Right |
/// +------------+----------+--------+--------+--------+--------+--------+--------+
/// |    5000    |   5500   |        |        |        |        |        |        |
/// |    5500    |   (lost) |        |        |        |        |        |        |
/// |    6000    |   5500   |  6000  |  6500  |        |        |        |        |
/// |    6500    |   (lost) |        |        |        |        |        |        |
/// |    7000    |   5500   |  7000  |  7500  |  6000  |  6500  |        |        |
/// |    7500    |   (lost) |        |        |        |        |        |        |
/// |    8000    |   5500   |  8000  |  8500  |  7000  |  7500  |  6000  |  6500  |
/// |    8500    |   (lost) |        |        |        |        |        |        |
/// |    9000    |   5500   |  9000  |  9500  |  8000  |  8500  |  7000  |  7500  |
/// |    9500    |   (lost) |        |        |        |        |        |        |
/// +------------+----------+--------+--------+--------+--------+--------+--------+
///
/// The assembler now holds 4 islands and is full. Segment 10000 would open a
/// fifth, so the assembler rejects it with `TooManyHolesError` and the payload
/// is discarded. The segment still arrived out of order, so the immediate
/// duplicate ACK of RFC 5681 goes out anyway, restating the held ranges.
///
///                          +-----------------+-----------------+-----------------+
///                          |   First Block   |  Second Block   |   Third Block   |
/// +------------+----------+--------+--------+--------+--------+--------+--------+
/// |   Segment  |    ACK   |  Left  |  Right |  Left  |  Right |  Left  |  Right |
/// +------------+----------+--------+--------+--------+--------+--------+--------+
/// |   10000    |   5500   |  9000  |  9500  |  8000  |  8500  |  7000  |  7500  |
/// |  transmit  |   5500   |  9000  |  9500  |  8000  |  8500  |  7000  |  7500  |
/// +------------+----------+--------+--------+--------+--------+--------+--------+
#[test]
fn test_sack_works_when_assembler_rejects_segment() {
    // The window must stay wide enough that segment 10000 is still inside it,
    // so the assembler turns it away rather than the window check.
    let (mut s, segment) = setup_rfc2018_cases_with_rx_buffer(6000);

    // Segment 5000 advances the left edge.
    assert_eq!(
        send(&mut s, Instant::from_millis(0), &TcpRepr {
            seq_number: REMOTE_SEQ + 1 + 5000,
            ack_number: Some(LOCAL_SEQ + 1),
            payload: &segment,
            ..SEND_TEMPL
        }),
        None
    );
    recv_is(&mut s, 0, Ok(TcpRepr {
        seq_number: LOCAL_SEQ + 1,
        ack_number: Some(REMOTE_SEQ + 1 + 5500),
        window_len: 5500,
        sack_ranges: [None, None, None],
        ..RECV_TEMPL
    }));
    recv_nothing(&mut s, Instant::from_millis(0));

    // Every second segment is lost, so each arrival opens a fresh island.
    // The assembler is filled to capacity.
    for i in 0..4 {
        let offset = 6000 + i * 1000;
        assert_eq!(
            send(&mut s, Instant::from_millis(0), &TcpRepr {
                seq_number: REMOTE_SEQ + 1 + offset,
                ack_number: Some(LOCAL_SEQ + 1),
                payload: &segment,
                ..SEND_TEMPL
            }),
            Some(TcpRepr {
                seq_number: LOCAL_SEQ + 1,
                ack_number: Some(REMOTE_SEQ + 1 + 5500),
                window_len: 5500,
                sack_ranges: [
                    block(offset, offset + 500),
                    if i >= 1 { block(offset - 1000, offset - 500) } else { None },
                    if i >= 2 { block(offset - 2000, offset - 1500) } else { None },
                ],
                ..RECV_TEMPL
            })
        );
    }

    let islands_before = s.assembler.count();
    assert_eq!(islands_before, 4);

    let blocks_before = s.local_sack_history;

    // The assembler should reject this segment with `TooManyHolesError`.
    // The payload is dropped, but the out-of-order arrival still triggers
    // an immediate duplicate ACK restating the held ranges.
    let rejected = 10000;
    assert_eq!(
        send(&mut s, Instant::from_millis(0), &TcpRepr {
            seq_number: REMOTE_SEQ + 1 + rejected,
            ack_number: Some(LOCAL_SEQ + 1),
            payload: &segment,
            ..SEND_TEMPL
        }),
        Some(TcpRepr {
            seq_number: LOCAL_SEQ + 1,
            ack_number: Some(REMOTE_SEQ + 1 + 5500),
            window_len: 5500,
            sack_ranges: [block(9000, 9500), block(8000, 8500), block(7000, 7500)],
            ..RECV_TEMPL
        })
    );

    // Assembler must not hold the segment
    assert_eq!(s.assembler.count(), islands_before);
    assert!(!(0..s.assembler.count()).any(|i| s.assembler.range(i).0 == rejected - 5500));

    // The SACK history should not have changed
    assert_eq!(s.local_sack_history, blocks_before);

    // Transmitted data will contain the SACK ranges.
    // SACK ordering on the wire should remain as before, unaffected by the rejected segment.
    s.view().send_slice(b"x").unwrap();
    recv_is(&mut s, 0, Ok(TcpRepr {
        seq_number: LOCAL_SEQ + 1,
        ack_number: Some(REMOTE_SEQ + 1 + 5500),
        window_len: 5500,
        payload: b"x",
        sack_ranges: blocks_before.map(|b| b.map(|(l, r)| (l.0 as u32, r.0 as u32))),
        ..RECV_TEMPL
    }));
    recv_nothing(&mut s, Instant::from_millis(0));
}

// =========================================================================================//
// Tests for source IP address change.
// =========================================================================================//

#[test]
fn test_established_src_ip_change_drops_segments() {
    let mut s = socket_established();

    // Verify socket is working normally
    s.view().send_slice(b"abc").unwrap();
    recv_is(&mut s, 0, Ok(TcpRepr {
        seq_number: LOCAL_SEQ + 1,
        ack_number: Some(REMOTE_SEQ + 1),
        payload: &b"abc"[..],
        ..RECV_TEMPL
    }));
    recv_nothing(&mut s, Instant::from_millis(0));

    assert_eq!(
        send(&mut s, Instant::from_millis(0), &TcpRepr {
            seq_number: REMOTE_SEQ + 1,
            ack_number: Some(LOCAL_SEQ + 1 + 3),
            ..SEND_TEMPL
        }),
        None
    );

    // Simulate interface IP change - remove the socket's source IP
    // and add a different one.
    s.stack.ifaces.get_mut(0).ip_addrs.clear();
    s.stack.ifaces.get_mut(0).add_ip_addr(IpCidr::new(OTHER_ADDR.into(), 24));

    // The socket's source IP is no longer ours: dispatch treats it like a
    // routing failure. The segment is still built, but with no route, so
    // emit drops it. The socket stays open, and the retransmit timer owns
    // recovery in case the address comes back.
    s.view().send_slice(b"def").unwrap();
    let mut routes = vec![];
    let result: Result<(), ()> = s.sockets.get_mut(0).dispatch(
        &mut s.stack.tx_context(),
        |_, (route, _src_addr, _dst_addr, _hop_limit, _repr)| {
            routes.push(route.is_some());
            Ok(())
        },
    );
    assert_eq!(result, Ok(()));
    assert_eq!(routes, [false], "segment should be emitted with no route");
    assert_eq!(s.state, State::Established);

    // Restoring the address makes egress work again, and the retransmission
    // carries the dropped data.
    s.stack.ifaces.get_mut(0).ip_addrs.clear();
    s.stack.ifaces.get_mut(0).add_ip_addr(IpCidr::new(LOCAL_ADDR.into(), 24));
    recv_is(&mut s, 2000, Ok(TcpRepr {
        seq_number: LOCAL_SEQ + 1 + 3,
        ack_number: Some(REMOTE_SEQ + 1),
        payload:    &b"def"[..],
        ..RECV_TEMPL
    }));
}