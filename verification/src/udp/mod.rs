//! UDP sockets.
//!
//! A socket belongs to a stack, which hands it out as a [`UdpSocket`] for every
//! operation: receiving touches the state of the socket alone, while sending transmits
//! the datagram at once.
//!
//! [`UdpSocket::bind`] fixes parts of the socket's 4-tuple, the local and the remote
//! half at once, each part exact or left open. Binding to port zero allocates a port,
//! and a 4-tuple that another socket has is rejected.
//!
//! Received packets are queued with their IP and UDP headers. The addresses in
//! [`UdpMetadata`] are read from those headers.
pub mod errors;
pub mod exchange;
pub mod ingress;
pub mod iter;
pub mod laws;
pub mod reject;
pub mod socket;
pub mod state;

pub use self::errors::{BindError, RecvError, SendError};
pub use self::ingress::process_icmp_error;
pub use self::iter::UdpSocketIter;
pub use self::socket::UdpSocket;
pub use self::state::{RecvPacket, UdpMetadata, UdpSocketState};
use vstd::prelude::*;

verus! {

/// The number of UDP sockets that a stack has room for.
pub const UDP_SOCKET_COUNT: usize = 4;

/// The number of datagrams that a socket queues.
pub const UDP_RX_QUEUE_COUNT: usize = 4;

/// The number of a UDP socket added to a stack.
#[derive(Debug, Clone, Copy, PartialEq, Eq, Structural)]
pub struct UdpHandle {
    pub index: usize,
}

} // verus!
