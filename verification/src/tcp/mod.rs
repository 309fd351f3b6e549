//! TCP sockets.
pub mod arrivals;
pub mod congestion;
pub mod departures;
pub mod dispatch;
pub mod egress;
pub mod emit;
pub mod errors;
pub mod flush;
pub mod iter;
pub mod laws;
pub mod lifecycle;
pub mod listener;
pub mod model;
pub mod repr;
pub mod rtt;
pub mod sack;
pub mod socket;
pub mod state;
pub mod stream;
pub mod timer;

pub use self::errors::{AcceptError, ConnectError, ListenError, RecvError, SendError};
pub use self::iter::TcpSocketIter;
pub use self::listener::{TcpListener, TcpListenerHandle};
pub use self::socket::TcpSocket;

use crate::wire::IpEndpoint;
use vstd::prelude::*;

verus! {

/// The IP MTU assumed until the destination has been routed.
pub const DEFAULT_IP_MTU: usize = 1500;

/// The maximum segment size of the remote until it has announced one.
pub const DEFAULT_MSS: usize = 536;

/// The least maximum segment size that is accepted from the remote, so that
/// options cannot leave a segment without room for payload.
pub const MIN_REMOTE_MSS: usize = 48;

/// The largest receive buffer: RFC 7323 limits windows to this size.
pub const MAX_RX_CAPACITY: usize = 0x4000_0000;

/// The largest window scale of a remote (RFC 7323).
pub const MAX_WIN_SHIFT: u8 = 14;

/// The window scale that belongs to the largest receive buffer.
pub const MAX_OWN_WIN_SHIFT: u8 = 15;

/// The state of a TCP socket, according to RFC 793.
///
/// There is no `LISTEN` state: a socket only ever represents a single connection.
#[derive(Debug, Clone, Copy, PartialEq, Eq, Structural)]
pub enum State {
    Closed,
    SynSent,
    SynReceived,
    Established,
    FinWait1,
    FinWait2,
    CloseWait,
    Closing,
    LastAck,
    TimeWait,
}

/// The number of a TCP socket added to a stack.
#[derive(Debug, Clone, Copy, PartialEq, Eq, Structural)]
pub struct TcpHandle {
    pub index: usize,
}

/// The two ends of a connection.
#[derive(Debug, Clone, Copy, PartialEq, Eq, Structural)]
pub struct Tuple {
    pub local: IpEndpoint,
    pub remote: IpEndpoint,
}

} // verus!
