//! The errors of TCP sockets, and how errors and states are named.
use super::State;
use vstd::prelude::*;

verus! {

/// Error returned when a listener cannot listen.
#[derive(Debug, Clone, Copy, PartialEq, Eq, Structural)]
pub enum ListenError {
    InvalidState,
    Unaddressable,
    /// Another TCP listener is bound to the identical endpoint.
    InUse,
}

/// Error returned when a connection cannot be accepted.
#[derive(Debug, Clone, Copy, PartialEq, Eq, Structural)]
pub enum AcceptError {
    /// The socket is still open, so it can't be reused for a new connection.
    InvalidState,
    /// The accept queue is empty.
    Exhausted,
}

/// Error returned by [`TcpSocket::connect`](super::socket::TcpSocket::connect).
#[derive(Debug, Clone, Copy, PartialEq, Eq, Structural)]
pub enum ConnectError {
    InvalidState,
    Unaddressable,
    /// No free port in the ephemeral range.
    NoFreePorts,
    /// Another TCP socket already holds the identical 4-tuple.
    InUse,
}

/// Error returned by [`TcpSocket::send`](super::socket::TcpSocket::send).
#[derive(Debug, Clone, Copy, PartialEq, Eq, Structural)]
pub enum SendError {
    InvalidState,
}

/// Error returned by [`TcpSocket::recv`](super::socket::TcpSocket::recv).
#[derive(Debug, Clone, Copy, PartialEq, Eq, Structural)]
pub enum RecvError {
    InvalidState,
    Finished,
}

impl ListenError {
    pub fn message(&self) -> (r: &'static str)
        ensures
            r@ == match self {
                ListenError::InvalidState => "invalid state"@,
                ListenError::Unaddressable => "unaddressable destination"@,
                ListenError::InUse => "port in use"@,
            },
    {
        match self {
            ListenError::InvalidState => "invalid state",
            ListenError::Unaddressable => "unaddressable destination",
            ListenError::InUse => "port in use",
        }
    }
}

impl AcceptError {
    pub fn message(&self) -> (r: &'static str)
        ensures
            r@ == match self {
                AcceptError::InvalidState => "invalid state"@,
                AcceptError::Exhausted => "exhausted"@,
            },
    {
        match self {
            AcceptError::InvalidState => "invalid state",
            AcceptError::Exhausted => "exhausted",
        }
    }
}

impl ConnectError {
    pub fn message(&self) -> (r: &'static str)
        ensures
            r@ == match self {
                ConnectError::InvalidState => "invalid state"@,
                ConnectError::Unaddressable => "unaddressable destination"@,
                ConnectError::NoFreePorts => "no free ports"@,
                ConnectError::InUse => "4-tuple in use"@,
            },
    {
        match self {
            ConnectError::InvalidState => "invalid state",
            ConnectError::Unaddressable => "unaddressable destination",
            ConnectError::NoFreePorts => "no free ports",
            ConnectError::InUse => "4-tuple in use",
        }
    }
}

impl SendError {
    pub fn message(&self) -> (r: &'static str)
        ensures
            r@ == "invalid state"@,
    {
        "invalid state"
    }
}

impl RecvError {
    pub fn message(&self) -> (r: &'static str)
        ensures
            r@ == match self {
                RecvError::InvalidState => "invalid state"@,
                RecvError::Finished => "operation finished"@,
            },
    {
        match self {
            RecvError::InvalidState => "invalid state",
            RecvError::Finished => "operation finished",
        }
    }
}

impl State {
    /// The name that RFC 793 gives to the state.
    pub fn name(&self) -> (r: &'static str)
        ensures
            r@ == match self {
                State::Closed => "CLOSED"@,
                State::SynSent => "SYN-SENT"@,
                State::SynReceived => "SYN-RECEIVED"@,
                State::Established => "ESTABLISHED"@,
                State::FinWait1 => "FIN-WAIT-1"@,
                State::FinWait2 => "FIN-WAIT-2"@,
                State::CloseWait => "CLOSE-WAIT"@,
                State::Closing => "CLOSING"@,
                State::LastAck => "LAST-ACK"@,
                State::TimeWait => "TIME-WAIT"@,
            },
    {
        match self {
            State::Closed => "CLOSED",
            State::SynSent => "SYN-SENT",
            State::SynReceived => "SYN-RECEIVED",
            State::Established => "ESTABLISHED",
            State::FinWait1 => "FIN-WAIT-1",
            State::FinWait2 => "FIN-WAIT-2",
            State::CloseWait => "CLOSE-WAIT",
            State::Closing => "CLOSING",
            State::LastAck => "LAST-ACK",
            State::TimeWait => "TIME-WAIT",
        }
    }
}

} // verus!
