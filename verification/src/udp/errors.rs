//! The errors of UDP sockets.
use crate::icmp_error::IcmpError;
use crate::wire::IpEndpoint;
use vstd::prelude::*;

verus! {

/// Error returned by [`UdpSocket::bind`](super::UdpSocket::bind).
#[derive(Debug, Clone, Copy, PartialEq, Eq, Structural)]
pub enum BindError {
    /// The socket is already bound.
    InvalidState,
    /// Another UDP socket holds an identical 4-tuple.
    InUse,
    /// No free port in the ephemeral range.
    NoFreePorts,
    /// The local and remote addresses belong to different address families, or no
    /// local address is available for the given remote.
    Unaddressable,
}

/// Error returned by [`UdpSocket::send_slice`](super::UdpSocket::send_slice) and
/// [`UdpSocket::send_with`](super::UdpSocket::send_with).
#[derive(Debug, Clone, Copy, PartialEq, Eq, Structural)]
pub enum SendError {
    /// The socket is not bound.
    InvalidState,
    /// The destination address or port is unspecified, or no matching source address
    /// is available.
    Unaddressable,
    /// The payload does not fit in a packet buffer.
    BufferFull,
    /// No packet buffer is free. Wait for one to be freed, then retry.
    NoBuffer,
    /// The interface the packet would go out of has no room for it right now.
    DeviceBusy,
}

/// Error returned by [`UdpSocket::recv`](super::UdpSocket::recv) and the peek methods.
#[derive(Debug, Clone, Copy, PartialEq, Eq, Structural)]
pub enum RecvError {
    /// The socket is not bound.
    InvalidState,
    /// The RX queue is empty.
    Exhausted,
    /// The provided slice is smaller than the payload. (The packet is dropped by
    /// `recv_slice`, but not by `peek_slice`.)
    Truncated,
    /// An ICMP error message quoting a packet this socket sent has arrived. It is
    /// reported once.
    IcmpError {
        /// The kind of error.
        error: IcmpError,
        /// The remote endpoint the erring packet was sent to.
        remote: IpEndpoint,
    },
}

impl BindError {
    /// What the error is called.
    pub fn message(&self) -> (r: &'static str)
        ensures
            r@ == match self {
                BindError::InvalidState => "invalid state"@,
                BindError::InUse => "port in use"@,
                BindError::NoFreePorts => "no free ports"@,
                BindError::Unaddressable => "unaddressable"@,
            },
    {
        match self {
            BindError::InvalidState => "invalid state",
            BindError::InUse => "port in use",
            BindError::NoFreePorts => "no free ports",
            BindError::Unaddressable => "unaddressable",
        }
    }
}

impl SendError {
    /// What the error is called.
    pub fn message(&self) -> (r: &'static str)
        ensures
            r@ == match self {
                SendError::InvalidState => "invalid state"@,
                SendError::Unaddressable => "unaddressable"@,
                SendError::BufferFull => "buffer full"@,
                SendError::NoBuffer => "no buffer"@,
                SendError::DeviceBusy => "device busy"@,
            },
    {
        match self {
            SendError::InvalidState => "invalid state",
            SendError::Unaddressable => "unaddressable",
            SendError::BufferFull => "buffer full",
            SendError::NoBuffer => "no buffer",
            SendError::DeviceBusy => "device busy",
        }
    }
}

impl RecvError {
    /// What the error is called. The kind and the endpoint of an ICMP error are in its
    /// fields.
    pub fn message(&self) -> (r: &'static str)
        ensures
            r@ == match self {
                RecvError::InvalidState => "invalid state"@,
                RecvError::Exhausted => "exhausted"@,
                RecvError::Truncated => "truncated"@,
                RecvError::IcmpError { .. } => "icmp error"@,
            },
    {
        match self {
            RecvError::InvalidState => "invalid state",
            RecvError::Exhausted => "exhausted",
            RecvError::Truncated => "truncated",
            RecvError::IcmpError { .. } => "icmp error",
        }
    }
}

} // verus!
