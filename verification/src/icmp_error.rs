//! Errors that the network reports about a packet sent earlier.
use vstd::prelude::*;

verus! {

/// What an ICMP error message says about the packet that it quotes.
#[derive(Debug, Clone, Copy, PartialEq, Eq, Structural)]
pub enum IcmpError {
    NetUnreachable,
    HostUnreachable,
    ProtocolUnreachable,
    PortUnreachable,
    TimeExceeded,
}

} // verus!
