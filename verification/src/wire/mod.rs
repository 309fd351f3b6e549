//! Addresses, endpoints and header fields as they appear on the wire.
pub mod bytes;
pub mod checksum;
pub mod ip;
pub mod layout;
pub mod packet;
pub mod refusal;
pub mod seq;
pub mod udp;

pub use self::ip::{
    IpAddress, IpCidr, IpEndpoint, IpListenEndpoint, IpProtocol, IpVersion, Ipv4Address,
    Ipv6Address, IPV4_HEADER_LEN, IPV6_HEADER_LEN, LINK_HEADER_LEN,
};
pub use self::seq::TcpSeqNumber;
pub use self::udp::UDP_HEADER_LEN;
