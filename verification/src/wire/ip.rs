//! IP addresses, endpoints and address blocks.
use vstd::arithmetic::power2;
use vstd::prelude::*;
use vstd::std_specs::convert::FromSpecImpl;

verus! {

/// The length of an IPv4 header without options.
pub const IPV4_HEADER_LEN: usize = 20;

/// The length of an IPv6 header without extensions.
pub const IPV6_HEADER_LEN: usize = 40;

/// The room kept in front of an IP packet for the header of the link below it.
pub const LINK_HEADER_LEN: usize = 14;

/// An IPv4 address, as a number whose most significant octet comes first.
#[derive(Debug, Clone, Copy, PartialEq, Eq, Structural)]
pub struct Ipv4Address(pub u32);

/// An IPv6 address, as a number whose most significant octet comes first.
#[derive(Debug, Clone, Copy, PartialEq, Eq, Structural)]
pub struct Ipv6Address(pub u128);

#[derive(Debug, Clone, Copy, PartialEq, Eq, Structural)]
pub enum IpVersion {
    Ipv4,
    Ipv6,
}

#[derive(Debug, Clone, Copy, PartialEq, Eq, Structural)]
pub enum IpAddress {
    Ipv4(Ipv4Address),
    Ipv6(Ipv6Address),
}

/// An address and a port.
#[derive(Debug, Clone, Copy, PartialEq, Eq, Structural)]
pub struct IpEndpoint {
    pub addr: IpAddress,
    pub port: u16,
}

/// An endpoint whose parts may be left open: no address means any address of
/// either version, an unspecified address means any address of its version, and a
/// zero port means any port.
#[derive(Debug, Clone, Copy, PartialEq, Eq, Structural)]
pub struct IpListenEndpoint {
    pub addr: Option<IpAddress>,
    pub port: u16,
}

/// An address together with the length of the prefix that its network shares.
#[derive(Debug, Clone, Copy, PartialEq, Eq, Structural)]
pub struct IpCidr {
    pub address: IpAddress,
    pub prefix_len: u8,
}

/// The protocol that an IP packet carries.
#[derive(Debug, Clone, Copy, PartialEq, Eq, Structural)]
pub enum IpProtocol {
    Icmp,
    Icmpv6,
    Tcp,
    Udp,
}

impl IpProtocol {
    /// The number of the protocol in an IP header.
    pub open spec fn number(self) -> u8 {
        match self {
            IpProtocol::Icmp => 1,
            IpProtocol::Tcp => 6,
            IpProtocol::Udp => 17,
            IpProtocol::Icmpv6 => 58,
        }
    }

    pub fn to_number(self) -> (r: u8)
        ensures
            r == self.number(),
    {
        match self {
            IpProtocol::Icmp => 1,
            IpProtocol::Tcp => 6,
            IpProtocol::Udp => 17,
            IpProtocol::Icmpv6 => 58,
        }
    }
}

impl Ipv4Address {
    /// The address with the octets `a.b.c.d`.
    pub fn new(a: u8, b: u8, c: u8, d: u8) -> (r: Ipv4Address)
        ensures
            r.0 == a * 0x100_0000 + b * 0x1_0000 + c * 0x100 + d,
    {
        Ipv4Address(a as u32 * 0x100_0000 + b as u32 * 0x1_0000 + c as u32 * 0x100 + d as u32)
    }
}

impl IpAddress {
    pub open spec fn spec_version(self) -> IpVersion {
        match self {
            IpAddress::Ipv4(_) => IpVersion::Ipv4,
            IpAddress::Ipv6(_) => IpVersion::Ipv6,
        }
    }

    pub open spec fn spec_is_unspecified(self) -> bool {
        match self {
            IpAddress::Ipv4(a) => a.0 == 0,
            IpAddress::Ipv6(a) => a.0 == 0,
        }
    }

    /// `224.0.0.0/4`, or `ff00::/8`.
    pub open spec fn spec_is_multicast(self) -> bool {
        match self {
            IpAddress::Ipv4(a) => 0xe000_0000 <= a.0 <= 0xefff_ffff,
            IpAddress::Ipv6(a) => a.0 >= 0xff00_0000_0000_0000_0000_0000_0000_0000,
        }
    }

    /// The length of the IP header in front of a packet with this address.
    pub open spec fn spec_header_len(self) -> usize {
        match self {
            IpAddress::Ipv4(_) => IPV4_HEADER_LEN,
            IpAddress::Ipv6(_) => IPV6_HEADER_LEN,
        }
    }

    #[verifier::when_used_as_spec(spec_version)]
    pub fn version(self) -> (r: IpVersion)
        ensures
            r == self.spec_version(),
    {
        match self {
            IpAddress::Ipv4(_) => IpVersion::Ipv4,
            IpAddress::Ipv6(_) => IpVersion::Ipv6,
        }
    }

    /// Whether this is the address `0.0.0.0` or `::`.
    #[verifier::when_used_as_spec(spec_is_unspecified)]
    pub fn is_unspecified(self) -> (r: bool)
        ensures
            r == self.spec_is_unspecified(),
    {
        match self {
            IpAddress::Ipv4(a) => a.0 == 0,
            IpAddress::Ipv6(a) => a.0 == 0,
        }
    }

    #[verifier::when_used_as_spec(spec_is_multicast)]
    pub fn is_multicast(self) -> (r: bool)
        ensures
            r == self.spec_is_multicast(),
    {
        match self {
            IpAddress::Ipv4(a) => 0xe000_0000 <= a.0 && a.0 <= 0xefff_ffff,
            IpAddress::Ipv6(a) => a.0 >= 0xff00_0000_0000_0000_0000_0000_0000_0000,
        }
    }

    #[verifier::when_used_as_spec(spec_header_len)]
    pub fn header_len(self) -> (r: usize)
        ensures
            r == self.spec_header_len(),
    {
        match self {
            IpAddress::Ipv4(_) => IPV4_HEADER_LEN,
            IpAddress::Ipv6(_) => IPV6_HEADER_LEN,
        }
    }
}

impl IpEndpoint {
    pub fn new(addr: IpAddress, port: u16) -> (r: IpEndpoint)
        ensures
            r == (IpEndpoint { addr, port }),
    {
        IpEndpoint { addr, port }
    }

    /// Whether neither the address nor the port is left open.
    pub fn is_specified(&self) -> (r: bool)
        ensures
            r == (!self.addr.is_unspecified() && self.port != 0),
    {
        !self.addr.is_unspecified() && self.port != 0
    }
}

impl IpListenEndpoint {
    /// The address, if it is one single address.
    pub open spec fn spec_concrete_addr(self) -> Option<IpAddress> {
        match self.addr {
            Some(addr) => if addr.is_unspecified() {
                None
            } else {
                Some(addr)
            },
            None => None,
        }
    }

    /// The IP version that the address restricts the endpoint to, if it does.
    pub open spec fn spec_version(self) -> Option<IpVersion> {
        match self.addr {
            Some(addr) => Some(addr.version()),
            None => None,
        }
    }

    /// How closely the address part fits `addr`: `None` if it does not, and more
    /// for an exact address than for a version than for any address.
    pub open spec fn score(self, addr: IpAddress) -> Option<u8> {
        match self.addr {
            None => Some(0u8),
            Some(own) => if own.is_unspecified() {
                if own.version() == addr.version() {
                    Some(1u8)
                } else {
                    None
                }
            } else if own == addr {
                Some(2u8)
            } else {
                None
            },
        }
    }

    /// The endpoint with every part left open.
    pub fn unspecified() -> (r: IpListenEndpoint)
        ensures
            r == (IpListenEndpoint { addr: None, port: 0 }),
    {
        IpListenEndpoint { addr: None, port: 0 }
    }

    #[verifier::when_used_as_spec(spec_concrete_addr)]
    pub fn concrete_addr(self) -> (r: Option<IpAddress>)
        ensures
            r == self.spec_concrete_addr(),
    {
        match self.addr {
            Some(addr) => if addr.is_unspecified() {
                None
            } else {
                Some(addr)
            },
            None => None,
        }
    }

    #[verifier::when_used_as_spec(spec_version)]
    pub fn version(self) -> (r: Option<IpVersion>)
        ensures
            r == self.spec_version(),
    {
        match self.addr {
            Some(addr) => Some(addr.version()),
            None => None,
        }
    }

    /// How closely the address part fits `addr`.
    pub fn addr_score(&self, addr: IpAddress) -> (r: Option<u8>)
        ensures
            r == self.score(addr),
    {
        match self.addr {
            None => Some(0),
            Some(own) => if own.is_unspecified() {
                if own.version() == addr.version() {
                    Some(1)
                } else {
                    None
                }
            } else if own == addr {
                Some(2)
            } else {
                None
            },
        }
    }
}

impl IpCidr {
    /// The prefix is no longer than an address.
    pub open spec fn valid(self) -> bool {
        match self.address {
            IpAddress::Ipv4(_) => self.prefix_len <= 32,
            IpAddress::Ipv6(_) => self.prefix_len <= 128,
        }
    }

    /// `addr` has the same version and the same prefix.
    pub open spec fn spec_contains(self, addr: IpAddress) -> bool {
        match (self.address, addr) {
            (IpAddress::Ipv4(a), IpAddress::Ipv4(b)) => self.prefix_len == 0 || a.0 >> (32
                - self.prefix_len) as u32 == b.0 >> (32 - self.prefix_len) as u32,
            (IpAddress::Ipv6(a), IpAddress::Ipv6(b)) => self.prefix_len == 0 || a.0 >> (128
                - self.prefix_len) as u128 == b.0 >> (128 - self.prefix_len) as u128,
            _ => false,
        }
    }

    /// `addr` is `255.255.255.255`, or the last address of an IPv4 network of more
    /// than two addresses.
    pub open spec fn spec_is_broadcast(self, addr: IpAddress) -> bool {
        match (self.address, addr) {
            (IpAddress::Ipv4(a), IpAddress::Ipv4(b)) => b.0 == 0xffff_ffff || (self.prefix_len < 31
                && b.0 == a.0 | (0xffff_ffffu32 >> self.prefix_len as u32)),
            _ => false,
        }
    }

    pub fn new(address: IpAddress, prefix_len: u8) -> (r: IpCidr)
        requires
            (IpCidr { address, prefix_len }).valid(),
        ensures
            r == (IpCidr { address, prefix_len }),
    {
        IpCidr { address, prefix_len }
    }

    pub fn contains(&self, addr: IpAddress) -> (r: bool)
        requires
            self.valid(),
        ensures
            r == self.spec_contains(addr),
    {
        match (self.address, addr) {
            (IpAddress::Ipv4(a), IpAddress::Ipv4(b)) => {
                self.prefix_len == 0 || a.0 >> (32 - self.prefix_len as u32) == b.0 >> (32
                    - self.prefix_len as u32)
            },
            (IpAddress::Ipv6(a), IpAddress::Ipv6(b)) => {
                self.prefix_len == 0 || a.0 >> (128 - self.prefix_len as u128) == b.0 >> (128
                    - self.prefix_len as u128)
            },
            _ => false,
        }
    }

    pub fn is_broadcast(&self, addr: IpAddress) -> (r: bool)
        requires
            self.valid(),
        ensures
            r == self.spec_is_broadcast(addr),
    {
        match (self.address, addr) {
            (IpAddress::Ipv4(a), IpAddress::Ipv4(b)) => {
                b.0 == 0xffff_ffff || (self.prefix_len < 31 && b.0 == a.0 | (0xffff_ffffu32
                    >> self.prefix_len as u32))
            },
            _ => false,
        }
    }
}

/// A network contains exactly the addresses that agree with it up to the length of its
/// prefix, that is, those in the same block of `2^(32 - prefix_len)` addresses.
pub proof fn law_network_is_a_block(a: Ipv4Address, prefix_len: u8, b: Ipv4Address)
    requires
        prefix_len <= 32,
    ensures
        ({
            let network = IpCidr { address: IpAddress::Ipv4(a), prefix_len };
            let block = power2::pow2((32 - prefix_len) as nat) as int;
            network.spec_contains(IpAddress::Ipv4(b)) <==> a.0 as int / block == b.0 as int / block
        }),
{
    let h = (32 - prefix_len) as u32;
    power2::lemma2_to64();
    power2::lemma_pow2_pos(h as nat);
    if prefix_len == 0 {
        assert(a.0 as int / 0x1_0000_0000 == 0);
        assert(b.0 as int / 0x1_0000_0000 == 0);
    } else {
        vstd::bits::lemma_u32_shr_is_div(a.0, h);
        vstd::bits::lemma_u32_shr_is_div(b.0, h);
    }
}

/// The same for IPv6.
pub proof fn law_ipv6_network_is_a_block(a: Ipv6Address, prefix_len: u8, b: Ipv6Address)
    requires
        0 < prefix_len <= 128,
    ensures
        ({
            let network = IpCidr { address: IpAddress::Ipv6(a), prefix_len };
            let block = power2::pow2((128 - prefix_len) as nat) as int;
            network.spec_contains(IpAddress::Ipv6(b)) <==> a.0 as int / block == b.0 as int / block
        }),
        (IpCidr { address: IpAddress::Ipv6(a), prefix_len: 0 }).spec_contains(IpAddress::Ipv6(b)),
{
    let h = (128 - prefix_len) as u128;
    power2::lemma_pow2_pos(h as nat);
    vstd::bits::lemma_u128_shr_is_div(a.0, h);
    vstd::bits::lemma_u128_shr_is_div(b.0, h);
}

/// No network contains an address of the other version.
pub proof fn law_versions_do_not_mix(network: IpCidr, addr: IpAddress)
    requires
        network.address is Ipv4 != addr is Ipv4,
    ensures
        !network.spec_contains(addr),
        !network.spec_is_broadcast(addr),
{
}

/// The broadcast addresses of an IPv4 network are `255.255.255.255` and, unless the
/// network has no more than two addresses, its last one. An IPv6 network has none.
pub proof fn law_broadcast_is_the_last_address(a: Ipv4Address, prefix_len: u8, b: Ipv4Address)
    requires
        prefix_len <= 32,
    ensures
        ({
            let network = IpCidr { address: IpAddress::Ipv4(a), prefix_len };
            let block = power2::pow2((32 - prefix_len) as nat) as int;
            network.spec_is_broadcast(IpAddress::Ipv4(b)) <==> b.0 == 0xffff_ffff || (prefix_len
                < 31 && a.0 as int / block == b.0 as int / block && b.0 as int % block == block - 1)
        }),
{
    if prefix_len < 31 {
        let h = (32 - prefix_len) as u32;
        let p = prefix_len as u32;
        let x = a.0;
        let y = b.0;
        power2::lemma2_to64();
        power2::lemma_pow2_pos(h as nat);
        if prefix_len == 0 {
            assert(x | (0xffff_ffffu32 >> 0u32) == 0xffff_ffffu32) by (bit_vector);
        } else {
            vstd::bits::lemma_u32_shr_is_div(x, h);
            vstd::bits::lemma_u32_shr_is_div(y, h);
            let mask = 0xffff_ffffu32 >> p;
            assert(y == x | (0xffff_ffffu32 >> p) <==> (x >> h == y >> h && y & (0xffff_ffffu32
                >> p) == 0xffff_ffffu32 >> p)) by (bit_vector)
                requires
                    0 < p < 31,
                    h == 32 - p,
            ;
            assert(0xffff_ffffu32 >> p == (1u32 << h) - 1) by (bit_vector)
                requires
                    0 < p < 31,
                    h == 32 - p,
            ;
            power2::lemma_pow2_strictly_increases(h as nat, 32);
            vstd::bits::lemma_u32_shl_is_mul(1, h);
            assert(mask == vstd::bits::low_bits_mask(h as nat));
            vstd::bits::lemma_u32_low_bits_mask_is_mod(y, h as nat);
        }
    }
}

/// The multicast addresses are those from `224.0.0.0` to `239.255.255.255`, and those whose
/// first octet is `0xff`.
pub proof fn law_multicast_is_a_block(a: Ipv4Address, b: Ipv6Address)
    ensures
        IpAddress::Ipv4(a).is_multicast() <==> 224 <= a.0 as int / 0x100_0000 <= 239,
        IpAddress::Ipv6(b).is_multicast() <==> b.0 as int / 0x1_0000_0000_0000_0000_0000_0000_0000_00
            == 0xff,
{
}

impl From<Ipv4Address> for IpAddress {
    fn from(a: Ipv4Address) -> (r: IpAddress) {
        IpAddress::Ipv4(a)
    }
}

impl FromSpecImpl<Ipv4Address> for IpAddress {
    open spec fn obeys_from_spec() -> bool {
        true
    }

    open spec fn from_spec(a: Ipv4Address) -> IpAddress {
        IpAddress::Ipv4(a)
    }
}

impl From<Ipv6Address> for IpAddress {
    fn from(a: Ipv6Address) -> (r: IpAddress) {
        IpAddress::Ipv6(a)
    }
}

impl FromSpecImpl<Ipv6Address> for IpAddress {
    open spec fn obeys_from_spec() -> bool {
        true
    }

    open spec fn from_spec(a: Ipv6Address) -> IpAddress {
        IpAddress::Ipv6(a)
    }
}

impl From<(IpAddress, u16)> for IpEndpoint {
    fn from(p: (IpAddress, u16)) -> (r: IpEndpoint) {
        IpEndpoint { addr: p.0, port: p.1 }
    }
}

impl FromSpecImpl<(IpAddress, u16)> for IpEndpoint {
    open spec fn obeys_from_spec() -> bool {
        true
    }

    open spec fn from_spec(p: (IpAddress, u16)) -> IpEndpoint {
        IpEndpoint { addr: p.0, port: p.1 }
    }
}

impl From<(Ipv4Address, u16)> for IpEndpoint {
    fn from(p: (Ipv4Address, u16)) -> (r: IpEndpoint) {
        IpEndpoint { addr: IpAddress::Ipv4(p.0), port: p.1 }
    }
}

impl FromSpecImpl<(Ipv4Address, u16)> for IpEndpoint {
    open spec fn obeys_from_spec() -> bool {
        true
    }

    open spec fn from_spec(p: (Ipv4Address, u16)) -> IpEndpoint {
        IpEndpoint { addr: IpAddress::Ipv4(p.0), port: p.1 }
    }
}

impl From<u16> for IpListenEndpoint {
    fn from(port: u16) -> (r: IpListenEndpoint) {
        IpListenEndpoint { addr: None, port }
    }
}

impl FromSpecImpl<u16> for IpListenEndpoint {
    open spec fn obeys_from_spec() -> bool {
        true
    }

    open spec fn from_spec(port: u16) -> IpListenEndpoint {
        IpListenEndpoint { addr: None, port }
    }
}

impl From<IpEndpoint> for IpListenEndpoint {
    fn from(e: IpEndpoint) -> (r: IpListenEndpoint) {
        IpListenEndpoint { addr: Some(e.addr), port: e.port }
    }
}

impl FromSpecImpl<IpEndpoint> for IpListenEndpoint {
    open spec fn obeys_from_spec() -> bool {
        true
    }

    open spec fn from_spec(e: IpEndpoint) -> IpListenEndpoint {
        IpListenEndpoint { addr: Some(e.addr), port: e.port }
    }
}

impl From<(IpAddress, u16)> for IpListenEndpoint {
    fn from(p: (IpAddress, u16)) -> (r: IpListenEndpoint) {
        IpListenEndpoint { addr: Some(p.0), port: p.1 }
    }
}

impl FromSpecImpl<(IpAddress, u16)> for IpListenEndpoint {
    open spec fn obeys_from_spec() -> bool {
        true
    }

    open spec fn from_spec(p: (IpAddress, u16)) -> IpListenEndpoint {
        IpListenEndpoint { addr: Some(p.0), port: p.1 }
    }
}

impl From<(Ipv4Address, u16)> for IpListenEndpoint {
    fn from(p: (Ipv4Address, u16)) -> (r: IpListenEndpoint) {
        IpListenEndpoint { addr: Some(IpAddress::Ipv4(p.0)), port: p.1 }
    }
}

impl FromSpecImpl<(Ipv4Address, u16)> for IpListenEndpoint {
    open spec fn obeys_from_spec() -> bool {
        true
    }

    open spec fn from_spec(p: (Ipv4Address, u16)) -> IpListenEndpoint {
        IpListenEndpoint { addr: Some(IpAddress::Ipv4(p.0)), port: p.1 }
    }
}

impl From<(Ipv6Address, u16)> for IpEndpoint {
    fn from(p: (Ipv6Address, u16)) -> (r: IpEndpoint) {
        IpEndpoint { addr: IpAddress::Ipv6(p.0), port: p.1 }
    }
}

impl FromSpecImpl<(Ipv6Address, u16)> for IpEndpoint {
    open spec fn obeys_from_spec() -> bool {
        true
    }

    open spec fn from_spec(p: (Ipv6Address, u16)) -> IpEndpoint {
        IpEndpoint { addr: IpAddress::Ipv6(p.0), port: p.1 }
    }
}

impl From<(Ipv6Address, u16)> for IpListenEndpoint {
    fn from(p: (Ipv6Address, u16)) -> (r: IpListenEndpoint) {
        IpListenEndpoint { addr: Some(IpAddress::Ipv6(p.0)), port: p.1 }
    }
}

impl FromSpecImpl<(Ipv6Address, u16)> for IpListenEndpoint {
    open spec fn obeys_from_spec() -> bool {
        true
    }

    open spec fn from_spec(p: (Ipv6Address, u16)) -> IpListenEndpoint {
        IpListenEndpoint { addr: Some(IpAddress::Ipv6(p.0)), port: p.1 }
    }
}

/// An endpoint is made of an address and a port, whichever way the address is written. One
/// to listen on takes any address if it is made of a port alone, and only that address
/// otherwise.
pub proof fn law_endpoints_have_their_parts(
    a: IpAddress,
    v4: Ipv4Address,
    v6: Ipv6Address,
    port: u16,
)
    ensures
        ({
            let plain: IpListenEndpoint = vstd::std_specs::convert::FromSpec::from_spec(port);
            let end: IpEndpoint = vstd::std_specs::convert::FromSpec::from_spec((a, port));
            let listen: IpListenEndpoint = vstd::std_specs::convert::FromSpec::from_spec((a, port));
            let same: IpListenEndpoint = vstd::std_specs::convert::FromSpec::from_spec(end);
            &&& plain.port == port && plain.score(a) is Some && plain.concrete_addr() is None
            &&& end.addr == a && end.port == port
            &&& listen.port == port && listen.addr == Some(a)
            &&& listen == same
        }),
        ({
            let addr: IpAddress = vstd::std_specs::convert::FromSpec::from_spec(v4);
            let end: IpEndpoint = vstd::std_specs::convert::FromSpec::from_spec((v4, port));
            let listen: IpListenEndpoint = vstd::std_specs::convert::FromSpec::from_spec(
                (v4, port),
            );
            &&& addr == IpAddress::Ipv4(v4)
            &&& end.addr == addr && end.port == port
            &&& listen.addr == Some(addr) && listen.port == port
        }),
        ({
            let addr: IpAddress = vstd::std_specs::convert::FromSpec::from_spec(v6);
            let end: IpEndpoint = vstd::std_specs::convert::FromSpec::from_spec((v6, port));
            let listen: IpListenEndpoint = vstd::std_specs::convert::FromSpec::from_spec(
                (v6, port),
            );
            &&& addr == IpAddress::Ipv6(v6)
            &&& end.addr == addr && end.port == port
            &&& listen.addr == Some(addr) && listen.port == port
        }),
{
}

} // verus!
