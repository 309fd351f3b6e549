//! IP packets as octets.
use super::bytes;
use super::checksum;
use super::udp;
use super::{
    IpAddress, IpProtocol, IpVersion, Ipv4Address, Ipv6Address, IPV4_HEADER_LEN, IPV6_HEADER_LEN,
};
use vstd::prelude::*;

verus! {

/// The number of the hop-by-hop options, which may follow an IPv6 header.
pub const HOP_BY_HOP: u8 = 0;

/// The version of a packet, if it has one that is known.
pub open spec fn version(d: Seq<u8>) -> Option<IpVersion> {
    if d.len() == 0 {
        None
    } else if d[0] / 16 == 4 {
        Some(IpVersion::Ipv4)
    } else if d[0] / 16 == 6 {
        Some(IpVersion::Ipv6)
    } else {
        None
    }
}

/// The headers up to the transport protocol are there.
pub open spec fn has_headers(d: Seq<u8>) -> bool {
    match version(d) {
        Some(IpVersion::Ipv4) => d.len() >= IPV4_HEADER_LEN && transport_offset(d)
            >= IPV4_HEADER_LEN,
        Some(IpVersion::Ipv6) => {
            &&& d.len() >= IPV6_HEADER_LEN
            &&& d[6] == HOP_BY_HOP ==> d.len() >= IPV6_HEADER_LEN + 2
        },
        None => false,
    }
}

/// Where the transport protocol starts: behind the header and its options.
pub open spec fn transport_offset(d: Seq<u8>) -> int {
    match version(d) {
        Some(IpVersion::Ipv4) => d[0] % 16 * 4,
        _ => if d[6] == HOP_BY_HOP {
            IPV6_HEADER_LEN + (d[41] + 1) * 8
        } else {
            IPV6_HEADER_LEN as int
        },
    }
}

/// The source address.
pub open spec fn source(d: Seq<u8>) -> IpAddress {
    match version(d) {
        Some(IpVersion::Ipv4) => IpAddress::Ipv4(Ipv4Address(bytes::field(d, 12, 4) as u32)),
        _ => IpAddress::Ipv6(Ipv6Address(bytes::field(d, 8, 16) as u128)),
    }
}

/// The destination address.
pub open spec fn destination(d: Seq<u8>) -> IpAddress {
    match version(d) {
        Some(IpVersion::Ipv4) => IpAddress::Ipv4(Ipv4Address(bytes::field(d, 16, 4) as u32)),
        _ => IpAddress::Ipv6(Ipv6Address(bytes::field(d, 24, 16) as u128)),
    }
}

/// A packet that carries a sound UDP datagram.
pub open spec fn is_udp(d: Seq<u8>) -> bool {
    &&& has_headers(d)
    &&& transport_offset(d) <= d.len()
    &&& udp::is_sound(d.skip(transport_offset(d)))
}

/// An IPv4 header with the given checksum.
pub open spec fn ipv4_header(
    src: Ipv4Address,
    dst: Ipv4Address,
    protocol: IpProtocol,
    hop_limit: u8,
    total_len: int,
    sum: int,
) -> Seq<u8> {
    // No options; never fragmented.
    bytes::octets(0x4500, 2) + bytes::octets(total_len, 2) + bytes::octets(0x4000, 4)
        + bytes::octets(hop_limit * 256 + protocol.number(), 2) + bytes::octets(sum, 2)
        + bytes::octets(src.0 as int, 4) + bytes::octets(dst.0 as int, 4)
}

/// An IPv6 header.
pub open spec fn ipv6_header(
    src: Ipv6Address,
    dst: Ipv6Address,
    protocol: IpProtocol,
    hop_limit: u8,
    payload_len: int,
) -> Seq<u8> {
    bytes::octets(0x6000_0000, 4) + bytes::octets(payload_len, 2) + bytes::octets(
        protocol.number() * 256 + hop_limit,
        2,
    ) + bytes::octets(src.0 as int, 16) + bytes::octets(dst.0 as int, 16)
}

/// The header in front of a payload. The checksum of an IPv4 header is filled in, or
/// left to the device.
pub open spec fn header(
    src: IpAddress,
    dst: IpAddress,
    protocol: IpProtocol,
    hop_limit: u8,
    payload_len: int,
    filled: bool,
) -> Seq<u8> {
    match (src, dst) {
        (IpAddress::Ipv4(s), IpAddress::Ipv4(d)) => {
            let n = IPV4_HEADER_LEN + payload_len;
            ipv4_header(
                s,
                d,
                protocol,
                hop_limit,
                n,
                if filled {
                    65535 - checksum::folded(
                        checksum::sum(ipv4_header(s, d, protocol, hop_limit, n, 0)),
                    )
                } else {
                    0
                },
            )
        },
        (IpAddress::Ipv6(s), IpAddress::Ipv6(d)) => ipv6_header(
            s,
            d,
            protocol,
            hop_limit,
            payload_len,
        ),
        _ => Seq::empty(),
    }
}

proof fn lemma_ipv4_header(
    src: Ipv4Address,
    dst: Ipv4Address,
    protocol: IpProtocol,
    hop_limit: u8,
    total_len: int,
    sum: int,
)
    ensures
        ({
            let h = ipv4_header(src, dst, protocol, hop_limit, total_len, sum);
            &&& h.len() == IPV4_HEADER_LEN
            &&& h[0] == 0x45
            &&& h.subrange(12, 16) == bytes::octets(src.0 as int, 4)
            &&& h.subrange(16, 20) == bytes::octets(dst.0 as int, 4)
            &&& bytes::octets(0x4500, 2).len() == 2
            &&& bytes::octets(total_len, 2).len() == 2
            &&& bytes::octets(0x4000, 4).len() == 4
            &&& bytes::octets(hop_limit * 256 + protocol.number(), 2).len() == 2
            &&& bytes::octets(sum, 2).len() == 2
            &&& bytes::octets(src.0 as int, 4).len() == 4
            &&& bytes::octets(dst.0 as int, 4).len() == 4
        }),
{
    let h = ipv4_header(src, dst, protocol, hop_limit, total_len, sum);
    bytes::lemma_octets_len(0x4500, 2);
    bytes::lemma_octets_len(total_len, 2);
    bytes::lemma_octets_len(0x4000, 4);
    bytes::lemma_octets_len(hop_limit * 256 + protocol.number(), 2);
    bytes::lemma_octets_len(sum, 2);
    bytes::lemma_octets_len(src.0 as int, 4);
    bytes::lemma_octets_len(dst.0 as int, 4);
    assert(h.subrange(12, 16) =~= bytes::octets(src.0 as int, 4));
    assert(h.subrange(16, 20) =~= bytes::octets(dst.0 as int, 4));
    assert(bytes::octets(0x4500, 2)[0] == 0x45) by {
        bytes::lemma_octets_len(0x45, 1);
        bytes::lemma_octets_len(0, 0);
        assert(bytes::octets(0x45, 1)[0] == 0x45u8);
    }
}

proof fn lemma_ipv6_header(
    src: Ipv6Address,
    dst: Ipv6Address,
    protocol: IpProtocol,
    hop_limit: u8,
    payload_len: int,
)
    ensures
        ({
            let h = ipv6_header(src, dst, protocol, hop_limit, payload_len);
            &&& h.len() == IPV6_HEADER_LEN
            &&& h[0] == 0x60
            &&& h[6] == protocol.number()
            &&& h.subrange(8, 24) == bytes::octets(src.0 as int, 16)
            &&& h.subrange(24, 40) == bytes::octets(dst.0 as int, 16)
            &&& bytes::octets(0x6000_0000, 4).len() == 4
            &&& bytes::octets(payload_len, 2).len() == 2
            &&& bytes::octets(protocol.number() * 256 + hop_limit, 2).len() == 2
            &&& bytes::octets(src.0 as int, 16).len() == 16
            &&& bytes::octets(dst.0 as int, 16).len() == 16
        }),
{
    let h = ipv6_header(src, dst, protocol, hop_limit, payload_len);
    let n = protocol.number() * 256 + hop_limit;
    bytes::lemma_octets_len(0x6000_0000, 4);
    bytes::lemma_octets_len(payload_len, 2);
    bytes::lemma_octets_len(n, 2);
    bytes::lemma_octets_len(src.0 as int, 16);
    bytes::lemma_octets_len(dst.0 as int, 16);
    assert(h.subrange(8, 24) =~= bytes::octets(src.0 as int, 16));
    assert(h.subrange(24, 40) =~= bytes::octets(dst.0 as int, 16));
    assert(bytes::octets(n, 2)[0] == protocol.number()) by {
        bytes::lemma_octets_len(n / 256, 1);
        bytes::lemma_octets_len(n / 256 / 256, 0);
        assert(n / 256 == protocol.number());
        assert(bytes::octets(n / 256, 1)[0] == protocol.number());
    }
    assert(bytes::octets(0x6000_0000, 4)[0] == 0x60) by {
        bytes::lemma_octets_len(0x60_0000, 3);
        bytes::lemma_octets_len(0x6000, 2);
        bytes::lemma_octets_len(0x60, 1);
        bytes::lemma_octets_len(0, 0);
        assert(bytes::octets(0x60, 1)[0] == 0x60u8);
        assert(bytes::octets(0x6000, 2)[0] == 0x60u8);
        assert(bytes::octets(0x60_0000, 3)[0] == 0x60u8);
    }
}

/// The header of a packet leads to its payload, and its addresses are read back from
/// it.
pub proof fn law_header_is_read_back(
    src: IpAddress,
    dst: IpAddress,
    protocol: IpProtocol,
    hop_limit: u8,
    payload: Seq<u8>,
    filled: bool,
)
    requires
        src.version() == dst.version(),
    ensures
        ({
            let h = header(src, dst, protocol, hop_limit, payload.len() as int, filled);
            let d = h + payload;
            &&& h.len() == src.header_len()
            &&& version(d) == Some(src.version())
            &&& has_headers(d)
            &&& transport_offset(d) == h.len()
            &&& d.skip(transport_offset(d)) == payload
            &&& source(d) == src
            &&& destination(d) == dst
        }),
{
    let h = header(src, dst, protocol, hop_limit, payload.len() as int, filled);
    let d = h + payload;
    bytes::lemma_limits();
    match (src, dst) {
        (IpAddress::Ipv4(s), IpAddress::Ipv4(t)) => {
            let n = (IPV4_HEADER_LEN + payload.len()) as int;
            let sum = if filled {
                65535 - checksum::folded(
                    checksum::sum(ipv4_header(s, t, protocol, hop_limit, n, 0)),
                )
            } else {
                0
            };
            lemma_ipv4_header(s, t, protocol, hop_limit, n, sum);
            bytes::law_number_of_octets(s.0 as int, 4);
            bytes::law_number_of_octets(t.0 as int, 4);
            assert(d.subrange(12, 16) =~= h.subrange(12, 16));
            assert(d.subrange(16, 20) =~= h.subrange(16, 20));
        },
        (IpAddress::Ipv6(s), IpAddress::Ipv6(t)) => {
            lemma_ipv6_header(s, t, protocol, hop_limit, payload.len() as int);
            bytes::law_number_of_octets(s.0 as int, 16);
            bytes::law_number_of_octets(t.0 as int, 16);
            assert(d.subrange(8, 24) =~= h.subrange(8, 24));
            assert(d.subrange(24, 40) =~= h.subrange(24, 40));
        },
        _ => {},
    }
    assert(d.skip(h.len() as int) =~= payload);
}

/// The checksum of an IPv4 header is right where it was filled in.
pub proof fn law_ipv4_header_is_intact(
    src: Ipv4Address,
    dst: Ipv4Address,
    protocol: IpProtocol,
    hop_limit: u8,
    payload_len: int,
)
    requires
        0 <= payload_len,
    ensures
        checksum::folded(
            checksum::sum(
                header(
                    IpAddress::Ipv4(src),
                    IpAddress::Ipv4(dst),
                    protocol,
                    hop_limit,
                    payload_len,
                    true,
                ),
            ),
        ) == 65535,
{
    let n = IPV4_HEADER_LEN + payload_len;
    let z = ipv4_header(src, dst, protocol, hop_limit, n, 0);
    checksum::lemma_sum_bound(z);
    checksum::law_complement_folds_to_ones(checksum::sum(z));
    let c = 65535 - checksum::folded(checksum::sum(z));
    let h = ipv4_header(src, dst, protocol, hop_limit, n, c);
    lemma_ipv4_header(src, dst, protocol, hop_limit, n, 0);
    lemma_ipv4_header(src, dst, protocol, hop_limit, n, c);
    checksum::lemma_sum_split(z, 10);
    checksum::lemma_sum_split(h, 10);
    assert(z.take(10) =~= h.take(10));
    let x = z.skip(10);
    let y = h.skip(10);
    assert(x.skip(2) =~= y.skip(2));
    bytes::lemma_limits();
    bytes::law_number_of_octets(0, 2);
    bytes::law_number_of_octets(c, 2);
    bytes::lemma_pair(bytes::octets(0, 2));
    bytes::lemma_pair(bytes::octets(c, 2));
    assert(x[0] == bytes::octets(0, 2)[0] && x[1] == bytes::octets(0, 2)[1]);
    assert(y[0] == bytes::octets(c, 2)[0] && y[1] == bytes::octets(c, 2)[1]);
}

/// The version of a packet.
pub fn of_packet(d: &[u8]) -> (r: Option<IpVersion>)
    ensures
        r == version(d@),
{
    if d.len() == 0 {
        None
    } else if d[0] / 16 == 4 {
        Some(IpVersion::Ipv4)
    } else if d[0] / 16 == 6 {
        Some(IpVersion::Ipv6)
    } else {
        None
    }
}

/// Source and destination address, and where the transport protocol starts.
pub fn parse(d: &[u8]) -> (r: (IpAddress, IpAddress, usize))
    requires
        has_headers(d@),
    ensures
        r.0 == source(d@),
        r.1 == destination(d@),
        r.2 == transport_offset(d@),
{
    proof {
        bytes::lemma_limits();
    }
    match of_packet(d) {
        Some(IpVersion::Ipv4) => {
            (
                IpAddress::Ipv4(Ipv4Address(bytes::read_u32(d, 12))),
                IpAddress::Ipv4(Ipv4Address(bytes::read_u32(d, 16))),
                (d[0] % 16) as usize * 4,
            )
        },
        _ => {
            let offset: usize = if d[6] == HOP_BY_HOP {
                IPV6_HEADER_LEN + (d[41] as usize + 1) * 8
            } else {
                IPV6_HEADER_LEN
            };
            (
                IpAddress::Ipv6(Ipv6Address(bytes::read(d, 8, 16))),
                IpAddress::Ipv6(Ipv6Address(bytes::read(d, 24, 16))),
                offset,
            )
        },
    }
}

/// Writes a header in front of a payload, whose room is there already.
pub fn emit(
    d: &mut [u8],
    src: IpAddress,
    dst: IpAddress,
    protocol: IpProtocol,
    hop_limit: u8,
    fill: bool,
)
    requires
        src.version() == dst.version(),
        src.header_len() <= old(d)@.len() <= 65535,
    ensures
        final(d)@ == header(
            src,
            dst,
            protocol,
            hop_limit,
            old(d)@.len() - src.header_len(),
            fill,
        ) + old(d)@.skip(src.header_len() as int),
        final(d)@.len() == old(d)@.len(),
{
    match (src, dst) {
        (IpAddress::Ipv4(s), IpAddress::Ipv4(t)) => {
            emit_ipv4(d, s, t, protocol, hop_limit, fill);
        },
        (IpAddress::Ipv6(s), IpAddress::Ipv6(t)) => {
            emit_ipv6(d, s, t, protocol, hop_limit);
        },
        _ => {},
    }
}

fn emit_ipv4(
    d: &mut [u8],
    s: Ipv4Address,
    t: Ipv4Address,
    protocol: IpProtocol,
    hop_limit: u8,
    fill: bool,
)
    requires
        IPV4_HEADER_LEN <= old(d)@.len() <= 65535,
    ensures
        final(d)@ == header(
            IpAddress::Ipv4(s),
            IpAddress::Ipv4(t),
            protocol,
            hop_limit,
            old(d)@.len() - IPV4_HEADER_LEN,
            fill,
        ) + old(d)@.skip(IPV4_HEADER_LEN as int),
        final(d)@.len() == old(d)@.len(),
{
    let ghost payload = d@.skip(IPV4_HEADER_LEN as int);
    let total_len: usize = d.len();
    let kind: u16 = hop_limit as u16 * 256 + protocol.to_number() as u16;
    let ghost z = ipv4_header(s, t, protocol, hop_limit, total_len as int, 0);
    proof {
        lemma_ipv4_header(s, t, protocol, hop_limit, total_len as int, 0);
    }
    bytes::write(d, 0, 2, 0x4500);
    bytes::write(d, 2, 2, total_len as u128);
    bytes::write(d, 4, 4, 0x4000);
    bytes::write(d, 8, 2, kind as u128);
    bytes::write(d, 10, 2, 0);
    bytes::write(d, 12, 4, s.0 as u128);
    bytes::write(d, 16, 4, t.0 as u128);
    assert(d@ =~= z + payload);
    if fill {
        let head = vstd::slice::slice_subrange(d, 0, IPV4_HEADER_LEN);
        assert(head@ =~= z);
        let c: u16 = 65535 - checksum::fold(checksum::data(head));
        proof {
            lemma_ipv4_header(s, t, protocol, hop_limit, total_len as int, c as int);
        }
        bytes::write(d, 10, 2, c as u128);
        assert(d@ =~= ipv4_header(s, t, protocol, hop_limit, total_len as int, c as int) + payload);
    }
}

fn emit_ipv6(d: &mut [u8], s: Ipv6Address, t: Ipv6Address, protocol: IpProtocol, hop_limit: u8)
    requires
        IPV6_HEADER_LEN <= old(d)@.len() <= 65535,
    ensures
        final(d)@ == ipv6_header(s, t, protocol, hop_limit, old(d)@.len() - IPV6_HEADER_LEN)
            + old(d)@.skip(IPV6_HEADER_LEN as int),
        final(d)@.len() == old(d)@.len(),
{
    let ghost payload = d@.skip(IPV6_HEADER_LEN as int);
    let payload_len: usize = d.len() - IPV6_HEADER_LEN;
    let kind: u16 = protocol.to_number() as u16 * 256 + hop_limit as u16;
    proof {
        lemma_ipv6_header(s, t, protocol, hop_limit, payload_len as int);
    }
    bytes::write(d, 0, 4, 0x6000_0000);
    bytes::write(d, 4, 2, payload_len as u128);
    bytes::write(d, 6, 2, kind as u128);
    bytes::write(d, 8, 16, s.0);
    bytes::write(d, 24, 16, t.0);
    assert(d@ =~= ipv6_header(s, t, protocol, hop_limit, payload_len as int) + payload);
}

} // verus!
