//! Where things are in a packet, octet by octet, and what its checksum means.
use super::bytes;
use super::checksum;
use super::packet;
use super::refusal;
use super::udp;
use super::{IpAddress, IpProtocol, Ipv4Address, Ipv6Address};
use vstd::prelude::*;

verus! {

/// Each protocol has the number that IANA has assigned to it.
pub proof fn law_protocols_are_numbered(p: IpProtocol)
    ensures
        p.number() == 1 <==> p == IpProtocol::Icmp,
        p.number() == 6 <==> p == IpProtocol::Tcp,
        p.number() == 17 <==> p == IpProtocol::Udp,
        p.number() == 58 <==> p == IpProtocol::Icmpv6,
{
}

proof fn lemma_four_octets(v: int)
    requires
        0 <= v < 0x1_0000_0000,
    ensures
        bytes::octets(v, 4) == seq![
            (v / 0x100_0000) as u8,
            (v / 0x1_0000 % 256) as u8,
            (v / 256 % 256) as u8,
            (v % 256) as u8,
        ],
{
    reveal_with_fuel(bytes::octets, 5);
    assert(v / 256 / 256 == v / 0x1_0000);
    assert(v / 256 / 256 / 256 == v / 0x100_0000);
    assert(bytes::octets(v, 4) =~= seq![
        (v / 0x100_0000) as u8,
        (v / 0x1_0000 % 256) as u8,
        (v / 256 % 256) as u8,
        (v % 256) as u8,
    ]);
}

/// An IPv4 header has the layout of RFC 791: version and length of the header, the length
/// of the packet, no fragmentation, the hop limit, the protocol, the checksum, the source
/// and the destination.
pub proof fn law_ipv4_header_has_its_layout(
    src: Ipv4Address,
    dst: Ipv4Address,
    protocol: IpProtocol,
    hop_limit: u8,
    payload_len: int,
    filled: bool,
)
    requires
        0 <= payload_len <= 65515,
    ensures
        ({
            let d = packet::header(
                IpAddress::Ipv4(src),
                IpAddress::Ipv4(dst),
                protocol,
                hop_limit,
                payload_len,
                filled,
            );
            &&& d.len() == 20
            &&& d[0] == 0x45
            &&& d[1] == 0
            &&& bytes::field(d, 2, 2) == 20 + payload_len
            &&& d[4] == 0 && d[5] == 0
            &&& d[6] == 0x40 && d[7] == 0
            &&& d[8] == hop_limit
            &&& d[9] == protocol.number()
            &&& !filled ==> bytes::field(d, 10, 2) == 0
            &&& bytes::field(d, 12, 4) == src.0
            &&& bytes::field(d, 16, 4) == dst.0
        }),
{
    let n = 20 + payload_len;
    let sum = if filled {
        65535 - checksum::folded(
            checksum::sum(packet::ipv4_header(src, dst, protocol, hop_limit, n, 0)),
        )
    } else {
        0
    };
    let d = packet::ipv4_header(src, dst, protocol, hop_limit, n, sum);
    let m = hop_limit * 256 + protocol.number();
    bytes::lemma_limits();
    bytes::lemma_two_octets(0x4500);
    bytes::lemma_octets_len(n, 2);
    lemma_four_octets(0x4000);
    bytes::lemma_two_octets(m);
    bytes::lemma_octets_len(sum, 2);
    bytes::lemma_octets_len(src.0 as int, 4);
    bytes::lemma_octets_len(dst.0 as int, 4);
    bytes::law_number_of_octets(n, 2);
    bytes::law_number_of_octets(0, 2);
    bytes::law_number_of_octets(src.0 as int, 4);
    bytes::law_number_of_octets(dst.0 as int, 4);
    assert(d.subrange(2, 4) =~= bytes::octets(n, 2));
    assert(d.subrange(10, 12) =~= bytes::octets(sum, 2));
    assert(d.subrange(12, 16) =~= bytes::octets(src.0 as int, 4));
    assert(d.subrange(16, 20) =~= bytes::octets(dst.0 as int, 4));
    assert(m / 256 == hop_limit && m % 256 == protocol.number());
}

/// An IPv6 header has the layout of RFC 8200: the version, the length of what follows, the
/// protocol, the hop limit, the source and the destination.
pub proof fn law_ipv6_header_has_its_layout(
    src: Ipv6Address,
    dst: Ipv6Address,
    protocol: IpProtocol,
    hop_limit: u8,
    payload_len: int,
    filled: bool,
)
    requires
        0 <= payload_len <= 65535,
    ensures
        ({
            let d = packet::header(
                IpAddress::Ipv6(src),
                IpAddress::Ipv6(dst),
                protocol,
                hop_limit,
                payload_len,
                filled,
            );
            &&& d.len() == 40
            &&& d[0] == 0x60
            &&& d[1] == 0 && d[2] == 0 && d[3] == 0
            &&& bytes::field(d, 4, 2) == payload_len
            &&& d[6] == protocol.number()
            &&& d[7] == hop_limit
            &&& bytes::field(d, 8, 16) == src.0
            &&& bytes::field(d, 24, 16) == dst.0
        }),
{
    let d = packet::ipv6_header(src, dst, protocol, hop_limit, payload_len);
    let m = protocol.number() * 256 + hop_limit;
    bytes::lemma_limits();
    lemma_four_octets(0x6000_0000);
    bytes::lemma_octets_len(payload_len, 2);
    bytes::lemma_two_octets(m);
    bytes::lemma_octets_len(src.0 as int, 16);
    bytes::lemma_octets_len(dst.0 as int, 16);
    bytes::law_number_of_octets(payload_len, 2);
    bytes::law_number_of_octets(src.0 as int, 16);
    bytes::law_number_of_octets(dst.0 as int, 16);
    assert(d.subrange(4, 6) =~= bytes::octets(payload_len, 2));
    assert(d.subrange(8, 24) =~= bytes::octets(src.0 as int, 16));
    assert(d.subrange(24, 40) =~= bytes::octets(dst.0 as int, 16));
    assert(m / 256 == protocol.number() && m % 256 == hop_limit);
}

/// A datagram has the layout of RFC 768: the source port, the destination port, the
/// length, the checksum and the payload. A checksum that is filled in is never zero,
/// which would mean that there is none; one that is left to the device is.
pub proof fn law_datagram_has_its_layout(
    src: IpAddress,
    src_port: u16,
    dst: IpAddress,
    dst_port: u16,
    payload: Seq<u8>,
    filled: bool,
)
    requires
        8 + payload.len() <= 65535,
    ensures
        ({
            let d = udp::datagram(src, src_port, dst, dst_port, payload, filled);
            &&& d.len() == 8 + payload.len()
            &&& bytes::field(d, 0, 2) == src_port
            &&& bytes::field(d, 2, 2) == dst_port
            &&& bytes::field(d, 4, 2) == 8 + payload.len()
            &&& filled <==> bytes::field(d, 6, 2) != 0
            &&& d.skip(8) == payload
        }),
{
    let z = udp::framed(src_port, dst_port, payload, 0);
    let n = udp::checked_sum(z, src, dst);
    let sum = if filled {
        udp::complement(n)
    } else {
        0
    };
    let d = udp::framed(src_port, dst_port, payload, sum);
    udp::law_datagram_is_read_back(src, src_port, dst, dst_port, payload, filled);
    udp::law_datagram_is_read_back(src, src_port, dst, dst_port, payload, false);
    assert(udp::datagram(src, src_port, dst, dst_port, payload, false) == z);
    checksum::lemma_sum_bound(z.take(bytes::field(z, 4, 2)));
    checksum::lemma_sum_bound(checksum::address_octets(src));
    checksum::lemma_sum_bound(checksum::address_octets(dst));
    checksum::law_complement_folds_to_ones(n);
    bytes::lemma_limits();
    bytes::lemma_octets_len(src_port as int, 2);
    bytes::lemma_octets_len(dst_port as int, 2);
    bytes::lemma_octets_len((8 + payload.len()) as int, 2);
    bytes::lemma_octets_len(sum, 2);
    bytes::law_number_of_octets(sum, 2);
    assert(d.subrange(6, 8) =~= bytes::octets(sum, 2));
}

/// The message that a port is unreachable has type 3 and code 3 for IPv4 (RFC 792), type
/// 1 and code 4 for IPv6 (RFC 4443). Four octets behind the checksum are not used, and
/// what it quotes follows.
pub proof fn law_refusal_has_its_layout(src: IpAddress, dst: IpAddress, quoted: Seq<u8>)
    ensures
        ({
            let d = refusal::message(src, dst, quoted);
            &&& d.len() == 8 + quoted.len()
            &&& src is Ipv4 ==> d[0] == 3 && d[1] == 3
            &&& src is Ipv6 ==> d[0] == 1 && d[1] == 4
            &&& d[4] == 0 && d[5] == 0 && d[6] == 0 && d[7] == 0
            &&& d.skip(8) == quoted
        }),
{
    let d = refusal::message(src, dst, quoted);
    let sum = 65535 - checksum::folded(
        refusal::checked_sum(refusal::framed(src, quoted, 0), src, dst),
    );
    bytes::lemma_two_octets(0x0303);
    bytes::lemma_two_octets(0x0104);
    bytes::lemma_octets_len(sum, 2);
    lemma_four_octets(0);
    assert(d =~= bytes::octets(
        match src {
            IpAddress::Ipv4(_) => 0x0303int,
            IpAddress::Ipv6(_) => 0x0104,
        },
        2,
    ) + bytes::octets(sum, 2) + bytes::octets(0, 4) + quoted);
    assert(d.skip(8) =~= quoted);
}

/// The sum of an even number of octets is the number that they make up, counted modulo
/// 65535: the order of the words makes no difference, that of the octets in a word does.
pub proof fn law_sum_is_the_number(s: Seq<u8>)
    requires
        s.len() % 2 == 0,
    ensures
        (bytes::number(s) - checksum::sum(s)) % 65535 == 0,
    decreases s.len(),
{
    if s.len() > 0 {
        let n = (s.len() - 2) as int;
        let front = s.take(n);
        let t = s.skip(n);
        law_sum_is_the_number(front);
        checksum::lemma_sum_split(s, n);
        assert(t.skip(2) =~= Seq::empty());
        assert(checksum::sum(t.skip(2)) == 0);
        assert(checksum::sum(t) == t[0] * 256 + t[1]);
        assert(s.drop_last().drop_last() =~= front);
        assert(s.drop_last().last() == t[0]);
        assert(s.last() == t[1]);
        let a = bytes::number(front);
        assert(bytes::number(s.drop_last()) == a * 256 + t[0]);
        assert(bytes::number(s) == (a * 256 + t[0]) * 256 + t[1]);
        assert(bytes::number(s) - checksum::sum(s) == 65535 * a + (a - checksum::sum(front)));
    }
}

/// A last single octet counts as if a zero followed it.
pub proof fn law_odd_octet_is_padded(s: Seq<u8>)
    requires
        s.len() % 2 == 1,
    ensures
        checksum::sum(s) == checksum::sum(s.push(0)),
    decreases s.len(),
{
    if s.len() > 1 {
        law_odd_octet_is_padded(s.skip(2));
        assert(s.push(0).skip(2) =~= s.skip(2).push(0));
    } else {
        assert(s.push(0).skip(2) =~= Seq::empty());
        assert(checksum::sum(s.push(0).skip(2)) == 0);
    }
}

/// A sum is brought to sixteen bits without a change modulo 65535, and becomes zero only
/// if it is.
pub proof fn law_folding_keeps_the_remainder(n: int)
    requires
        n >= 0,
    ensures
        (n - checksum::folded(n)) % 65535 == 0,
        0 <= checksum::folded(n) <= 65535,
        checksum::folded(n) == 0 <==> n == 0,
{
    if n > 0 {
        let m = (n - 1) % 65535;
        assert((n - 1 - m) % 65535 == 0);
    }
}

/// What is checked beside a packet is its source, its destination, its protocol and its
/// length (RFC 9293 and RFC 8200), each taken as the number that it is.
pub proof fn law_addresses_are_checked(
    src: IpAddress,
    dst: IpAddress,
    protocol: IpProtocol,
    length: int,
)
    requires
        0 <= length < 0x1_0000_0000,
    ensures
        ({
            let a = match src {
                IpAddress::Ipv4(a) => a.0 as int,
                IpAddress::Ipv6(a) => a.0 as int,
            };
            let b = match dst {
                IpAddress::Ipv4(b) => b.0 as int,
                IpAddress::Ipv6(b) => b.0 as int,
            };
            let p = checksum::pseudo_header(src, dst, protocol, length);
            (a + b + protocol.number() + length - p) % 65535 == 0
        }),
{
    lemma_address_sum(src);
    lemma_address_sum(dst);
}

proof fn lemma_address_sum(addr: IpAddress)
    ensures
        match addr {
            IpAddress::Ipv4(a) => (a.0 - checksum::sum(checksum::address_octets(addr))) % 65535
                == 0,
            IpAddress::Ipv6(a) => (a.0 - checksum::sum(checksum::address_octets(addr))) % 65535
                == 0,
        },
{
    bytes::lemma_limits();
    match addr {
        IpAddress::Ipv4(a) => {
            bytes::lemma_octets_len(a.0 as int, 4);
            bytes::law_number_of_octets(a.0 as int, 4);
        },
        IpAddress::Ipv6(a) => {
            bytes::lemma_octets_len(a.0 as int, 16);
            bytes::law_number_of_octets(a.0 as int, 16);
        },
    }
    law_sum_is_the_number(checksum::address_octets(addr));
}

/// A datagram is intact if its header says that there is no checksum, or if the sum of all
/// its octets, up to the length in its header, and of what is checked with them, is a
/// multiple of 65535 but not zero: the checksum makes up for the rest.
pub proof fn law_intact_datagram_adds_up(d: Seq<u8>, src: IpAddress, dst: IpAddress)
    requires
        udp::is_sound(d),
    ensures
        ({
            let n = bytes::field(d, 4, 2);
            let sum = checksum::pseudo_header(src, dst, IpProtocol::Udp, n) + checksum::sum(
                d.take(n),
            );
            udp::is_intact(d, src, dst) <==> bytes::field(d, 6, 2) == 0 || (sum > 0 && sum % 65535
                == 0)
        }),
{
    let n = bytes::field(d, 4, 2);
    let sum = checksum::pseudo_header(src, dst, IpProtocol::Udp, n) + checksum::sum(d.take(n));
    checksum::lemma_sum_bound(d.take(n));
    checksum::lemma_sum_bound(checksum::address_octets(src));
    checksum::lemma_sum_bound(checksum::address_octets(dst));
    law_folding_keeps_the_remainder(sum);
    let f = checksum::folded(sum);
    if sum > 0 && sum % 65535 == 0 {
        assert(f % 65535 == 0);
        assert(f == 65535);
    }
}

} // verus!
