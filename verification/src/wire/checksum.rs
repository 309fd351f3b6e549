//! The Internet checksum.
use super::bytes;
use super::{IpAddress, IpProtocol};
use vstd::prelude::*;

verus! {

/// The sum of the octets taken two by two as numbers; a last single octet counts as
/// the first one of a pair.
pub open spec fn sum(s: Seq<u8>) -> int
    decreases s.len(),
{
    if s.len() == 0 {
        0
    } else if s.len() == 1 {
        s[0] * 256
    } else {
        s[0] * 256 + s[1] + sum(s.skip(2))
    }
}

/// A sum brought to sixteen bits by adding what exceeds them, over and over: the same
/// remainder modulo 65535, and zero only for zero.
pub open spec fn folded(n: int) -> int {
    if n == 0 {
        0
    } else {
        (n - 1) % 65535 + 1
    }
}

/// The octets of an address.
pub open spec fn address_octets(addr: IpAddress) -> Seq<u8> {
    match addr {
        IpAddress::Ipv4(a) => bytes::octets(a.0 as int, 4),
        IpAddress::Ipv6(a) => bytes::octets(a.0 as int, 16),
    }
}

/// The sum of what is not part of a packet but checked with it: its addresses, its
/// protocol and its length.
pub open spec fn pseudo_header(
    src: IpAddress,
    dst: IpAddress,
    protocol: IpProtocol,
    length: int,
) -> int {
    sum(address_octets(src)) + sum(address_octets(dst)) + protocol.number() + length / 65536
        + length % 65536
}

/// The sum of octets is the sum of its two parts, if the first one is even.
pub proof fn lemma_sum_split(s: Seq<u8>, i: int)
    requires
        0 <= i <= s.len(),
        i % 2 == 0,
    ensures
        sum(s) == sum(s.take(i)) + sum(s.skip(i)),
    decreases i,
{
    if i == 0 {
        assert(s.take(0) =~= Seq::empty());
        assert(s.skip(0) =~= s);
    } else {
        let t = s.skip(2);
        lemma_sum_split(t, i - 2);
        assert(s.take(i).skip(2) =~= t.take(i - 2));
        assert(t.skip(i - 2) =~= s.skip(i));
    }
}

pub proof fn lemma_sum_bound(s: Seq<u8>)
    ensures
        0 <= sum(s) <= s.len() * 65535,
    decreases s.len(),
{
    if s.len() >= 2 {
        lemma_sum_bound(s.skip(2));
    }
}

/// Adding what is missing to the all-ones word makes the sum fold to it, and so does
/// adding the all-ones word where nothing is missing: a checksum that was filled in
/// is found correct.
pub proof fn law_complement_folds_to_ones(n: int)
    requires
        n >= 0,
    ensures
        0 <= folded(n) <= 65535,
        folded(n + (65535 - folded(n))) == 65535,
        folded(n) == 65535 ==> folded(n + 65535) == 65535,
{
    if n > 0 {
        let m = (n - 1) % 65535;
        let q = (n - 1) / 65535;
        assert(n - 1 == 65535 * q + m);
        assert((n + 65535 - (m + 1) - 1) % 65535 == 65534);
    }
}

/// The sum of octets.
pub fn data(s: &[u8]) -> (r: u64)
    requires
        s@.len() <= 0x1_0000_0000,
    ensures
        r == sum(s@),
        r <= s@.len() * 65535,
{
    let n: usize = s.len();
    let mut acc: u64 = 0;
    let mut i: usize = 0;
    proof {
        assert(s@.take(0) =~= Seq::empty());
    }
    while n - i >= 2
        invariant
            i <= n == s@.len(),
            i % 2 == 0,
            n <= 0x1_0000_0000,
            acc == sum(s@.take(i as int)),
            acc <= i * 65535,
        decreases n - i,
    {
        proof {
            let t = s@.take(i + 2);
            lemma_sum_split(t, i as int);
            assert(t.take(i as int) =~= s@.take(i as int));
            let u = t.skip(i as int);
            assert(u.skip(2) =~= Seq::empty());
            assert(sum(u.skip(2)) == 0);
            assert(u[0] == s@[i as int] && u[1] == s@[i + 1]);
        }
        acc = acc + s[i] as u64 * 256 + s[i + 1] as u64;
        i = i + 2;
    }
    if i < n {
        proof {
            lemma_sum_split(s@, i as int);
            assert(s@.skip(i as int).len() == 1);
            assert(s@.skip(i as int)[0] == s@[i as int]);
        }
        acc = acc + s[i] as u64 * 256;
    } else {
        assert(s@.take(i as int) =~= s@);
    }
    acc
}

/// Brings a sum to sixteen bits.
pub fn fold(n: u64) -> (r: u16)
    ensures
        r == folded(n as int),
{
    if n == 0 {
        0
    } else {
        ((n - 1) % 65535 + 1) as u16
    }
}

/// The sum of the octets of an address.
fn address(addr: IpAddress) -> (r: u64)
    ensures
        r == sum(address_octets(addr)),
        r <= 16 * 65535,
{
    let mut buffer: [u8; 16] = [0; 16];
    let n: usize = match addr {
        IpAddress::Ipv4(a) => {
            bytes::write(&mut buffer, 0, 4, a.0 as u128);
            4
        },
        IpAddress::Ipv6(a) => {
            bytes::write(&mut buffer, 0, 16, a.0);
            16
        },
    };
    let part = vstd::slice::slice_subrange(&buffer, 0, n);
    proof {
        match addr {
            IpAddress::Ipv4(a) => {
                bytes::lemma_octets_len(a.0 as int, 4);
            },
            IpAddress::Ipv6(a) => {
                bytes::lemma_octets_len(a.0 as int, 16);
            },
        }
        assert(part@ =~= address_octets(addr));
    }
    data(part)
}

/// The sum of what is not part of a packet but checked with it.
pub fn pseudo(src: IpAddress, dst: IpAddress, protocol: IpProtocol, length: u32) -> (r: u64)
    ensures
        r == pseudo_header(src, dst, protocol, length as int),
        r <= 0x1_0000_0000,
{
    address(src) + address(dst) + protocol.to_number() as u64 + (length / 65536) as u64 + (length
        % 65536) as u64
}

} // verus!
