//! The message that tells a sender that nobody listens on a port, as octets.
use super::bytes;
use super::checksum;
use super::{IpAddress, IpProtocol};
use vstd::prelude::*;

verus! {

/// The length of the header in front of the packet that the message quotes.
pub const REFUSAL_HEADER_LEN: usize = 8;

/// The protocol of the message between addresses of a version.
pub open spec fn spec_protocol(addr: IpAddress) -> IpProtocol {
    match addr {
        IpAddress::Ipv4(_) => IpProtocol::Icmp,
        IpAddress::Ipv6(_) => IpProtocol::Icmpv6,
    }
}

#[verifier::when_used_as_spec(spec_protocol)]
pub fn protocol(addr: IpAddress) -> (r: IpProtocol)
    ensures
        r == spec_protocol(addr),
{
    match addr {
        IpAddress::Ipv4(_) => IpProtocol::Icmp,
        IpAddress::Ipv6(_) => IpProtocol::Icmpv6,
    }
}

/// Type and code: the destination is unreachable, for want of a port.
pub open spec fn kind(addr: IpAddress) -> int {
    match addr {
        IpAddress::Ipv4(_) => 0x0303,
        IpAddress::Ipv6(_) => 0x0104,
    }
}

/// The most octets of a packet with the message, so that every path takes it whole.
pub open spec fn spec_size_limit(addr: IpAddress) -> usize {
    match addr {
        IpAddress::Ipv4(_) => 576,
        IpAddress::Ipv6(_) => 1280,
    }
}

#[verifier::when_used_as_spec(spec_size_limit)]
pub fn size_limit(addr: IpAddress) -> (r: usize)
    ensures
        r == spec_size_limit(addr),
{
    match addr {
        IpAddress::Ipv4(_) => 576,
        IpAddress::Ipv6(_) => 1280,
    }
}

/// A header with the given checksum in front of what is quoted.
pub open spec fn framed(addr: IpAddress, quoted: Seq<u8>, sum: int) -> Seq<u8> {
    bytes::octets(kind(addr), 2) + bytes::octets(sum, 2) + bytes::octets(0, 4) + quoted
}

/// The sum over a message and what is checked with it.
pub open spec fn checked_sum(d: Seq<u8>, src: IpAddress, dst: IpAddress) -> int {
    checksum::sum(d) + match src {
        IpAddress::Ipv4(_) => 0,
        IpAddress::Ipv6(_) => checksum::pseudo_header(src, dst, protocol(src), d.len() as int),
    }
}

/// The message that quotes part of a packet.
pub open spec fn message(src: IpAddress, dst: IpAddress, quoted: Seq<u8>) -> Seq<u8> {
    framed(
        src,
        quoted,
        65535 - checksum::folded(checked_sum(framed(src, quoted, 0), src, dst)),
    )
}

proof fn lemma_framed(addr: IpAddress, quoted: Seq<u8>, sum: int)
    requires
        0 <= sum <= 65535,
    ensures
        ({
            let d = framed(addr, quoted, sum);
            &&& d.len() == REFUSAL_HEADER_LEN + quoted.len()
            &&& bytes::field(d, 0, 2) == kind(addr)
            &&& bytes::field(d, 2, 2) == sum
            &&& d.skip(REFUSAL_HEADER_LEN as int) == quoted
        }),
{
    let d = framed(addr, quoted, sum);
    bytes::lemma_limits();
    bytes::lemma_octets_len(kind(addr), 2);
    bytes::lemma_octets_len(sum, 2);
    bytes::lemma_octets_len(0, 4);
    bytes::law_number_of_octets(kind(addr), 2);
    bytes::law_number_of_octets(sum, 2);
    assert(d.subrange(0, 2) =~= bytes::octets(kind(addr), 2));
    assert(d.subrange(2, 4) =~= bytes::octets(sum, 2));
    assert(d.skip(8) =~= quoted);
}

/// The checksum counts as the number that it is.
proof fn lemma_framed_sum(addr: IpAddress, quoted: Seq<u8>, sum: int)
    requires
        0 <= sum <= 65535,
    ensures
        checksum::sum(framed(addr, quoted, sum)) == checksum::sum(framed(addr, quoted, 0)) + sum,
{
    let a = framed(addr, quoted, 0);
    let b = framed(addr, quoted, sum);
    lemma_framed(addr, quoted, 0);
    lemma_framed(addr, quoted, sum);
    checksum::lemma_sum_split(a, 2);
    checksum::lemma_sum_split(b, 2);
    bytes::lemma_octets_len(kind(addr), 2);
    bytes::lemma_octets_len(sum, 2);
    bytes::lemma_octets_len(0, 2);
    assert(a.take(2) =~= b.take(2));
    let x = a.skip(2);
    let y = b.skip(2);
    assert(x.skip(2) =~= y.skip(2));
    bytes::lemma_pair(b.subrange(2, 4));
    bytes::lemma_pair(a.subrange(2, 4));
}

/// What is sent is found intact, and its kind and what it quotes are read back from it.
pub proof fn law_message_is_read_back(src: IpAddress, dst: IpAddress, quoted: Seq<u8>)
    ensures
        ({
            let d = message(src, dst, quoted);
            &&& checksum::folded(checked_sum(d, src, dst)) == 65535
            &&& bytes::field(d, 0, 2) == kind(src)
            &&& d.skip(REFUSAL_HEADER_LEN as int) == quoted
        }),
{
    let z = framed(src, quoted, 0);
    let n = checked_sum(z, src, dst);
    lemma_framed(src, quoted, 0);
    checksum::lemma_sum_bound(z);
    checksum::lemma_sum_bound(checksum::address_octets(src));
    checksum::lemma_sum_bound(checksum::address_octets(dst));
    checksum::law_complement_folds_to_ones(n);
    let c = 65535 - checksum::folded(n);
    lemma_framed(src, quoted, c);
    lemma_framed_sum(src, quoted, c);
}

/// Writes a header in front of what is quoted, whose room is there already.
pub fn emit(d: &mut [u8], src: IpAddress, dst: IpAddress)
    requires
        REFUSAL_HEADER_LEN <= old(d)@.len() <= 65535,
    ensures
        final(d)@ == message(src, dst, old(d)@.skip(REFUSAL_HEADER_LEN as int)),
        final(d)@.len() == old(d)@.len(),
{
    let ghost quoted = d@.skip(REFUSAL_HEADER_LEN as int);
    let length: usize = d.len();
    proof {
        bytes::lemma_octets_len(kind(src), 2);
        bytes::lemma_octets_len(0, 2);
        bytes::lemma_octets_len(0, 4);
        lemma_framed(src, quoted, 0);
    }
    let number: u128 = match src {
        IpAddress::Ipv4(_) => 0x0303,
        IpAddress::Ipv6(_) => 0x0104,
    };
    bytes::write(d, 0, 2, number);
    bytes::write(d, 2, 2, 0);
    bytes::write(d, 4, 4, 0);
    assert(d@ =~= framed(src, quoted, 0));
    let more: u64 = match src {
        IpAddress::Ipv4(_) => 0,
        IpAddress::Ipv6(_) => checksum::pseudo(src, dst, protocol(src), length as u32),
    };
    let sum: u16 = checksum::fold(checksum::data(d) + more);
    let c: u16 = 65535 - sum;
    proof {
        bytes::lemma_octets_len(c as int, 2);
        lemma_framed(src, quoted, c as int);
    }
    bytes::write(d, 2, 2, c as u128);
    assert(d@ =~= framed(src, quoted, c as int));
}

} // verus!
