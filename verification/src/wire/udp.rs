//! UDP datagrams as octets.
use super::bytes;
use super::checksum;
use super::{IpAddress, IpProtocol};
use vstd::prelude::*;

verus! {

/// The length of a UDP header.
pub const UDP_HEADER_LEN: usize = 8;

/// A whole header is there, and the length in it is that of a header at least and of
/// what is there at most.
pub open spec fn is_sound(d: Seq<u8>) -> bool {
    &&& d.len() >= UDP_HEADER_LEN
    &&& UDP_HEADER_LEN <= bytes::field(d, 4, 2) <= d.len()
}

/// The sum over a datagram and what is checked with it.
pub open spec fn checked_sum(d: Seq<u8>, src: IpAddress, dst: IpAddress) -> int {
    checksum::pseudo_header(src, dst, IpProtocol::Udp, bytes::field(d, 4, 2)) + checksum::sum(
        d.take(bytes::field(d, 4, 2)),
    )
}

/// The checksum is right, or there is none.
pub open spec fn is_intact(d: Seq<u8>, src: IpAddress, dst: IpAddress) -> bool {
    bytes::field(d, 6, 2) == 0 || checksum::folded(checked_sum(d, src, dst)) == 65535
}

/// A header with the given checksum in front of the payload.
pub open spec fn framed(src_port: u16, dst_port: u16, payload: Seq<u8>, sum: int) -> Seq<u8> {
    bytes::octets(src_port as int, 2) + bytes::octets(dst_port as int, 2) + bytes::octets(
        (UDP_HEADER_LEN + payload.len()) as int,
        2,
    ) + bytes::octets(sum, 2) + payload
}

/// What completes a sum to the all-ones word. Zero would mean that there is no
/// checksum, and is replaced by its other form.
pub open spec fn complement(n: int) -> int {
    if checksum::folded(n) == 65535 {
        65535
    } else {
        65535 - checksum::folded(n)
    }
}

/// A datagram with its checksum filled in, or left to the device.
pub open spec fn datagram(
    src: IpAddress,
    src_port: u16,
    dst: IpAddress,
    dst_port: u16,
    payload: Seq<u8>,
    filled: bool,
) -> Seq<u8> {
    framed(
        src_port,
        dst_port,
        payload,
        if filled {
            complement(checked_sum(framed(src_port, dst_port, payload, 0), src, dst))
        } else {
            0
        },
    )
}

proof fn lemma_framed(src_port: u16, dst_port: u16, payload: Seq<u8>, sum: int)
    requires
        UDP_HEADER_LEN + payload.len() <= 65535,
        0 <= sum <= 65535,
    ensures
        ({
            let d = framed(src_port, dst_port, payload, sum);
            &&& d.len() == UDP_HEADER_LEN + payload.len()
            &&& is_sound(d)
            &&& bytes::field(d, 0, 2) == src_port
            &&& bytes::field(d, 2, 2) == dst_port
            &&& bytes::field(d, 4, 2) == d.len()
            &&& bytes::field(d, 6, 2) == sum
            &&& d.skip(UDP_HEADER_LEN as int) == payload
        }),
{
    let d = framed(src_port, dst_port, payload, sum);
    let n = (UDP_HEADER_LEN + payload.len()) as int;
    bytes::lemma_limits();
    bytes::lemma_octets_len(src_port as int, 2);
    bytes::lemma_octets_len(dst_port as int, 2);
    bytes::lemma_octets_len(n, 2);
    bytes::lemma_octets_len(sum, 2);
    bytes::law_number_of_octets(src_port as int, 2);
    bytes::law_number_of_octets(dst_port as int, 2);
    bytes::law_number_of_octets(n, 2);
    bytes::law_number_of_octets(sum, 2);
    assert(d.subrange(0, 2) =~= bytes::octets(src_port as int, 2));
    assert(d.subrange(2, 4) =~= bytes::octets(dst_port as int, 2));
    assert(d.subrange(4, 6) =~= bytes::octets(n, 2));
    assert(d.subrange(6, 8) =~= bytes::octets(sum, 2));
    assert(d.skip(8) =~= payload);
}

/// The checksum counts as the number that it is.
proof fn lemma_framed_sum(src_port: u16, dst_port: u16, payload: Seq<u8>, sum: int)
    requires
        UDP_HEADER_LEN + payload.len() <= 65535,
        0 <= sum <= 65535,
    ensures
        checksum::sum(framed(src_port, dst_port, payload, sum)) == checksum::sum(
            framed(src_port, dst_port, payload, 0),
        ) + sum,
{
    let a = framed(src_port, dst_port, payload, 0);
    let b = framed(src_port, dst_port, payload, sum);
    lemma_framed(src_port, dst_port, payload, 0);
    lemma_framed(src_port, dst_port, payload, sum);
    checksum::lemma_sum_split(a, 6);
    checksum::lemma_sum_split(b, 6);
    bytes::lemma_octets_len(src_port as int, 2);
    bytes::lemma_octets_len(dst_port as int, 2);
    bytes::lemma_octets_len((UDP_HEADER_LEN + payload.len()) as int, 2);
    bytes::lemma_octets_len(sum, 2);
    bytes::lemma_octets_len(0, 2);
    assert(a.take(6) =~= b.take(6));
    let x = a.skip(6);
    let y = b.skip(6);
    assert(x.skip(2) =~= payload);
    assert(y.skip(2) =~= payload);
    bytes::lemma_pair(b.subrange(6, 8));
    bytes::lemma_pair(a.subrange(6, 8));
}

/// What is sent is found sound and intact, and its ports and its payload are read
/// back from it.
pub proof fn law_datagram_is_read_back(
    src: IpAddress,
    src_port: u16,
    dst: IpAddress,
    dst_port: u16,
    payload: Seq<u8>,
    filled: bool,
)
    requires
        UDP_HEADER_LEN + payload.len() <= 65535,
    ensures
        ({
            let d = datagram(src, src_port, dst, dst_port, payload, filled);
            &&& is_sound(d)
            &&& is_intact(d, src, dst)
            &&& bytes::field(d, 0, 2) == src_port
            &&& bytes::field(d, 2, 2) == dst_port
            &&& bytes::field(d, 4, 2) == d.len()
            &&& d.skip(UDP_HEADER_LEN as int) == payload
        }),
{
    let z = framed(src_port, dst_port, payload, 0);
    let n = checked_sum(z, src, dst);
    lemma_framed(src_port, dst_port, payload, 0);
    checksum::lemma_sum_bound(z.take(z.len() as int));
    checksum::lemma_sum_bound(checksum::address_octets(src));
    checksum::lemma_sum_bound(checksum::address_octets(dst));
    checksum::law_complement_folds_to_ones(n);
    if filled {
        let c = complement(n);
        let d = framed(src_port, dst_port, payload, c);
        lemma_framed(src_port, dst_port, payload, c);
        lemma_framed_sum(src_port, dst_port, payload, c);
        assert(z.take(z.len() as int) =~= z);
        assert(d.take(d.len() as int) =~= d);
    }
}

/// Whether a datagram is sound.
pub fn check_len(d: &[u8]) -> (r: bool)
    ensures
        r == is_sound(d@),
{
    if d.len() < UDP_HEADER_LEN {
        return false;
    }
    let length: usize = bytes::read_u16(d, 4) as usize;
    UDP_HEADER_LEN <= length && length <= d.len()
}

/// The sum over a datagram and what is checked with it, brought to sixteen bits.
fn folded_sum(d: &[u8], src: IpAddress, dst: IpAddress) -> (r: u16)
    requires
        is_sound(d@),
    ensures
        r == checksum::folded(checked_sum(d@, src, dst)),
{
    let length: u16 = bytes::read_u16(d, 4);
    let part = vstd::slice::slice_subrange(d, 0, length as usize);
    assert(part@ =~= d@.take(length as int));
    checksum::fold(checksum::pseudo(src, dst, IpProtocol::Udp, length as u32) + checksum::data(part))
}

/// Whether the checksum is right, or there is none.
pub fn verify_checksum(d: &[u8], src: IpAddress, dst: IpAddress) -> (r: bool)
    requires
        is_sound(d@),
    ensures
        r == is_intact(d@, src, dst),
{
    bytes::read_u16(d, 6) == 0 || folded_sum(d, src, dst) == 65535
}

/// Writes a header in front of the payload, whose room is there already.
pub fn emit(d: &mut [u8], src: IpAddress, src_port: u16, dst: IpAddress, dst_port: u16, fill: bool)
    requires
        UDP_HEADER_LEN <= old(d)@.len() <= 65535,
    ensures
        final(d)@ == datagram(
            src,
            src_port,
            dst,
            dst_port,
            old(d)@.skip(UDP_HEADER_LEN as int),
            fill,
        ),
        final(d)@.len() == old(d)@.len(),
{
    let ghost payload = d@.skip(UDP_HEADER_LEN as int);
    let ghost z = framed(src_port, dst_port, payload, 0);
    let length: usize = d.len();
    proof {
        bytes::lemma_octets_len(src_port as int, 2);
        bytes::lemma_octets_len(dst_port as int, 2);
        bytes::lemma_octets_len(length as int, 2);
        bytes::lemma_octets_len(0, 2);
        lemma_framed(src_port, dst_port, payload, 0);
    }
    bytes::write(d, 0, 2, src_port as u128);
    bytes::write(d, 2, 2, dst_port as u128);
    bytes::write(d, 4, 2, length as u128);
    bytes::write(d, 6, 2, 0);
    assert(d@ =~= z);
    if fill {
        let sum: u16 = folded_sum(d, src, dst);
        let c: u16 = if sum == 65535 {
            65535
        } else {
            65535 - sum
        };
        proof {
            bytes::lemma_octets_len(c as int, 2);
            lemma_framed(src_port, dst_port, payload, c as int);
        }
        bytes::write(d, 6, 2, c as u128);
        assert(d@ =~= framed(src_port, dst_port, payload, c as int));
    }
}

} // verus!
