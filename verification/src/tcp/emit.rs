//! TCP segments as octets.
use super::repr;
use super::repr::{Segment, TcpControl, TcpRepr, TCP_HEADER_LEN};
use crate::storage::slices;
use crate::wire::bytes;
use crate::wire::checksum;
use crate::wire::{IpAddress, IpProtocol, TcpSeqNumber};
use vstd::prelude::*;

verus! {

/// The most options that a header has room for.
pub const MAX_OPTIONS_LEN: usize = 40;

/// A sequence number as the header has it.
pub open spec fn seq_bits(seq: TcpSeqNumber) -> int {
    if seq.0 < 0 {
        seq.0 + 0x1_0000_0000
    } else {
        seq.0 as int
    }
}

/// The flags of a segment.
pub open spec fn flags(s: Segment) -> int {
    (match s.control {
        TcpControl::Plain => 0,
        TcpControl::Fin => 0x01int,
        TcpControl::Syn => 0x02,
        TcpControl::Rst => 0x04,
        TcpControl::Psh => 0x08,
    }) + (if s.ack_number is Some {
        0x10int
    } else {
        0
    })
}

/// The octets of the blocks of a selective acknowledgement.
pub open spec fn block_octets(blocks: Seq<Option<(u32, u32)>>) -> Seq<u8>
    decreases blocks.len(),
{
    if blocks.len() == 0 {
        Seq::empty()
    } else {
        let before = block_octets(blocks.drop_last());
        match blocks.last() {
            Some((left, right)) => before + bytes::octets(left as int, 4) + bytes::octets(
                right as int,
                4,
            ),
            None => before,
        }
    }
}

/// A selective acknowledgement is part of the segment. A segment that offers them has
/// none itself.
pub open spec fn has_blocks(s: Segment) -> bool {
    !s.sack_permitted && s.ack_number is Some && repr::block_count(s.sack_ranges) > 0
}

/// The option for the largest segment, or nothing.
pub open spec fn mss_option(s: Segment) -> Seq<u8> {
    match s.max_seg_size {
        Some(mss) => bytes::octets(0x0204, 2) + bytes::octets(mss as int, 2),
        None => Seq::empty(),
    }
}

/// The option for the scale of the window, or nothing.
pub open spec fn scale_option(s: Segment) -> Seq<u8> {
    match s.window_scale {
        Some(scale) => bytes::octets(0x0303, 2) + bytes::octets(scale as int, 1),
        None => Seq::empty(),
    }
}

/// The option that offers selective acknowledgements, or one itself, or nothing.
pub open spec fn sack_option(s: Segment) -> Seq<u8> {
    if s.sack_permitted {
        bytes::octets(0x0402, 2)
    } else if has_blocks(s) {
        bytes::octets(0x0500 + 2 + 8 * repr::block_count(s.sack_ranges), 2) + block_octets(
            s.sack_ranges,
        )
    } else {
        Seq::empty()
    }
}

/// The timestamp option, or nothing.
pub open spec fn timestamp_option(s: Segment) -> Seq<u8> {
    match s.timestamp {
        Some(t) => bytes::octets(0x080a, 2) + bytes::octets(t.tsval as int, 4) + bytes::octets(
            t.tsecr as int,
            4,
        ),
        None => Seq::empty(),
    }
}

/// The options of a segment, without padding.
pub open spec fn options(s: Segment) -> Seq<u8> {
    mss_option(s) + scale_option(s) + sack_option(s) + timestamp_option(s)
}

/// The options of a segment, with the end of the list and its padding.
pub open spec fn padded_options(s: Segment) -> Seq<u8> {
    options(s) + Seq::new((s.options_len() - options(s).len()) as nat, |i: int| 0u8)
}

/// The header of a segment before its options, with the given checksum.
pub open spec fn fixed_header(s: Segment, sum: int) -> Seq<u8> {
    bytes::octets(s.src_port as int, 2) + bytes::octets(s.dst_port as int, 2) + bytes::octets(
        seq_bits(s.seq_number),
        4,
    ) + bytes::octets(
        match s.ack_number {
            Some(ack) => seq_bits(ack),
            None => 0,
        },
        4,
    ) + bytes::octets((TCP_HEADER_LEN + s.options_len()) / 4 * 0x1000 + flags(s), 2)
        + bytes::octets(s.window_len as int, 2) + bytes::octets(sum, 2) + bytes::octets(0, 2)
}

/// A segment with the given checksum.
pub open spec fn framed(s: Segment, sum: int) -> Seq<u8> {
    fixed_header(s, sum) + padded_options(s) + s.payload
}

/// The sum over a segment and what is checked with it.
pub open spec fn checked_sum(d: Seq<u8>, src: IpAddress, dst: IpAddress) -> int {
    checksum::pseudo_header(src, dst, IpProtocol::Tcp, d.len() as int) + checksum::sum(d)
}

/// A segment with its checksum filled in, or left to the device.
pub open spec fn segment(s: Segment, src: IpAddress, dst: IpAddress, filled: bool) -> Seq<u8> {
    framed(
        s,
        if filled {
            65535 - checksum::folded(checked_sum(framed(s, 0), src, dst))
        } else {
            0
        },
    )
}

/// The length of a segment.
pub open spec fn segment_len(s: Segment) -> int {
    TCP_HEADER_LEN + s.options_len() + s.payload.len()
}

proof fn lemma_block_octets(blocks: Seq<Option<(u32, u32)>>)
    ensures
        block_octets(blocks).len() == 8 * repr::block_count(blocks),
        0 <= repr::block_count(blocks) <= blocks.len(),
    decreases blocks.len(),
{
    if blocks.len() > 0 {
        lemma_block_octets(blocks.drop_last());
        match blocks.last() {
            Some((left, right)) => {
                bytes::lemma_octets_len(left as int, 4);
                bytes::lemma_octets_len(right as int, 4);
            },
            None => {},
        }
    }
}

proof fn lemma_options_len(s: Segment)
    ensures
        options(s).len() <= s.options_len(),
        s.options_len() % 4 == 0,
        padded_options(s).len() == s.options_len(),
        mss_option(s).len() == if s.max_seg_size is Some {
            4int
        } else {
            0
        },
        scale_option(s).len() == if s.window_scale is Some {
            3int
        } else {
            0
        },
        sack_option(s).len() == if s.sack_permitted {
            2
        } else if has_blocks(s) {
            8 * repr::block_count(s.sack_ranges) + 2
        } else {
            0
        },
        timestamp_option(s).len() == if s.timestamp is Some {
            10int
        } else {
            0
        },
{
    lemma_block_octets(s.sack_ranges);
    bytes::lemma_octets_len(0x0204, 2);
    bytes::lemma_octets_len(0x0303, 2);
    bytes::lemma_octets_len(0x0402, 2);
    bytes::lemma_octets_len(0x080a, 2);
    bytes::lemma_octets_len(0x0500 + 2 + 8 * repr::block_count(s.sack_ranges), 2);
    match s.max_seg_size {
        Some(mss) => {
            bytes::lemma_octets_len(mss as int, 2);
        },
        None => {},
    }
    match s.window_scale {
        Some(scale) => {
            bytes::lemma_octets_len(scale as int, 1);
        },
        None => {},
    }
    match s.timestamp {
        Some(t) => {
            bytes::lemma_octets_len(t.tsval as int, 4);
            bytes::lemma_octets_len(t.tsecr as int, 4);
        },
        None => {},
    }
}

proof fn lemma_fixed_header(s: Segment, sum: int)
    ensures
        fixed_header(s, sum).len() == TCP_HEADER_LEN,
        fixed_header(s, sum).subrange(0, 2) == bytes::octets(s.src_port as int, 2),
        fixed_header(s, sum).subrange(2, 4) == bytes::octets(s.dst_port as int, 2),
        fixed_header(s, sum).subrange(4, 8) == bytes::octets(seq_bits(s.seq_number), 4),
        fixed_header(s, sum).subrange(14, 16) == bytes::octets(s.window_len as int, 2),
        fixed_header(s, sum).subrange(16, 18) == bytes::octets(sum, 2),
        fixed_header(s, sum) == bytes::with_field(fixed_header(s, 0), 16, 2, sum),
{
    let h = fixed_header(s, sum);
    let ack = match s.ack_number {
        Some(ack) => seq_bits(ack),
        None => 0,
    };
    let f = (TCP_HEADER_LEN + s.options_len()) / 4 * 0x1000 + flags(s);
    bytes::lemma_octets_len(s.src_port as int, 2);
    bytes::lemma_octets_len(s.dst_port as int, 2);
    bytes::lemma_octets_len(seq_bits(s.seq_number), 4);
    bytes::lemma_octets_len(ack, 4);
    bytes::lemma_octets_len(f, 2);
    bytes::lemma_octets_len(s.window_len as int, 2);
    bytes::lemma_octets_len(sum, 2);
    bytes::lemma_octets_len(0, 2);
    assert(h.subrange(0, 2) =~= bytes::octets(s.src_port as int, 2));
    assert(h.subrange(2, 4) =~= bytes::octets(s.dst_port as int, 2));
    assert(h.subrange(4, 8) =~= bytes::octets(seq_bits(s.seq_number), 4));
    assert(h.subrange(14, 16) =~= bytes::octets(s.window_len as int, 2));
    assert(h.subrange(16, 18) =~= bytes::octets(sum, 2));
    assert(h =~= bytes::with_field(fixed_header(s, 0), 16, 2, sum));
}

/// The header of a segment says who sent it to whom and what it occupies, and leads to
/// the payload.
pub proof fn law_segment_is_read_back(s: Segment, src: IpAddress, dst: IpAddress, filled: bool)
    ensures
        ({
            let d = segment(s, src, dst, filled);
            &&& d.len() == segment_len(s)
            &&& bytes::field(d, 0, 2) == s.src_port
            &&& bytes::field(d, 2, 2) == s.dst_port
            &&& bytes::field(d, 4, 4) == seq_bits(s.seq_number)
            &&& bytes::field(d, 14, 2) == s.window_len
            &&& d.skip(TCP_HEADER_LEN + s.options_len()) == s.payload
        }),
{
    let sum = if filled {
        65535 - checksum::folded(checked_sum(framed(s, 0), src, dst))
    } else {
        0
    };
    let h = fixed_header(s, sum);
    let d = framed(s, sum);
    lemma_fixed_header(s, sum);
    lemma_options_len(s);
    bytes::lemma_limits();
    bytes::law_number_of_octets(s.src_port as int, 2);
    bytes::law_number_of_octets(s.dst_port as int, 2);
    bytes::law_number_of_octets(seq_bits(s.seq_number), 4);
    bytes::law_number_of_octets(s.window_len as int, 2);
    assert(d.subrange(0, 2) =~= h.subrange(0, 2));
    assert(d.subrange(2, 4) =~= h.subrange(2, 4));
    assert(d.subrange(4, 8) =~= h.subrange(4, 8));
    assert(d.subrange(14, 16) =~= h.subrange(14, 16));
    assert(d.skip(TCP_HEADER_LEN + s.options_len()) =~= s.payload);
}

proof fn lemma_middle_of_header(s: Segment, sum: int)
    requires
        s.options_len() <= MAX_OPTIONS_LEN,
    ensures
        fixed_header(s, sum).subrange(8, 12) == bytes::octets(
            match s.ack_number {
                Some(ack) => seq_bits(ack),
                None => 0,
            },
            4,
        ),
        fixed_header(s, sum).subrange(18, 20) == bytes::octets(0, 2),
        fixed_header(s, sum)[12] == (TCP_HEADER_LEN + s.options_len()) / 4 * 16,
        fixed_header(s, sum)[13] == flags(s),
{
    let h = fixed_header(s, sum);
    let ack = match s.ack_number {
        Some(ack) => seq_bits(ack),
        None => 0,
    };
    let f = (TCP_HEADER_LEN + s.options_len()) / 4 * 0x1000 + flags(s);
    lemma_options_len(s);
    bytes::lemma_octets_len(s.src_port as int, 2);
    bytes::lemma_octets_len(s.dst_port as int, 2);
    bytes::lemma_octets_len(seq_bits(s.seq_number), 4);
    bytes::lemma_octets_len(ack, 4);
    bytes::lemma_octets_len(f, 2);
    bytes::lemma_octets_len(s.window_len as int, 2);
    bytes::lemma_octets_len(sum, 2);
    bytes::lemma_octets_len(0, 2);
    bytes::lemma_two_octets(f);
    assert(h.subrange(8, 12) =~= bytes::octets(ack, 4));
    assert(h.subrange(18, 20) =~= bytes::octets(0, 2));
    assert(h[12] == bytes::octets(f, 2)[0]);
    assert(h[13] == bytes::octets(f, 2)[1]);
}

/// The flags of a segment are in octet 13 of its header, one bit each, as RFC 9293 has
/// them: FIN, SYN, RST, PSH and, if there is an acknowledgement number, ACK. The
/// acknowledgement number is in octets 8 up to 12, and the length of the header, in
/// units of four octets, in the upper half of octet 12.
pub proof fn law_flags_are_those_of_the_header(
    s: Segment,
    src: IpAddress,
    dst: IpAddress,
    filled: bool,
)
    requires
        s.options_len() <= MAX_OPTIONS_LEN,
    ensures
        ({
            let d = segment(s, src, dst, filled);
            let f = d[13] as int;
            &&& f < 0x20
            &&& f % 2 == 1 <==> s.control == TcpControl::Fin
            &&& f / 0x02 % 2 == 1 <==> s.control == TcpControl::Syn
            &&& f / 0x04 % 2 == 1 <==> s.control == TcpControl::Rst
            &&& f / 0x08 % 2 == 1 <==> s.control == TcpControl::Psh
            &&& f / 0x10 % 2 == 1 <==> s.ack_number is Some
            &&& s.ack_number matches Some(ack) ==> (bytes::field(d, 8, 4) - ack.0)
                % 0x1_0000_0000 == 0
            &&& s.ack_number is None ==> bytes::field(d, 8, 4) == 0
            &&& (bytes::field(d, 4, 4) - s.seq_number.0) % 0x1_0000_0000 == 0
            &&& d[12] % 16 == 0
            &&& d.len() == d[12] / 16 * 4 + s.payload.len()
            &&& d.skip(d[12] / 16 * 4) == s.payload
            &&& bytes::field(d, 18, 2) == 0
            &&& !filled ==> bytes::field(d, 16, 2) == 0
        }),
{
    let sum = if filled {
        65535 - checksum::folded(checked_sum(framed(s, 0), src, dst))
    } else {
        0
    };
    let h = fixed_header(s, sum);
    let d = framed(s, sum);
    lemma_fixed_header(s, sum);
    lemma_middle_of_header(s, sum);
    lemma_options_len(s);
    law_segment_is_read_back(s, src, dst, filled);
    bytes::lemma_limits();
    bytes::law_number_of_octets(
        match s.ack_number {
            Some(ack) => seq_bits(ack),
            None => 0,
        },
        4,
    );
    bytes::law_number_of_octets(0, 2);
    assert(d.subrange(8, 12) =~= h.subrange(8, 12));
    assert(d.subrange(18, 20) =~= h.subrange(18, 20));
    assert(d.subrange(16, 18) =~= h.subrange(16, 18));
    assert(d[12] == h[12] && d[13] == h[13]);
}

proof fn lemma_three_blocks(blocks: Seq<Option<(u32, u32)>>, i: int)
    requires
        blocks.len() == 3,
        0 <= i < 3,
        forall|j: int| 0 <= j <= i ==> (#[trigger] blocks[j]) is Some,
    ensures
        8 * i + 8 <= block_octets(blocks).len(),
        bytes::field(block_octets(blocks), 8 * i, 4) == (blocks[i]->0).0,
        bytes::field(block_octets(blocks), 8 * i + 4, 4) == (blocks[i]->0).1,
{
    let one = blocks.take(1);
    let two = blocks.take(2);
    assert(one.drop_last() =~= Seq::empty());
    assert(two.drop_last() =~= one);
    assert(blocks.drop_last() =~= two);
    lemma_block_octets(one);
    lemma_block_octets(two);
    lemma_block_octets(blocks);
    assert(block_octets(Seq::empty()) =~= Seq::empty());
    let n = blocks[i]->0;
    bytes::lemma_octets_len(n.0 as int, 4);
    bytes::lemma_octets_len(n.1 as int, 4);
    bytes::lemma_limits();
    bytes::law_number_of_octets(n.0 as int, 4);
    bytes::law_number_of_octets(n.1 as int, 4);
    let upto = blocks.take(i + 1);
    assert(blocks.take(3) =~= blocks);
    assert(upto.last() == blocks[i]);
    assert(upto.drop_last() =~= blocks.take(i));
    lemma_blocks_before(blocks, i);
    let b = block_octets(upto);
    lemma_block_octets(upto);
    lemma_block_octets(blocks.take(i));
    lemma_first_blocks(blocks, i + 1);
    assert(b.subrange(8 * i, 8 * i + 4) =~= bytes::octets(n.0 as int, 4));
    assert(b.subrange(8 * i + 4, 8 * i + 8) =~= bytes::octets(n.1 as int, 4));
    assert(block_octets(blocks).subrange(8 * i, 8 * i + 4) =~= b.subrange(8 * i, 8 * i + 4));
    assert(block_octets(blocks).subrange(8 * i + 4, 8 * i + 8) =~= b.subrange(
        8 * i + 4,
        8 * i + 8,
    ));
}

/// The blocks at the front come first.
proof fn lemma_first_blocks(blocks: Seq<Option<(u32, u32)>>, n: int)
    requires
        0 <= n <= blocks.len(),
    ensures
        block_octets(blocks.take(n)).len() <= block_octets(blocks).len(),
        block_octets(blocks).take(block_octets(blocks.take(n)).len() as int) == block_octets(
            blocks.take(n),
        ),
    decreases blocks.len() - n,
{
    if n == blocks.len() {
        assert(blocks.take(n) =~= blocks);
        assert(block_octets(blocks).take(block_octets(blocks).len() as int) =~= block_octets(
            blocks,
        ));
    } else {
        lemma_first_blocks(blocks, n + 1);
        assert(blocks.take(n + 1).drop_last() =~= blocks.take(n));
        let a = block_octets(blocks.take(n));
        let b = block_octets(blocks.take(n + 1));
        assert(b.take(a.len() as int) =~= a);
        assert(block_octets(blocks).take(a.len() as int) =~= b.take(a.len() as int));
    }
}

/// As long as there is no gap, each block counts.
proof fn lemma_blocks_before(blocks: Seq<Option<(u32, u32)>>, n: int)
    requires
        0 <= n <= blocks.len(),
        forall|j: int| 0 <= j < n ==> (#[trigger] blocks[j]) is Some,
    ensures
        repr::block_count(blocks.take(n)) == n,
    decreases n,
{
    if n > 0 {
        lemma_blocks_before(blocks, n - 1);
        assert(blocks.take(n).drop_last() =~= blocks.take(n - 1));
        assert(blocks.take(n).last() == blocks[n - 1]);
    }
}

/// Behind the first twenty octets stand the options, each with its kind and its length
/// (RFC 9293, RFC 7323 and RFC 2018): the largest segment, the scale of the window,
/// the offer of selective acknowledgements or their blocks, and the timestamps. What is
/// left up to a multiple of four octets is zero.
pub proof fn law_options_are_listed(s: Segment, src: IpAddress, dst: IpAddress, filled: bool)
    requires
        s.options_len() <= MAX_OPTIONS_LEN,
        s.sack_ranges.len() == 3,
        s.sack_permitted || s.ack_number is None ==> s.sack_ranges == seq![
            None::<(u32, u32)>,
            None,
            None,
        ],
    ensures
        ({
            let d = segment(s, src, dst, filled);
            let scale_at = 20 + if s.max_seg_size is Some {
                4int
            } else {
                0
            };
            let sack_at = scale_at + if s.window_scale is Some {
                3int
            } else {
                0
            };
            let blocks = repr::block_count(s.sack_ranges);
            let timestamp_at = sack_at + if s.sack_permitted {
                2
            } else if blocks > 0 {
                2 + 8 * blocks
            } else {
                0
            };
            let end = timestamp_at + if s.timestamp is Some {
                10int
            } else {
                0
            };
            &&& s.max_seg_size matches Some(mss) ==> d[20] == 2 && d[21] == 4 && bytes::field(
                d,
                22,
                2,
            ) == mss
            &&& s.window_scale matches Some(scale) ==> d[scale_at] == 3 && d[scale_at + 1] == 3
                && d[scale_at + 2] == scale
            &&& s.sack_permitted ==> d[sack_at] == 4 && d[sack_at + 1] == 2
            &&& !s.sack_permitted && blocks > 0 ==> d[sack_at] == 5 && d[sack_at + 1] == 2 + 8
                * blocks
            &&& s.timestamp matches Some(t) ==> d[timestamp_at] == 8 && d[timestamp_at + 1] == 10
                && bytes::field(d, timestamp_at + 2, 4) == t.tsval && bytes::field(
                d,
                timestamp_at + 6,
                4,
            ) == t.tsecr
            &&& end <= d[12] / 16 * 4 < end + 4
            &&& forall|i: int| end <= i < d[12] / 16 * 4 ==> #[trigger] d[i] == 0
        }),
{
    let d = segment(s, src, dst, filled);
    let sum = if filled {
        65535 - checksum::folded(checked_sum(framed(s, 0), src, dst))
    } else {
        0
    };
    lemma_option_places(s, sum);
    lemma_options_len(s);
    lemma_middle_of_header(s, sum);
    lemma_fixed_header(s, sum);
    assert(d[12] == fixed_header(s, sum)[12]);
    assert(d[12] / 16 * 4 == 20 + s.options_len());
    if s.sack_ranges == seq![None::<(u32, u32)>, None, None] {
        lemma_no_blocks(s.sack_ranges);
    }
    let scale_at = 20 + mss_option(s).len() as int;
    let sack_at = scale_at + scale_option(s).len() as int;
    let timestamp_at = sack_at + sack_option(s).len() as int;
    let end = timestamp_at + timestamp_option(s).len() as int;
    if s.max_seg_size is Some {
        lemma_mss_option(s, d, 20);
    }
    if s.window_scale is Some {
        lemma_scale_option(s, d, scale_at);
    }
    if s.sack_permitted || has_blocks(s) {
        lemma_sack_option(s, d, sack_at);
    }
    if s.timestamp is Some {
        lemma_timestamp_option(s, d, timestamp_at);
    }
}

/// The blocks of a selective acknowledgement follow its kind and length, with the left
/// and the right edge of each.
pub proof fn law_blocks_are_listed(
    s: Segment,
    src: IpAddress,
    dst: IpAddress,
    filled: bool,
    i: int,
)
    requires
        s.options_len() <= MAX_OPTIONS_LEN,
        s.sack_ranges.len() == 3,
        !s.sack_permitted,
        s.ack_number is Some,
        0 <= i < 3,
        forall|j: int| 0 <= j <= i ==> (#[trigger] s.sack_ranges[j]) is Some,
    ensures
        ({
            let d = segment(s, src, dst, filled);
            let sack_at = 20 + (if s.max_seg_size is Some {
                4int
            } else {
                0
            }) + if s.window_scale is Some {
                3int
            } else {
                0
            };
            &&& bytes::field(d, sack_at + 2 + 8 * i, 4) == (s.sack_ranges[i]->0).0
            &&& bytes::field(d, sack_at + 6 + 8 * i, 4) == (s.sack_ranges[i]->0).1
        }),
{
    let d = segment(s, src, dst, filled);
    let sum = if filled {
        65535 - checksum::folded(checked_sum(framed(s, 0), src, dst))
    } else {
        0
    };
    lemma_option_places(s, sum);
    lemma_options_len(s);
    assert(s.sack_ranges[0] is Some);
    lemma_counted(s.sack_ranges);
    let sack_at = 20 + mss_option(s).len() as int + scale_option(s).len() as int;
    lemma_sack_block(s, d, sack_at, i);
}

/// Each option has its place behind the header.
proof fn lemma_option_places(s: Segment, sum: int)
    requires
        s.options_len() <= MAX_OPTIONS_LEN,
    ensures
        ({
            let d = framed(s, sum);
            let scale_at = 20 + mss_option(s).len() as int;
            let sack_at = scale_at + scale_option(s).len() as int;
            let timestamp_at = sack_at + sack_option(s).len() as int;
            let end = timestamp_at + timestamp_option(s).len() as int;
            &&& d.len() >= 20 + s.options_len()
            &&& end <= 20 + s.options_len()
            &&& d.subrange(20, scale_at) == mss_option(s)
            &&& d.subrange(scale_at, sack_at) == scale_option(s)
            &&& d.subrange(sack_at, timestamp_at) == sack_option(s)
            &&& d.subrange(timestamp_at, end) == timestamp_option(s)
            &&& forall|i: int| end <= i < 20 + s.options_len() ==> #[trigger] d[i] == 0
        }),
{
    let d = framed(s, sum);
    lemma_fixed_header(s, sum);
    lemma_options_len(s);
    let h = fixed_header(s, sum);
    let p = padded_options(s);
    let o = options(s);
    assert forall|i: int| 20 <= i < 20 + p.len() implies #[trigger] d[i] == p[i - 20] by {}
    let scale_at = 20 + mss_option(s).len() as int;
    let sack_at = scale_at + scale_option(s).len() as int;
    let timestamp_at = sack_at + sack_option(s).len() as int;
    let end = timestamp_at + timestamp_option(s).len() as int;
    assert(d.subrange(20, scale_at) =~= mss_option(s));
    assert(d.subrange(scale_at, sack_at) =~= scale_option(s));
    assert(d.subrange(sack_at, timestamp_at) =~= sack_option(s));
    assert(d.subrange(timestamp_at, end) =~= timestamp_option(s));
}

proof fn lemma_mss_option(s: Segment, d: Seq<u8>, at: int)
    requires
        s.max_seg_size is Some,
        0 <= at,
        at + mss_option(s).len() <= d.len(),
        d.subrange(at, at + mss_option(s).len()) == mss_option(s),
    ensures
        d[at] == 2,
        d[at + 1] == 4,
        bytes::field(d, at + 2, 2) == s.max_seg_size->0,
{
    let n = s.max_seg_size->0 as int;
    let x = mss_option(s);
    bytes::lemma_limits();
    bytes::lemma_two_octets(0x0204);
    bytes::lemma_octets_len(n, 2);
    bytes::law_number_of_octets(n, 2);
    assert(x[0] == d[at] && x[1] == d[at + 1]);
    assert(d.subrange(at + 2, at + 4) =~= bytes::octets(n, 2)) by {
        assert(d.subrange(at + 2, at + 4) =~= x.subrange(2, 4));
    }
}

proof fn lemma_scale_option(s: Segment, d: Seq<u8>, at: int)
    requires
        s.window_scale is Some,
        0 <= at,
        at + scale_option(s).len() <= d.len(),
        d.subrange(at, at + scale_option(s).len()) == scale_option(s),
    ensures
        d[at] == 3,
        d[at + 1] == 3,
        d[at + 2] == s.window_scale->0,
{
    let n = s.window_scale->0;
    let x = scale_option(s);
    bytes::lemma_two_octets(0x0303);
    assert(bytes::octets(n as int, 1) =~= seq![n]) by {
        reveal_with_fuel(bytes::octets, 2);
    }
    assert(x[0] == d[at] && x[1] == d[at + 1] && x[2] == d[at + 2]);
}

proof fn lemma_sack_option(s: Segment, d: Seq<u8>, at: int)
    requires
        s.sack_ranges.len() == 3,
        s.sack_permitted || has_blocks(s),
        0 <= at,
        at + sack_option(s).len() <= d.len(),
        d.subrange(at, at + sack_option(s).len()) == sack_option(s),
    ensures
        s.sack_permitted ==> d[at] == 4 && d[at + 1] == 2,
        !s.sack_permitted ==> d[at] == 5 && d[at + 1] == 2 + 8 * repr::block_count(s.sack_ranges),
{
    let x = sack_option(s);
    lemma_block_octets(s.sack_ranges);
    bytes::lemma_two_octets(0x0402);
    bytes::lemma_two_octets(0x0500 + 2 + 8 * repr::block_count(s.sack_ranges));
    assert(x[0] == d[at] && x[1] == d[at + 1]);
}

proof fn lemma_sack_block(s: Segment, d: Seq<u8>, at: int, i: int)
    requires
        s.sack_ranges.len() == 3,
        !s.sack_permitted && has_blocks(s),
        0 <= at,
        at + sack_option(s).len() <= d.len(),
        d.subrange(at, at + sack_option(s).len()) == sack_option(s),
        0 <= i < 3,
        forall|j: int| 0 <= j <= i ==> (#[trigger] s.sack_ranges[j]) is Some,
    ensures
        bytes::field(d, at + 2 + 8 * i, 4) == (s.sack_ranges[i]->0).0,
        bytes::field(d, at + 6 + 8 * i, 4) == (s.sack_ranges[i]->0).1,
{
    let c = sack_option(s);
    let x = block_octets(s.sack_ranges);
    lemma_three_blocks(s.sack_ranges, i);
    bytes::lemma_octets_len(0x0500 + 2 + 8 * repr::block_count(s.sack_ranges), 2);
    assert forall|k: int| 0 <= k < x.len() implies #[trigger] x[k] == d[at + 2 + k] by {
        assert(c[2 + k] == x[k]);
        assert(d.subrange(at, at + c.len())[2 + k] == d[at + 2 + k]);
    }
    assert(d.subrange(at + 2 + 8 * i, at + 2 + 8 * i + 4) =~= x.subrange(8 * i, 8 * i + 4));
    assert(d.subrange(at + 6 + 8 * i, at + 6 + 8 * i + 4) =~= x.subrange(8 * i + 4, 8 * i + 8));
}

proof fn lemma_timestamp_option(s: Segment, d: Seq<u8>, at: int)
    requires
        s.timestamp is Some,
        0 <= at,
        at + timestamp_option(s).len() <= d.len(),
        d.subrange(at, at + timestamp_option(s).len()) == timestamp_option(s),
    ensures
        d[at] == 8,
        d[at + 1] == 10,
        bytes::field(d, at + 2, 4) == s.timestamp->0.tsval,
        bytes::field(d, at + 6, 4) == s.timestamp->0.tsecr,
{
    let t = s.timestamp->0;
    let x = timestamp_option(s);
    bytes::lemma_limits();
    bytes::lemma_two_octets(0x080a);
    bytes::lemma_octets_len(t.tsval as int, 4);
    bytes::law_number_of_octets(t.tsval as int, 4);
    bytes::lemma_octets_len(t.tsecr as int, 4);
    bytes::law_number_of_octets(t.tsecr as int, 4);
    assert(x[0] == d[at] && x[1] == d[at + 1]);
    assert(d.subrange(at + 2, at + 6) =~= x.subrange(2, 6));
    assert(x.subrange(2, 6) =~= bytes::octets(t.tsval as int, 4));
    assert(d.subrange(at + 6, at + 10) =~= x.subrange(6, 10));
    assert(x.subrange(6, 10) =~= bytes::octets(t.tsecr as int, 4));
}

/// A first block is counted.
proof fn lemma_counted(blocks: Seq<Option<(u32, u32)>>)
    requires
        blocks.len() == 3,
        blocks[0] is Some,
    ensures
        repr::block_count(blocks) > 0,
{
    lemma_blocks_before(blocks, 1);
    lemma_count_take(blocks, 1);
}

proof fn lemma_no_blocks(blocks: Seq<Option<(u32, u32)>>)
    requires
        blocks == seq![None::<(u32, u32)>, None, None],
    ensures
        repr::block_count(blocks) == 0,
{
    reveal_with_fuel(repr::block_count, 4);
    assert(blocks.drop_last().drop_last().drop_last() =~= Seq::<Option<(u32, u32)>>::empty());
}

/// The checksum of a segment is right where it was filled in.
pub proof fn law_segment_is_intact(s: Segment, src: IpAddress, dst: IpAddress)
    ensures
        checksum::folded(checked_sum(segment(s, src, dst, true), src, dst)) == 65535,
{
    let z = framed(s, 0);
    let n = checked_sum(z, src, dst);
    checksum::lemma_sum_bound(z);
    checksum::lemma_sum_bound(checksum::address_octets(src));
    checksum::lemma_sum_bound(checksum::address_octets(dst));
    checksum::law_complement_folds_to_ones(n);
    let c = 65535 - checksum::folded(n);
    let d = framed(s, c);
    lemma_fixed_header(s, 0);
    lemma_fixed_header(s, c);
    lemma_options_len(s);
    bytes::lemma_octets_len(0, 2);
    bytes::lemma_octets_len(c, 2);
    bytes::lemma_limits();
    bytes::law_number_of_octets(0, 2);
    bytes::law_number_of_octets(c, 2);
    checksum::lemma_sum_split(z, 16);
    checksum::lemma_sum_split(d, 16);
    assert(z.take(16) =~= d.take(16));
    let x = z.skip(16);
    let y = d.skip(16);
    assert(x.skip(2) =~= y.skip(2));
    bytes::lemma_pair(bytes::octets(0, 2));
    bytes::lemma_pair(bytes::octets(c, 2));
    assert(z.subrange(16, 18) =~= bytes::octets(0, 2));
    assert(d.subrange(16, 18) =~= bytes::octets(c, 2));
    assert(x[0] == z.subrange(16, 18)[0] && x[1] == z.subrange(16, 18)[1]);
    assert(y[0] == d.subrange(16, 18)[0] && y[1] == d.subrange(16, 18)[1]);
}

/// Writes a number behind the first `at` octets, and returns where it ends.
fn append(d: &mut [u8], at: usize, n: usize, v: u128) -> (end: usize)
    requires
        at + n <= old(d)@.len(),
    ensures
        end == at + n,
        final(d)@.len() == old(d)@.len(),
        final(d)@.take(end as int) == old(d)@.take(at as int) + bytes::octets(v as int, n as nat),
{
    let length: usize = d.len();
    bytes::write(d, at, n, v);
    proof {
        bytes::lemma_octets_len(v as int, n as nat);
        assert(d@.take(at + n) =~= old(d)@.take(at as int) + bytes::octets(v as int, n as nat));
    }
    at + n
}

/// A sequence number as the header has it.
fn to_bits(seq: TcpSeqNumber) -> (r: u128)
    ensures
        r == seq_bits(seq),
{
    if seq.0 < 0 {
        (seq.0 as i64 + 0x1_0000_0000) as u128
    } else {
        seq.0 as u128
    }
}

/// The flags of a segment.
fn flag_bits(r: &TcpRepr) -> (f: u16)
    ensures
        f == flags(r@),
        f < 0x20,
{
    let control: u16 = match r.control {
        TcpControl::Plain => 0,
        TcpControl::Fin => 0x01,
        TcpControl::Syn => 0x02,
        TcpControl::Rst => 0x04,
        TcpControl::Psh => 0x08,
    };
    control + if r.ack_number.is_some() {
        0x10
    } else {
        0
    }
}

/// Writes the header before the options, with no checksum.
fn emit_fixed(d: &mut [u8], r: &TcpRepr)
    requires
        TCP_HEADER_LEN <= old(d)@.len(),
        r@.options_len() <= MAX_OPTIONS_LEN,
    ensures
        final(d)@.len() == old(d)@.len(),
        final(d)@.take(TCP_HEADER_LEN as int) == fixed_header(r@, 0),
{
    proof {
        lemma_options_len(r@);
    }
    let header_len: usize = r.header_len();
    let f: u16 = (header_len / 4) as u16 * 0x1000 + flag_bits(r);
    let ack: u128 = match r.ack_number {
        Some(ack) => to_bits(ack),
        None => 0,
    };
    let at: usize = append(d, 0, 2, r.src_port as u128);
    let at: usize = append(d, at, 2, r.dst_port as u128);
    let at: usize = append(d, at, 4, to_bits(r.seq_number));
    let at: usize = append(d, at, 4, ack);
    let at: usize = append(d, at, 2, f as u128);
    let at: usize = append(d, at, 2, r.window_len as u128);
    let at: usize = append(d, at, 2, 0);
    let at: usize = append(d, at, 2, 0);
    assert(d@.take(at as int) =~= fixed_header(r@, 0));
}

/// Writes the blocks of a selective acknowledgement.
fn emit_blocks(d: &mut [u8], from: usize, blocks: &[Option<(u32, u32)>; 3]) -> (end: usize)
    requires
        from + 8 * repr::block_count(blocks@) <= old(d)@.len(),
    ensures
        end == from + 8 * repr::block_count(blocks@),
        final(d)@.len() == old(d)@.len(),
        final(d)@.take(end as int) == old(d)@.take(from as int) + block_octets(blocks@),
{
    let length: usize = d.len();
    let mut at: usize = from;
    let mut i: usize = 0;
    let ghost all = blocks@;
    proof {
        assert(all.take(0) =~= Seq::empty());
        assert(d@.take(from as int) + block_octets(all.take(0)) =~= d@.take(from as int));
    }
    while i < 3
        invariant
            i <= 3,
            all == blocks@,
            all.len() == 3,
            d@.len() == old(d)@.len() == length,
            at == from + 8 * repr::block_count(all.take(i as int)),
            from + 8 * repr::block_count(all) <= length,
            d@.take(at as int) == old(d)@.take(from as int) + block_octets(all.take(i as int)),
        decreases 3 - i,
    {
        proof {
            assert(all.take(i + 1).drop_last() =~= all.take(i as int));
            lemma_count_take(all, i + 1);
        }
        if let Some((left, right)) = blocks[i] {
            let mid: usize = append(d, at, 4, left as u128);
            at = append(d, mid, 4, right as u128);
            proof {
                assert(block_octets(all.take(i + 1)) == block_octets(all.take(i as int))
                    + bytes::octets(left as int, 4) + bytes::octets(right as int, 4));
                assert(d@.take(at as int) =~= old(d)@.take(from as int) + block_octets(
                    all.take(i + 1),
                ));
            }
        }
        i = i + 1;
    }
    assert(all.take(3) =~= all);
    at
}

proof fn lemma_count_take(s: Seq<Option<(u32, u32)>>, n: int)
    requires
        0 <= n <= s.len(),
    ensures
        0 <= repr::block_count(s.take(n)) <= repr::block_count(s),
    decreases s.len() - n,
{
    if n == s.len() {
        assert(s.take(n) =~= s);
        lemma_block_octets(s);
    } else {
        lemma_count_take(s, n + 1);
        assert(s.take(n + 1).drop_last() =~= s.take(n));
        lemma_block_octets(s.take(n));
    }
}

/// Writes the option for the largest segment, if there is one.
fn emit_mss(d: &mut [u8], from: usize, r: &TcpRepr) -> (end: usize)
    requires
        from + mss_option(r@).len() <= old(d)@.len(),
    ensures
        end == from + mss_option(r@).len(),
        final(d)@.len() == old(d)@.len(),
        final(d)@.take(end as int) == old(d)@.take(from as int) + mss_option(r@),
{
    let length: usize = d.len();
    proof {
        lemma_options_len(r@);
        lemma_block_octets(r@.sack_ranges);
    }
    let mut at: usize = from;
    if let Some(mss) = r.max_seg_size {
        at = append(d, at, 2, 0x0204);
        at = append(d, at, 2, mss as u128);
    }
    assert(d@.take(at as int) =~= old(d)@.take(from as int) + mss_option(r@));
    at
}

/// Writes the option for the scale of the window, if there is one.
fn emit_scale(d: &mut [u8], from: usize, r: &TcpRepr) -> (end: usize)
    requires
        from + scale_option(r@).len() <= old(d)@.len(),
    ensures
        end == from + scale_option(r@).len(),
        final(d)@.len() == old(d)@.len(),
        final(d)@.take(end as int) == old(d)@.take(from as int) + scale_option(r@),
{
    let length: usize = d.len();
    proof {
        lemma_options_len(r@);
        lemma_block_octets(r@.sack_ranges);
    }
    let mut at: usize = from;
    if let Some(scale) = r.window_scale {
        at = append(d, at, 2, 0x0303);
        at = append(d, at, 1, scale as u128);
    }
    assert(d@.take(at as int) =~= old(d)@.take(from as int) + scale_option(r@));
    at
}

/// Writes the option for selective acknowledgements, if there is one.
fn emit_sack(d: &mut [u8], from: usize, r: &TcpRepr) -> (end: usize)
    requires
        from + sack_option(r@).len() <= old(d)@.len(),
    ensures
        end == from + sack_option(r@).len(),
        final(d)@.len() == old(d)@.len(),
        final(d)@.take(end as int) == old(d)@.take(from as int) + sack_option(r@),
{
    let length: usize = d.len();
    proof {
        lemma_options_len(r@);
        lemma_block_octets(r@.sack_ranges);
    }
    let mut at: usize = from;
    if r.sack_permitted {
        at = append(d, at, 2, 0x0402);
    } else if r.ack_number.is_some() {
        let count: usize = r.block_count();
        if count > 0 {
            at = append(d, at, 2, 0x0500 + 2 + 8 * count as u128);
            at = emit_blocks(d, at, &r.sack_ranges);
        }
    }
    assert(d@.take(at as int) =~= old(d)@.take(from as int) + sack_option(r@));
    at
}

/// Writes the timestamp option, if there is one.
fn emit_timestamp(d: &mut [u8], from: usize, r: &TcpRepr) -> (end: usize)
    requires
        from + timestamp_option(r@).len() <= old(d)@.len(),
    ensures
        end == from + timestamp_option(r@).len(),
        final(d)@.len() == old(d)@.len(),
        final(d)@.take(end as int) == old(d)@.take(from as int) + timestamp_option(r@),
{
    let length: usize = d.len();
    proof {
        lemma_options_len(r@);
        lemma_block_octets(r@.sack_ranges);
    }
    let mut at: usize = from;
    if let Some(t) = r.timestamp {
        at = append(d, at, 2, 0x080a);
        at = append(d, at, 4, t.tsval as u128);
        at = append(d, at, 4, t.tsecr as u128);
    }
    assert(d@.take(at as int) =~= old(d)@.take(from as int) + timestamp_option(r@));
    at
}

/// Writes the options behind the first `from` octets, and returns where they end.
fn emit_options(d: &mut [u8], from: usize, r: &TcpRepr) -> (end: usize)
    requires
        from + options(r@).len() <= old(d)@.len(),
    ensures
        end == from + options(r@).len(),
        final(d)@.len() == old(d)@.len(),
        final(d)@.take(end as int) == old(d)@.take(from as int) + options(r@),
{
    let at: usize = emit_mss(d, from, r);
    let at: usize = emit_scale(d, at, r);
    let at: usize = emit_sack(d, at, r);
    let at: usize = emit_timestamp(d, at, r);
    assert(d@.take(at as int) =~= old(d)@.take(from as int) + options(r@));
    at
}

/// Writes a segment.
pub fn emit(d: &mut [u8], r: &TcpRepr, src: IpAddress, dst: IpAddress, fill: bool)
    requires
        old(d)@.len() == segment_len(r@),
        old(d)@.len() <= 65535,
        r@.options_len() <= MAX_OPTIONS_LEN,
    ensures
        final(d)@ == segment(r@, src, dst, fill),
        final(d)@.len() == old(d)@.len(),
{
    let ghost s = r@;
    let ghost z = framed(s, 0);
    let length: usize = d.len();
    let header_len: usize = r.header_len();
    proof {
        lemma_options_len(s);
        lemma_fixed_header(s, 0);
    }
    emit_fixed(d, r);
    let end: usize = emit_options(d, TCP_HEADER_LEN, r);
    let ghost before = d@.take(end as int);
    // The end of the list, and the padding behind it.
    let mut at: usize = end;
    while at < header_len
        invariant
            end <= at <= header_len <= length,
            d@.len() == length,
            d@.take(end as int) == before,
            forall|k: int| end <= k < at ==> d@[k] == 0,
        decreases header_len - at,
    {
        d[at] = 0;
        assert(d@.take(end as int) =~= before);
        at = at + 1;
    }
    assert(d@.take(header_len as int) =~= fixed_header(s, 0) + padded_options(s));
    {
        let part = slices::part_mut(d, header_len, header_len + r.payload.len());
        slices::copy_slice(part, r.payload);
    }
    {
        let part = slices::part_mut(d, header_len + r.payload.len(), length);
        slices::copy_slice(part, r.payload2);
    }
    assert(d@ =~= z);
    if fill {
        let sum: u16 = checksum::fold(
            checksum::pseudo(src, dst, IpProtocol::Tcp, length as u32) + checksum::data(d),
        );
        let c: u16 = 65535 - sum;
        proof {
            lemma_fixed_header(s, c as int);
            bytes::lemma_octets_len(c as int, 2);
        }
        bytes::write(d, 16, 2, c as u128);
        assert(d@ =~= framed(s, c as int));
    }
}

} // verus!
