//! TCP segments.
use crate::wire::TcpSeqNumber;
use vstd::prelude::*;

verus! {

/// The length of a TCP header without options.
pub const TCP_HEADER_LEN: usize = 20;

/// The control flag of a segment.
#[derive(Debug, Clone, Copy, PartialEq, Eq, Structural)]
pub enum TcpControl {
    /// No flag beside the acknowledgement.
    Plain,
    Psh,
    Syn,
    Fin,
    Rst,
}

/// The timestamp option (RFC 7323).
#[derive(Debug, Clone, Copy, PartialEq, Eq, Structural)]
pub struct TcpTimestampRepr {
    pub tsval: u32,
    pub tsecr: u32,
}

impl TcpTimestampRepr {
    pub fn new(tsval: u32, tsecr: u32) -> (r: TcpTimestampRepr)
        ensures
            r == (TcpTimestampRepr { tsval, tsecr }),
    {
        TcpTimestampRepr { tsval, tsecr }
    }
}

/// A TCP segment. The payload of an outgoing segment may lie in two pieces.
#[derive(Debug, Clone, Copy, PartialEq, Eq)]
pub struct TcpRepr<'a> {
    pub src_port: u16,
    pub dst_port: u16,
    pub control: TcpControl,
    pub seq_number: TcpSeqNumber,
    pub ack_number: Option<TcpSeqNumber>,
    pub window_len: u16,
    pub window_scale: Option<u8>,
    pub max_seg_size: Option<u16>,
    pub sack_permitted: bool,
    pub sack_ranges: [Option<(u32, u32)>; 3],
    pub timestamp: Option<TcpTimestampRepr>,
    pub payload: &'a [u8],
    pub payload2: &'a [u8],
}

/// What a segment says.
#[verifier::ext_equal]
pub struct Segment {
    pub src_port: u16,
    pub dst_port: u16,
    pub control: TcpControl,
    pub seq_number: TcpSeqNumber,
    pub ack_number: Option<TcpSeqNumber>,
    pub window_len: u16,
    pub window_scale: Option<u8>,
    pub max_seg_size: Option<u16>,
    pub sack_permitted: bool,
    pub sack_ranges: Seq<Option<(u32, u32)>>,
    pub timestamp: Option<TcpTimestampRepr>,
    pub payload: Seq<u8>,
}

/// The number of blocks in a selective acknowledgement.
pub open spec fn block_count(s: Seq<Option<(u32, u32)>>) -> int
    decreases s.len(),
{
    if s.len() == 0 {
        0
    } else {
        block_count(s.drop_last()) + if s.last() is Some {
            1int
        } else {
            0
        }
    }
}

/// `n` rounded up to a multiple of four.
pub open spec fn padded(n: int) -> int {
    (n + 3) / 4 * 4
}

impl TcpControl {
    /// The number of sequence numbers that the flag occupies.
    pub open spec fn seq_len(self) -> int {
        match self {
            TcpControl::Syn | TcpControl::Fin => 1,
            _ => 0,
        }
    }

    pub open spec fn quashed(self) -> TcpControl {
        match self {
            TcpControl::Psh => TcpControl::Plain,
            _ => self,
        }
    }

    /// The flag without PSH, which makes no difference to a receiver.
    #[verifier::when_used_as_spec(quashed)]
    pub fn quash_psh(self) -> (r: TcpControl)
        ensures
            r == self.quashed(),
    {
        match self {
            TcpControl::Psh => TcpControl::Plain,
            _ => self,
        }
    }

    pub fn len(self) -> (r: usize)
        ensures
            r == self.seq_len(),
    {
        match self {
            TcpControl::Syn | TcpControl::Fin => 1,
            _ => 0,
        }
    }
}

impl Segment {
    /// The number of sequence numbers that the segment occupies.
    pub open spec fn seq_len(self) -> int {
        self.payload.len() + self.control.seq_len()
    }

    /// The length of the options, padded.
    pub open spec fn options_len(self) -> int {
        let blocks = block_count(self.sack_ranges);
        padded(
            (if self.max_seg_size is Some {
                4int
            } else {
                0
            }) + (if self.window_scale is Some {
                3int
            } else {
                0
            }) + (if self.sack_permitted {
                2int
            } else {
                0
            }) + (if self.timestamp is Some {
                10int
            } else {
                0
            }) + (if blocks > 0 {
                blocks * 8 + 2
            } else {
                0
            }),
        )
    }

    /// An answer to a segment, without anything in it yet.
    pub open spec fn reply(self) -> Segment {
        Segment {
            src_port: self.dst_port,
            dst_port: self.src_port,
            control: TcpControl::Plain,
            seq_number: TcpSeqNumber(0),
            ack_number: None,
            window_len: 0,
            window_scale: None,
            max_seg_size: None,
            sack_permitted: false,
            sack_ranges: seq![None, None, None],
            timestamp: None,
            payload: Seq::empty(),
        }
    }

    /// The reset with which a segment is refused. It takes the sequence number
    /// that the refused segment acknowledges; a bare SYN is acknowledged.
    pub open spec fn rst_reply(self) -> Segment {
        Segment {
            control: TcpControl::Rst,
            seq_number: match self.ack_number {
                Some(ack) => ack,
                None => TcpSeqNumber(0),
            },
            ack_number: if self.control == TcpControl::Syn && self.ack_number is None {
                Some(self.seq_number.plus(self.seq_len()))
            } else {
                None
            },
            ..self.reply()
        }
    }
}

impl<'a> View for TcpRepr<'a> {
    type V = Segment;

    open spec fn view(&self) -> Segment {
        Segment {
            src_port: self.src_port,
            dst_port: self.dst_port,
            control: self.control,
            seq_number: self.seq_number,
            ack_number: self.ack_number,
            window_len: self.window_len,
            window_scale: self.window_scale,
            max_seg_size: self.max_seg_size,
            sack_permitted: self.sack_permitted,
            sack_ranges: self.sack_ranges@,
            timestamp: self.timestamp,
            payload: self.payload@ + self.payload2@,
        }
    }
}

/// An empty slice.
pub fn no_bytes() -> (r: &'static [u8])
    ensures
        r@ == Seq::<u8>::empty(),
{
    let r: &'static [u8] = &[];
    assert(r@ =~= Seq::<u8>::empty());
    r
}

impl<'a> TcpRepr<'a> {
    /// The segment is one that can have arrived: its payload is in one piece, of a
    /// length that sequence numbers can tell apart, and the window scale is one
    /// that RFC 7323 allows.
    pub open spec fn valid(&self) -> bool {
        &&& self.payload2@.len() == 0
        &&& self.payload@.len() < i32::MAX
        &&& self.window_scale matches Some(scale) ==> scale <= 14
    }

    /// The number of octets of payload.
    pub fn payload_len(&self) -> (r: usize)
        requires
            self@.payload.len() <= usize::MAX,
        ensures
            r == self@.payload.len(),
    {
        self.payload.len() + self.payload2.len()
    }

    /// The number of sequence numbers that the segment occupies.
    pub fn segment_len(&self) -> (r: usize)
        requires
            self@.payload.len() < usize::MAX,
        ensures
            r == self@.seq_len(),
    {
        self.payload_len() + self.control.len()
    }

    /// The number of blocks in the selective acknowledgement.
    pub fn block_count(&self) -> (r: usize)
        ensures
            r == block_count(self@.sack_ranges),
            r <= 3,
    {
        let mut blocks: usize = 0;
        let mut i: usize = 0;
        while i < 3
            invariant
                i <= 3,
                blocks <= i,
                blocks == block_count(self.sack_ranges@.take(i as int)),
            decreases 3 - i,
        {
            assert(self.sack_ranges@.take(i + 1).drop_last() =~= self.sack_ranges@.take(i as int));
            if self.sack_ranges[i].is_some() {
                blocks = blocks + 1;
            }
            i = i + 1;
        }
        assert(self.sack_ranges@.take(3) =~= self.sack_ranges@);
        blocks
    }

    /// The length of the header with its options.
    pub fn header_len(&self) -> (r: usize)
        ensures
            r == TCP_HEADER_LEN + self@.options_len(),
    {
        let mut length: usize = 0;
        if self.max_seg_size.is_some() {
            length = length + 4;
        }
        if self.window_scale.is_some() {
            length = length + 3;
        }
        if self.sack_permitted {
            length = length + 2;
        }
        if self.timestamp.is_some() {
            length = length + 10;
        }
        let blocks: usize = self.block_count();
        if blocks > 0 {
            length = length + blocks * 8 + 2;
        }
        TCP_HEADER_LEN + (length + 3) / 4 * 4
    }

    /// An answer to a segment, without anything in it yet.
    pub fn reply(repr: &TcpRepr) -> (r: TcpRepr<'static>)
        ensures
            r@ == repr@.reply(),
            r.payload@.len() == 0,
            r.payload2@.len() == 0,
    {
        let r = TcpRepr {
            src_port: repr.dst_port,
            dst_port: repr.src_port,
            control: TcpControl::Plain,
            seq_number: TcpSeqNumber(0),
            ack_number: None,
            window_len: 0,
            window_scale: None,
            max_seg_size: None,
            sack_permitted: false,
            sack_ranges: [None, None, None],
            timestamp: None,
            payload: no_bytes(),
            payload2: no_bytes(),
        };
        assert(r@ =~= repr@.reply());
        r
    }

    /// The reset with which a segment is refused.
    pub fn rst_reply(repr: &TcpRepr) -> (r: TcpRepr<'static>)
        requires
            repr.control != TcpControl::Rst,
            repr@.payload.len() < i32::MAX,
        ensures
            r@ == repr@.rst_reply(),
    {
        let mut r = TcpRepr::reply(repr);
        r.control = TcpControl::Rst;
        r.seq_number = match repr.ack_number {
            Some(ack) => ack,
            None => TcpSeqNumber(0),
        };
        if repr.control == TcpControl::Syn && repr.ack_number.is_none() {
            r.ack_number = Some(repr.seq_number + repr.segment_len());
        }
        assert(r@ =~= repr@.rst_reply());
        r
    }
}

} // verus!
