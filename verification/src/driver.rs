//! What passes between the stack and a network device.
use crate::storage::slices;
use vstd::prelude::*;

verus! {

/// What kind of frames a device carries.
#[derive(Debug, Clone, Copy, PartialEq, Eq, Structural)]
pub enum Medium {
    Ethernet,
    Ip,
    Ieee802154,
}

/// The address of a device on its medium.
#[derive(Debug, Clone, Copy, PartialEq, Eq, Structural)]
pub enum HardwareAddress {
    /// Six octets.
    Ethernet(u64),
    Ip,
    /// Eight octets.
    Ieee802154(u64),
}

#[derive(Debug, Clone, Copy, PartialEq, Eq, Structural)]
pub enum LinkState {
    Up,
    Down,
}

/// Which checksums of a protocol the stack computes and verifies; the device
/// takes care of the others.
#[derive(Debug, Clone, Copy, PartialEq, Eq, Structural)]
pub struct Checksum {
    pub rx: bool,
    pub tx: bool,
}

#[derive(Debug, Clone, Copy, PartialEq, Eq, Structural)]
pub struct ChecksumCapabilities {
    pub ipv4: Checksum,
    pub udp: Checksum,
    pub tcp: Checksum,
}

impl ChecksumCapabilities {
    /// The stack computes and verifies every checksum.
    pub open spec fn all() -> ChecksumCapabilities {
        ChecksumCapabilities {
            ipv4: Checksum { rx: true, tx: true },
            udp: Checksum { rx: true, tx: true },
            tcp: Checksum { rx: true, tx: true },
        }
    }
}

impl Default for ChecksumCapabilities {
    fn default() -> (r: ChecksumCapabilities)
        ensures
            r == ChecksumCapabilities::all(),
    {
        let both = Checksum { rx: true, tx: true };
        ChecksumCapabilities { ipv4: both, udp: both, tcp: both }
    }
}

/// What accompanies a packet between the driver and the application.
#[derive(Debug, Clone, Copy, PartialEq, Eq, Structural)]
pub struct PacketMeta {
    /// A number that tells packets apart.
    pub id: u32,
    /// Whether the instant of transmission is to be reported.
    pub request_timestamp: bool,
}

impl Default for PacketMeta {
    fn default() -> (r: PacketMeta)
        ensures
            r == (PacketMeta { id: 0, request_timestamp: false }),
    {
        PacketMeta { id: 0, request_timestamp: false }
    }
}

/// A reading of the clock of a device.
#[derive(Debug, Clone, Copy, PartialEq, Eq, Structural)]
pub struct Timestamp {
    pub seconds: u64,
    pub nanos: u32,
}

/// The instant at which a packet was transmitted.
#[derive(Debug, Clone, Copy, PartialEq, Eq, Structural)]
pub struct TxTimestamp {
    pub id: u32,
    pub timestamp: Timestamp,
}

/// A packet in a buffer, with room in front of it for further headers.
#[derive(Debug)]
pub struct PacketBuf {
    pub storage: Vec<u8>,
    pub start: usize,
    pub length: usize,
    pub meta: PacketMeta,
}

/// What a packet buffer holds.
#[verifier::ext_equal]
pub struct PacketView {
    pub storage: Seq<u8>,
    pub start: int,
    pub length: int,
    pub meta: PacketMeta,
}

impl PacketView {
    /// An empty packet in a buffer of the given size.
    pub open spec fn blank(capacity: usize) -> PacketView {
        PacketView {
            storage: Seq::new(capacity as nat, |i: int| 0u8),
            start: 0,
            length: 0,
            meta: PacketMeta { id: 0, request_timestamp: false },
        }
    }

    pub open spec fn inv(self) -> bool {
        0 <= self.start && 0 <= self.length && self.start + self.length <= self.storage.len()
    }

    /// The octets of the packet.
    pub open spec fn data(self) -> Seq<u8> {
        self.storage.subrange(self.start, self.start + self.length)
    }

    /// The buffer with the octets of the packet replaced.
    pub open spec fn with_data(self, d: Seq<u8>) -> PacketView {
        PacketView { storage: slices::splice(self.storage, self.start, d), ..self }
    }
}

impl View for PacketBuf {
    type V = PacketView;

    open spec fn view(&self) -> PacketView {
        PacketView {
            storage: self.storage@,
            start: self.start as int,
            length: self.length as int,
            meta: self.meta,
        }
    }
}

impl PacketBuf {
    pub open spec fn inv(&self) -> bool {
        self@.inv()
    }

    /// An empty packet in a buffer of the given size.
    pub fn new(capacity: usize) -> (r: PacketBuf)
        ensures
            r.inv(),
            r@ == PacketView::blank(capacity),
    {
        let storage: Vec<u8> = vec![0; capacity];
        assert(storage@ =~= Seq::new(capacity as nat, |i: int| 0u8));
        PacketBuf { storage, start: 0, length: 0, meta: PacketMeta::default() }
    }

    /// The size of the buffer.
    pub fn capacity(&self) -> (r: usize)
        ensures
            r == self@.storage.len(),
    {
        self.storage.len()
    }

    /// The length of the packet.
    pub fn len(&self) -> (r: usize)
        ensures
            r == self@.length,
    {
        self.length
    }

    /// Keeps room in front of an empty packet.
    pub fn reserve(&mut self, headroom: usize)
        requires
            old(self)@.length == 0,
            old(self)@.start + headroom <= old(self)@.storage.len(),
        ensures
            final(self).inv(),
            final(self)@ == (PacketView { start: old(self)@.start + headroom, ..old(self)@ }),
    {
        let cap: usize = self.storage.len();
        self.start = self.start + headroom;
    }

    /// Sets the length of the packet.
    pub fn set_len(&mut self, length: usize)
        requires
            old(self)@.start + length <= old(self)@.storage.len(),
        ensures
            final(self).inv(),
            final(self)@ == (PacketView { length: length as int, ..old(self)@ }),
    {
        self.length = length;
    }

    /// Adds `n` octets from the room in front of the packet.
    pub fn push_front(&mut self, n: usize)
        requires
            old(self).inv(),
            n <= old(self)@.start,
        ensures
            final(self).inv(),
            final(self)@ == (PacketView {
                start: old(self)@.start - n,
                length: old(self)@.length + n,
                ..old(self)@
            }),
    {
        let cap: usize = self.storage.len();
        self.start = self.start - n;
        self.length = self.length + n;
    }

    /// Removes `n` octets from the front of the packet.
    pub fn pull_front(&mut self, n: usize)
        requires
            old(self).inv(),
            n <= old(self)@.length,
        ensures
            final(self).inv(),
            final(self)@ == (PacketView {
                start: old(self)@.start + n,
                length: old(self)@.length - n,
                ..old(self)@
            }),
    {
        let cap: usize = self.storage.len();
        self.start = self.start + n;
        self.length = self.length - n;
    }

    /// The octets of the packet.
    pub fn bytes(&self) -> (r: &[u8])
        requires
            self.inv(),
        ensures
            r@ == self@.data(),
    {
        let cap: usize = self.storage.len();
        vstd::slice::slice_subrange(self.storage.as_slice(), self.start, self.start + self.length)
    }

    /// The octets of the packet, mutably.
    pub fn bytes_mut(&mut self) -> (r: &mut [u8])
        requires
            old(self).inv(),
        ensures
            r@ == old(self)@.data(),
            final(r)@.len() == r@.len() ==> final(self)@ == old(self)@.with_data(final(r)@),
            final(r)@.len() == r@.len() ==> final(self).inv(),
    {
        let cap: usize = self.storage.len();
        slices::part_mut(self.storage.as_mut_slice(), self.start, self.start + self.length)
    }
}

/// The room that the headers of a packet take at most, with one octet of payload.
pub const MIN_BUFFER_LEN: usize = 115;

/// A number of packet buffers of one size.
#[derive(Debug, Clone, Copy, PartialEq, Eq, Structural)]
pub struct PacketPool {
    /// How many of them are free.
    pub free: usize,
    /// The size of each.
    pub buffer_len: usize,
}

impl PacketPool {
    /// The headers of every packet fit into a buffer, and a buffer into a packet.
    pub open spec fn inv(self) -> bool {
        MIN_BUFFER_LEN <= self.buffer_len <= 65535
    }

    /// One buffer less is free.
    pub open spec fn shrunk(self) -> PacketPool {
        PacketPool { free: (self.free - 1) as usize, ..self }
    }

    /// One buffer more is free.
    pub open spec fn grown(self) -> PacketPool {
        PacketPool {
            free: if self.free == usize::MAX {
                usize::MAX
            } else {
                (self.free + 1) as usize
            },
            ..self
        }
    }

    /// Taking a buffer leaves one less, and giving one back leaves one more, as far as they
    /// can be counted.
    pub proof fn law_buffers_are_counted(self)
        ensures
            self.free > 0 ==> self.shrunk().free == self.free - 1,
            self.free < usize::MAX ==> self.grown().free == self.free + 1,
            self.shrunk().buffer_len == self.buffer_len,
            self.grown().buffer_len == self.buffer_len,
    {
    }

    /// A buffer that is taken and given back leaves the pool as it was.
    pub proof fn law_buffer_returns(self)
        requires
            self.free > 0,
        ensures
            self.shrunk().grown() == self,
    {
    }

    pub fn new(count: usize, buffer_len: usize) -> (r: PacketPool)
        ensures
            r == (PacketPool { free: count, buffer_len }),
    {
        PacketPool { free: count, buffer_len }
    }

    /// Takes a buffer, if one is free.
    pub fn try_alloc(&mut self) -> (r: Option<PacketBuf>)
        ensures
            match r {
                Some(buf) => {
                    &&& old(self).free > 0
                    &&& *final(self) == old(self).shrunk()
                    &&& buf.inv()
                    &&& buf@ == PacketView::blank(old(self).buffer_len)
                },
                None => old(self).free == 0 && *final(self) == *old(self),
            },
    {
        if self.free == 0 {
            return None;
        }
        self.free = self.free - 1;
        Some(PacketBuf::new(self.buffer_len))
    }

    /// Gives a buffer back.
    pub fn release(&mut self, buf: PacketBuf)
        ensures
            *final(self) == old(self).grown(),
    {
        self.free = self.free.saturating_add(1);
    }
}

} // verus!
