//! What a packet buffer holds, as a value, and what its operations make of it.
use super::packet_buffer::{PacketCursor, PacketHandle, PacketMetadata, PacketSelection};
use super::slices;
use super::RingView;
use vstd::prelude::*;

verus! {

/// A packet buffer that keeps its packets in order, one behind the other.
///
/// An entry without a header is not a packet: it pads the payload up to the wrap,
/// or a packet has been taken out of order and waits for the ones before it.
#[verifier::ext_equal]
pub struct RingQueue<H> {
    pub meta: Seq<PacketMetadata<H>>,
    pub meta_cap: int,
    pub payload: RingView<u8>,
    pub metadata_base: u32,
    pub next_sequence: u32,
    pub next_payload: u32,
    pub payload_base: u32,
}

/// A packet buffer that keeps each packet in a slot of its own. `fifo` gives the
/// slots in use in the order of their packets, `free` those not in use.
#[verifier::ext_equal]
pub struct SlotArena<H> {
    pub slots: Seq<PacketMetadata<H>>,
    pub fifo: Seq<u16>,
    pub free: Seq<u16>,
    pub payload: Seq<u8>,
    pub slot_size: int,
    pub next_generation: u16,
}

/// A packet buffer of either kind.
#[verifier::ext_equal]
pub enum BufferView<H> {
    Ring(RingQueue<H>),
    Slots(SlotArena<H>),
}

/// A packet, or an entry that is none.
#[verifier::ext_equal]
pub struct Packet<H> {
    pub handle: PacketHandle,
    pub header: Option<H>,
    pub payload: Seq<u8>,
    pub next_egress: Option<PacketHandle>,
}

/// What tells a packet from an entry that is none.
pub open spec fn has_header<H>() -> spec_fn(Packet<H>) -> bool {
    |p: Packet<H>| p.header is Some
}

/// `a + n`, wrapping round.
pub open spec fn add32(a: u32, n: int) -> u32 {
    if a + n > u32::MAX {
        (a + n - 0x1_0000_0000) as u32
    } else {
        (a + n) as u32
    }
}

/// The sum of a sequence of sizes.
pub open spec fn sum(s: Seq<usize>) -> int
    decreases s.len(),
{
    if s.len() == 0 {
        0
    } else {
        sum(s.drop_last()) + s.last()
    }
}

/// The sizes of the entries.
pub open spec fn sizes<H>(m: Seq<PacketMetadata<H>>) -> Seq<usize> {
    Seq::new(m.len(), |i: int| m[i].size)
}

pub proof fn lemma_sum_push(s: Seq<usize>, x: usize)
    ensures
        sum(s.push(x)) == sum(s) + x,
{
    assert(s.push(x).drop_last() =~= s);
}

pub proof fn lemma_sum_nonneg(s: Seq<usize>)
    ensures
        sum(s) >= 0,
    decreases s.len(),
{
    if s.len() > 0 {
        lemma_sum_nonneg(s.drop_last());
    }
}

/// The sum of the first elements grows with their number.
pub proof fn lemma_sum_take(s: Seq<usize>, i: int, j: int)
    requires
        0 <= i <= j <= s.len(),
    ensures
        0 <= sum(s.take(i)) <= sum(s.take(j)),
        i < j ==> sum(s.take(i)) + s[i] <= sum(s.take(j)),
        sum(s.take(s.len() as int)) == sum(s),
    decreases j - i,
{
    lemma_sum_nonneg(s.take(i));
    assert(s.take(s.len() as int) =~= s);
    if i < j {
        assert(s.take(i + 1) =~= s.take(i).push(s[i]));
        lemma_sum_push(s.take(i), s[i]);
        lemma_sum_take(s, i + 1, j);
    }
}

/// The sum without the first element.
pub proof fn lemma_sum_skip(s: Seq<usize>, i: int)
    requires
        s.len() > 0,
        0 <= i < s.len(),
    ensures
        sum(s.skip(1).take(i)) == sum(s.take(i + 1)) - s[0],
    decreases i,
{
    if i == 0 {
        assert(s.skip(1).take(0) =~= Seq::empty());
        assert(s.take(1) =~= Seq::<usize>::empty().push(s[0]));
        lemma_sum_push(Seq::empty(), s[0]);
    } else {
        lemma_sum_skip(s, i - 1);
        assert(s.skip(1).take(i) =~= s.skip(1).take(i - 1).push(s[i]));
        assert(s.take(i + 1) =~= s.take(i).push(s[i]));
        lemma_sum_push(s.skip(1).take(i - 1), s[i]);
        lemma_sum_push(s.take(i), s[i]);
    }
}

/// The sum without the element at position `p`.
pub proof fn lemma_sum_remove(s: Seq<usize>, p: int)
    requires
        0 <= p < s.len(),
    ensures
        sum(s.remove(p)) == sum(s) - s[p],
    decreases s.len(),
{
    if p == s.len() - 1 {
        assert(s.remove(p) =~= s.drop_last());
    } else {
        assert(s.remove(p).drop_last() =~= s.drop_last().remove(p));
        assert(s.remove(p).last() == s.last());
        lemma_sum_remove(s.drop_last(), p);
    }
}

impl<H> PacketMetadata<H> {
    /// An entry of `size` octets that is no packet.
    pub open spec fn spec_padding(size: usize, payload_sequence: u32) -> PacketMetadata<H> {
        PacketMetadata {
            size,
            header: None,
            payload_sequence,
            next_egress: None,
            next_slot: None,
            previous_slot: None,
        }
    }

    /// A packet.
    pub open spec fn spec_packet(size: usize, header: H, payload_sequence: u32) -> PacketMetadata<H> {
        PacketMetadata {
            size,
            header: Some(header),
            payload_sequence,
            next_egress: None,
            next_slot: None,
            previous_slot: None,
        }
    }
}

/// How a packet finds room.
pub enum Room {
    /// There is none.
    Lacking,
    /// Right behind the last one.
    Direct,
    /// At the start of the storage, once the rest of it is padded.
    Wrapped,
    /// There would be, once the rest of the storage is padded, but the padding
    /// takes the last entry.
    OnlyPadding,
}

impl<H> RingQueue<H> {
    /// A queue without packets.
    pub open spec fn initial(meta_cap: int, payload: Seq<u8>) -> RingQueue<H> {
        RingQueue {
            meta: Seq::empty(),
            meta_cap,
            payload: RingView { storage: payload, read_at: 0, length: 0 },
            metadata_base: 0,
            next_sequence: 0,
            next_payload: 0,
            payload_base: 0,
        }
    }

    /// The offset of the payload of entry `i`.
    pub open spec fn offset(self, i: int) -> int {
        sum(sizes(self.meta).take(i))
    }

    pub open spec fn inv(self) -> bool {
        &&& self.payload.inv()
        &&& self.meta.len() <= self.meta_cap <= u32::MAX
        &&& self.payload.cap() <= u32::MAX
        &&& sum(sizes(self.meta)) == self.payload.length
        &&& self.entries_inv()
        &&& self.next_payload == add32(self.payload_base, self.payload.length)
        &&& self.next_sequence == add32(self.metadata_base, self.meta.len() as int)
    }

    /// The payload of an entry is not split, and the entry knows where it starts.
    #[verifier::opaque]
    pub open spec fn entries_inv(self) -> bool {
        &&& forall|i: int|
            0 <= i < self.meta.len() ==> #[trigger] self.payload.index(self.offset(i))
                + self.meta[i].size <= self.payload.cap()
        &&& forall|i: int|
            0 <= i < self.meta.len() ==> (#[trigger] self.meta[i]).payload_sequence == add32(
                self.payload_base,
                self.offset(i),
            )
    }

    /// Entry `i`.
    pub open spec fn entry(self, i: int) -> Packet<H> {
        Packet {
            handle: PacketHandle(add32(self.metadata_base, i)),
            header: self.meta[i].header,
            payload: self.payload.data().subrange(
                self.offset(i),
                self.offset(i) + self.meta[i].size,
            ),
            next_egress: self.meta[i].next_egress,
        }
    }

    /// An empty queue moves to the start of the storage.
    pub open spec fn rewound(self) -> RingQueue<H> {
        if self.payload.length == 0 {
            RingQueue {
                payload: self.payload.cleared(),
                payload_base: self.next_payload,
                ..self
            }
        } else {
            self
        }
    }

    /// How a packet of `size` octets finds room. The payload of a packet is never
    /// split.
    pub open spec fn room(self, size: int) -> Room {
        let p = self.rewound().payload;
        if self.payload.cap() < size || self.meta.len() >= self.meta_cap || p.window() < size {
            Room::Lacking
        } else if p.contiguous_window() >= size {
            Room::Direct
        } else if p.window() - p.contiguous_window() < size {
            Room::Lacking
        } else if self.meta.len() + 1 >= self.meta_cap {
            Room::OnlyPadding
        } else {
            Room::Wrapped
        }
    }

    /// The rest of the storage is padded.
    pub open spec fn padded(self) -> RingQueue<H> {
        let n = self.payload.contiguous_window();
        RingQueue {
            meta: self.meta.push(PacketMetadata::spec_padding(n as usize, self.next_payload)),
            next_sequence: add32(self.next_sequence, 1),
            next_payload: add32(self.next_payload, n),
            payload: self.payload.grown(n),
            ..self
        }
    }

    /// The queue that a packet of `size` octets is refused by.
    pub open spec fn refused(self, size: int) -> RingQueue<H> {
        if self.payload.cap() < size || self.meta.len() >= self.meta_cap {
            self
        } else {
            match self.room(size) {
                Room::OnlyPadding => self.rewound().padded(),
                _ => self.rewound(),
            }
        }
    }

    /// The queue right before a packet of `size` octets is added.
    pub open spec fn ready(self, size: int) -> RingQueue<H> {
        match self.room(size) {
            Room::Wrapped => self.rewound().padded(),
            _ => self.rewound(),
        }
    }

    /// The octets that the next packet of `size` octets will have at first.
    pub open spec fn spare(self, size: int) -> Seq<u8> {
        let at = self.payload.index(self.payload.length);
        self.payload.storage.subrange(at, at + size)
    }

    /// The entry that a handle stands for.
    pub open spec fn handle_offset(self, handle: PacketHandle) -> int {
        if handle.0 >= self.metadata_base {
            handle.0 - self.metadata_base
        } else {
            handle.0 - self.metadata_base + 0x1_0000_0000
        }
    }

    /// The handle stands for a packet.
    pub open spec fn is_live(self, handle: PacketHandle) -> bool {
        self.handle_offset(handle) < self.meta.len() && self.meta[self.handle_offset(
            handle,
        )].header is Some
    }

    /// A packet follows another one in its egress queue.
    pub open spec fn linked(self, tail: PacketHandle, next: Option<PacketHandle>) -> RingQueue<H> {
        let i = self.handle_offset(tail);
        RingQueue {
            meta: self.meta.update(i, PacketMetadata { next_egress: next, ..self.meta[i] }),
            ..self
        }
    }

    /// A packet of `size` octets is added. Of the octets behind the queue, `content`
    /// is written, which may be more than the packet keeps.
    pub open spec fn stored(
        self,
        size: usize,
        header: H,
        previous: Option<PacketHandle>,
        content: Seq<u8>,
    ) -> RingQueue<H> {
        let q = match previous {
            Some(tail) => self.linked(tail, Some(PacketHandle(self.next_sequence))),
            None => self,
        };
        RingQueue {
            meta: q.meta.push(PacketMetadata::spec_packet(size, header, self.next_payload)),
            next_sequence: add32(self.next_sequence, 1),
            next_payload: add32(self.next_payload, size as int),
            payload: RingView {
                storage: slices::splice(
                    self.payload.storage,
                    self.payload.index(self.payload.length),
                    content,
                ),
                ..self.payload.grown(size as int)
            },
            ..self
        }
    }

    /// The first entry is removed.
    pub open spec fn popped(self) -> RingQueue<H> {
        RingQueue {
            meta: self.meta.skip(1),
            payload: self.payload.shrunk(self.meta[0].size as int),
            metadata_base: add32(self.metadata_base, 1),
            payload_base: add32(self.payload_base, self.meta[0].size as int),
            ..self
        }
    }

    /// Entries at the front that are no packets are removed.
    pub open spec fn unpadded(self) -> RingQueue<H>
        decreases self.meta.len(),
    {
        if self.meta.len() > 0 && self.meta[0].header is None {
            self.popped().unpadded()
        } else {
            self
        }
    }

    /// The number of entries at the front that are no packets.
    pub open spec fn padding_count(self) -> int
        decreases self.meta.len(),
    {
        if self.meta.len() > 0 && self.meta[0].header is None {
            1 + self.popped().padding_count()
        } else {
            0
        }
    }

    /// Header and payload of entry `i` are replaced.
    pub open spec fn touched(self, i: int, header: Option<H>, payload: Seq<u8>) -> RingQueue<H> {
        RingQueue {
            meta: self.meta.update(i, PacketMetadata { header, ..self.meta[i] }),
            payload: RingView {
                storage: slices::splice(
                    self.payload.storage,
                    self.payload.index(self.offset(i)),
                    payload,
                ),
                ..self.payload
            },
            ..self
        }
    }
}

/// Moving an empty queue keeps the invariant.
pub proof fn lemma_rewound_inv<H>(q: RingQueue<H>)
    requires
        q.inv(),
    ensures
        q.rewound().inv(),
{
    reveal(RingQueue::entries_inv);
    let r = q.rewound();
    if q.payload.length == 0 {
        assert forall|i: int| 0 <= i < r.meta.len() implies #[trigger] r.payload.index(r.offset(i))
            + r.meta[i].size <= r.payload.cap() by {
            lemma_sum_take(sizes(q.meta), i, i + 1);
            lemma_sum_take(sizes(q.meta), i + 1, q.meta.len() as int);
        }
        assert forall|i: int| 0 <= i < r.meta.len() implies (#[trigger] r.meta[i]).payload_sequence
            == add32(r.payload_base, r.offset(i)) by {
            lemma_sum_take(sizes(q.meta), i, q.meta.len() as int);
        }
    }
}

/// The offsets of the entries before one that is added.
proof fn lemma_offsets_push<H>(a: Seq<PacketMetadata<H>>, b: Seq<PacketMetadata<H>>, i: int)
    requires
        b.len() == a.len() + 1,
        forall|k: int| 0 <= k < a.len() ==> (#[trigger] a[k]).size == b[k].size,
        0 <= i <= a.len(),
    ensures
        sum(sizes(b).take(i)) == sum(sizes(a).take(i)),
        sum(sizes(b)) == sum(sizes(a)) + b.last().size,
{
    assert(sizes(b).take(i) =~= sizes(a).take(i));
    assert(sizes(b) =~= sizes(a).push(b.last().size));
    lemma_sum_push(sizes(a), b.last().size);
}

/// Adding an entry behind the queue keeps the invariant.
pub proof fn lemma_pushed_inv<H>(q: RingQueue<H>, r: RingQueue<H>, n: int)
    requires
        q.inv(),
        q.meta.len() < q.meta_cap,
        0 <= n <= q.payload.contiguous_window(),
        r.meta.len() == q.meta.len() + 1,
        forall|k: int|
            0 <= k < q.meta.len() ==> (#[trigger] q.meta[k]).size == r.meta[k].size
                && q.meta[k].payload_sequence == r.meta[k].payload_sequence,
        r.meta.last().size == n,
        r.meta.last().payload_sequence == q.next_payload,
        r.meta_cap == q.meta_cap,
        r.metadata_base == q.metadata_base,
        r.payload_base == q.payload_base,
        r.next_sequence == add32(q.next_sequence, 1),
        r.next_payload == add32(q.next_payload, n),
        r.payload.storage.len() == q.payload.storage.len(),
        r.payload.read_at == q.payload.read_at,
        r.payload.length == q.payload.length + n,
    ensures
        r.inv(),
{
    reveal(RingQueue::entries_inv);
    lemma_sum_take(sizes(q.meta), 0, q.meta.len() as int);
    assert forall|i: int| 0 <= i <= q.meta.len() implies #[trigger] r.offset(i) == q.offset(i) by {
        lemma_offsets_push(q.meta, r.meta, i);
    }
    lemma_offsets_push(q.meta, r.meta, 0);
    assert(q.offset(q.meta.len() as int) == q.payload.length);
    assert forall|i: int| 0 <= i < r.meta.len() implies #[trigger] r.payload.index(r.offset(i))
        + r.meta[i].size <= r.payload.cap() by {
        assert(r.offset(i) == q.offset(i));
        if i < q.meta.len() {
            assert(q.payload.index(q.offset(i)) + q.meta[i].size <= q.payload.cap());
        }
    }
    assert forall|i: int| 0 <= i < r.meta.len() implies (#[trigger] r.meta[i]).payload_sequence
        == add32(r.payload_base, r.offset(i)) by {
        assert(r.offset(i) == q.offset(i));
        if i < q.meta.len() {
            assert(q.meta[i].payload_sequence == add32(q.payload_base, q.offset(i)));
        }
    }
}

/// Removing the first entry keeps the invariant.
pub proof fn lemma_popped_inv<H>(q: RingQueue<H>)
    requires
        q.inv(),
        q.meta.len() > 0,
    ensures
        q.popped().inv(),
        q.meta[0].size <= q.payload.contiguous_len(),
        q.payload.read_at + q.meta[0].size <= q.payload.cap(),
{
    reveal(RingQueue::entries_inv);
    let r = q.popped();
    let n = q.meta[0].size as int;
    assert(sizes(q.meta).take(0) =~= Seq::<usize>::empty());
    assert(q.offset(0) == 0);
    assert(q.payload.index(q.offset(0)) + q.meta[0].size <= q.payload.cap());
    lemma_sum_take(sizes(q.meta), 0, q.meta.len() as int);
    assert(sizes(r.meta) =~= sizes(q.meta).skip(1));
    lemma_sum_skip(sizes(q.meta), q.meta.len() - 1);
    assert(sizes(r.meta).take(r.meta.len() as int) =~= sizes(r.meta));
    assert(sizes(q.meta).take(q.meta.len() as int) =~= sizes(q.meta));
    assert forall|i: int| 0 <= i < r.meta.len() implies r.offset(i) == q.offset(i + 1) - n by {
        lemma_sum_skip(sizes(q.meta), i);
    }
    assert forall|i: int| 0 <= i < r.meta.len() implies #[trigger] r.payload.index(r.offset(i))
        + r.meta[i].size <= r.payload.cap() by {
        assert(r.offset(i) == q.offset(i + 1) - n);
        assert(q.payload.index(q.offset(i + 1)) + q.meta[i + 1].size <= q.payload.cap());
        lemma_sum_take(sizes(q.meta), 1, i + 1);
        lemma_sum_take(sizes(q.meta), 0, 1);
        lemma_sum_take(sizes(q.meta), i + 1, q.meta.len() as int);
    }
    assert forall|i: int| 0 <= i < r.meta.len() implies (#[trigger] r.meta[i]).payload_sequence
        == add32(r.payload_base, r.offset(i)) by {
        assert(r.offset(i) == q.offset(i + 1) - n);
        assert(q.meta[i + 1].payload_sequence == add32(q.payload_base, q.offset(i + 1)));
        lemma_sum_take(sizes(q.meta), 1, i + 1);
        lemma_sum_take(sizes(q.meta), 0, 1);
        lemma_sum_take(sizes(q.meta), i + 1, q.meta.len() as int);
    }
}

/// The element at position `i`, if there is one.
pub open spec fn at(s: Seq<u16>, i: int) -> Option<u16> {
    if 0 <= i < s.len() {
        Some(s[i])
    } else {
        None
    }
}

/// The handle of the packet in a slot. The generation tells packets apart that
/// use the slot one after the other.
pub open spec fn slot_handle(generation: u16, slot: u16) -> PacketHandle {
    PacketHandle((generation * 0x1_0000 + slot) as u32)
}

/// The slot that a handle stands for.
pub open spec fn handle_slot(handle: PacketHandle) -> int {
    handle.0 as int % 0x1_0000
}

/// The generation that follows: zero is left out.
pub open spec fn next_generation(generation: u16) -> u16 {
    if generation == u16::MAX {
        1
    } else {
        (generation + 1) as u16
    }
}

/// The sizes of the packets in the given slots.
pub open spec fn slot_sizes<H>(slots: Seq<PacketMetadata<H>>, order: Seq<u16>) -> Seq<usize> {
    Seq::new(order.len(), |i: int| slots[order[i] as int].size)
}

impl<H> SlotArena<H> {
    pub open spec fn inv(self) -> bool {
        &&& self.slots.len() <= u16::MAX
        &&& 0 <= self.slot_size
        &&& self.slots.len() * self.slot_size <= self.payload.len()
        &&& self.payload.len() <= usize::MAX
        &&& self.fifo.len() + self.free.len() == self.slots.len()
        &&& self.fifo.no_duplicates()
        &&& self.free.no_duplicates()
        &&& forall|i: int, j: int|
            0 <= i < self.fifo.len() && 0 <= j < self.free.len() ==> #[trigger] self.fifo[i]
                != #[trigger] self.free[j]
        &&& forall|i: int| 0 <= i < self.fifo.len() ==> #[trigger] self.packet_at(i)
        &&& forall|i: int| 0 <= i < self.free.len() ==> #[trigger] self.free_at(i)
    }

    /// Position `i` of the order holds a packet, which knows its neighbors.
    pub open spec fn packet_at(self, i: int) -> bool {
        let slot = self.fifo[i];
        let m = self.slots[slot as int];
        &&& slot < self.slots.len()
        &&& m.header is Some
        &&& m.size <= self.slot_size
        &&& m.next_slot == at(self.fifo, i + 1)
        &&& m.previous_slot == at(self.fifo, i - 1)
        &&& handle_slot(PacketHandle(m.payload_sequence)) == slot
    }

    /// Position `i` of the free slots holds none, and leads to the next one.
    pub open spec fn free_at(self, i: int) -> bool {
        let slot = self.free[i];
        &&& slot < self.slots.len()
        &&& self.slots[slot as int].header is None
        &&& self.slots[slot as int].next_slot == at(self.free, i + 1)
    }

    /// The number of octets in use.
    pub open spec fn payload_bytes(self) -> int {
        sum(slot_sizes(self.slots, self.fifo))
    }

    /// The packet at position `i` of the order.
    pub open spec fn entry(self, i: int) -> Packet<H> {
        let slot = self.fifo[i] as int;
        Packet {
            handle: PacketHandle(self.slots[slot].payload_sequence),
            header: self.slots[slot].header,
            payload: self.payload.subrange(
                slot * self.slot_size,
                slot * self.slot_size + self.slots[slot].size,
            ),
            next_egress: self.slots[slot].next_egress,
        }
    }

    /// The handle stands for a packet.
    pub open spec fn is_live(self, handle: PacketHandle) -> bool {
        let slot = handle_slot(handle);
        &&& slot < self.slots.len()
        &&& self.slots[slot].header is Some
        &&& self.slots[slot].payload_sequence == handle.0
    }

    /// The octets that the next packet of `size` octets will have at first.
    pub open spec fn spare(self, size: int) -> Seq<u8> {
        let from = self.free[0] * self.slot_size;
        self.payload.subrange(from, from + size)
    }

    /// The handle of the next packet.
    pub open spec fn next_handle(self) -> PacketHandle {
        slot_handle(self.next_generation, self.free[0])
    }

    /// The slots after the first free one has been given to a packet.
    pub open spec fn slots_claimed(self, size: usize, header: H) -> Seq<PacketMetadata<H>> {
        let slot = self.free[0];
        let s = self.slots.update(
            slot as int,
            PacketMetadata {
                size,
                header: Some(header),
                payload_sequence: self.next_handle().0,
                next_egress: None,
                next_slot: None,
                previous_slot: at(self.fifo, self.fifo.len() - 1),
            },
        );
        if self.fifo.len() > 0 {
            let tail = self.fifo.last() as int;
            s.update(tail, PacketMetadata { next_slot: Some(slot), ..s[tail] })
        } else {
            s
        }
    }

    /// A packet is added in the first free slot.
    pub open spec fn claimed(self, size: usize, header: H) -> SlotArena<H> {
        SlotArena {
            slots: self.slots_claimed(size, header),
            fifo: self.fifo.push(self.free[0]),
            free: self.free.skip(1),
            next_generation: next_generation(self.next_generation),
            ..self
        }
    }

    /// A packet follows another one in its egress queue.
    pub open spec fn linked(self, tail: PacketHandle, next: Option<PacketHandle>) -> SlotArena<H> {
        let i = handle_slot(tail);
        SlotArena {
            slots: self.slots.update(
                i,
                PacketMetadata { next_egress: next, ..self.slots[i] },
            ),
            ..self
        }
    }

    /// A packet of `size` octets is added. In its slot `content` is written, which
    /// may be more than the packet keeps.
    pub open spec fn stored(
        self,
        size: usize,
        header: H,
        previous: Option<PacketHandle>,
        content: Seq<u8>,
    ) -> SlotArena<H> {
        let a = self.claimed(size, header);
        let a = match previous {
            Some(tail) => a.linked(tail, Some(self.next_handle())),
            None => a,
        };
        SlotArena {
            payload: slices::splice(self.payload, self.free[0] * self.slot_size, content),
            ..a
        }
    }

    /// Header and payload of the packet in a slot are replaced.
    pub open spec fn touched(self, slot: int, header: Option<H>, payload: Seq<u8>) -> SlotArena<H> {
        SlotArena {
            slots: self.slots.update(slot, PacketMetadata { header, ..self.slots[slot] }),
            payload: slices::splice(self.payload, slot * self.slot_size, payload),
            ..self
        }
    }

    /// The slots after the one at position `p` of the order has been freed.
    pub open spec fn slots_released(self, p: int) -> Seq<PacketMetadata<H>> {
        let slot = self.fifo[p] as int;
        let s = if p > 0 {
            let prev = self.fifo[p - 1] as int;
            self.slots.update(
                prev,
                PacketMetadata { next_slot: at(self.fifo, p + 1), ..self.slots[prev] },
            )
        } else {
            self.slots
        };
        let s = if p + 1 < self.fifo.len() {
            let next = self.fifo[p + 1] as int;
            s.update(next, PacketMetadata { previous_slot: at(self.fifo, p - 1), ..s[next] })
        } else {
            s
        };
        s.update(
            slot,
            PacketMetadata { next_slot: at(self.free, 0), ..PacketMetadata::spec_padding(0, 0) },
        )
    }

    /// The packet at position `p` of the order is removed.
    pub open spec fn released(self, p: int) -> SlotArena<H> {
        SlotArena {
            slots: self.slots_released(p),
            fifo: self.fifo.remove(p),
            free: seq![self.fifo[p]] + self.free,
            ..self
        }
    }

    /// The position of a slot in the order.
    pub open spec fn position(self, slot: int) -> int {
        self.fifo.index_of(slot as u16)
    }
}

/// A slot that holds a packet is in the order.
pub proof fn lemma_live_slot_position<H>(a: SlotArena<H>, slot: int)
    requires
        a.inv(),
        0 <= slot < a.slots.len(),
        a.slots[slot].header is Some,
    ensures
        0 <= a.position(slot) < a.fifo.len(),
        a.fifo[a.position(slot)] == slot,
{
    // Every slot is in one of the two lists, since together they are as many.
    let all = a.fifo + a.free;
    assert(all.no_duplicates()) by {
        assert forall|i: int, j: int| 0 <= i < all.len() && 0 <= j < all.len() && i != j implies
            all[i] != all[j] by {
            if i < a.fifo.len() && j >= a.fifo.len() {
                assert(a.fifo[i] != a.free[j - a.fifo.len()]);
            } else if i >= a.fifo.len() && j < a.fifo.len() {
                assert(a.fifo[j] != a.free[i - a.fifo.len()]);
            } else if i < a.fifo.len() {
            } else {
                assert(a.free[i - a.fifo.len()] != a.free[j - a.fifo.len()]);
            }
        }
    }
    all.unique_seq_to_set();
    let range = Set::new(|x: u16| x < a.slots.len());
    lemma_range_len(a.slots.len());
    assert(all.to_set().subset_of(range)) by {
        assert forall|x: u16| all.to_set().contains(x) implies range.contains(x) by {
            let i = choose|i: int| 0 <= i < all.len() && all[i] == x;
            if i < a.fifo.len() {
                assert(a.packet_at(i));
            } else {
                assert(a.free_at(i - a.fifo.len()));
            }
        }
    }
    vstd::set_lib::lemma_subset_equality(all.to_set(), range);
    assert(range.contains(slot as u16));
    assert(all.contains(slot as u16));
    let i = choose|i: int| 0 <= i < all.len() && all[i] == slot as u16;
    if i >= a.fifo.len() {
        assert(a.free_at(i - a.fifo.len()));
    } else {
        assert(a.fifo.contains(slot as u16));
    }
}

proof fn lemma_range_len(n: nat)
    requires
        n <= u16::MAX,
    ensures
        Set::new(|x: u16| x < n).finite(),
        Set::new(|x: u16| x < n).len() == n,
    decreases n,
{
    let s = Set::new(|x: u16| x < n);
    if n == 0 {
        assert(s =~= Set::<u16>::empty());
    } else {
        lemma_range_len((n - 1) as nat);
        let t = Set::new(|x: u16| x < n - 1);
        assert(s =~= t.insert((n - 1) as u16));
    }
}

/// A handle leads back to its slot.
pub proof fn lemma_handle_slot(generation: u16, slot: u16)
    ensures
        handle_slot(slot_handle(generation, slot)) == slot,
        slot_handle(generation, slot).0 == generation * 0x1_0000 + slot,
{
}

/// Adding a packet keeps the invariant.
pub proof fn lemma_claimed_inv<H>(a: SlotArena<H>, size: usize, header: H)
    requires
        a.inv(),
        a.free.len() > 0,
        size <= a.slot_size,
    ensures
        a.claimed(size, header).inv(),
        a.claimed(size, header).payload_bytes() == a.payload_bytes() + size,
        a.free[0] < a.slots.len(),
        a.fifo.len() > 0 ==> a.fifo.last() < a.slots.len() && a.fifo.last() != a.free[0],
{
    let r = a.claimed(size, header);
    let slot = a.free[0];
    assert(a.free_at(0));
    lemma_handle_slot(a.next_generation, slot);
    if a.fifo.len() > 0 {
        assert(a.packet_at(a.fifo.len() - 1));
        assert(a.fifo[a.fifo.len() - 1] != a.free[0]);
    }
    assert forall|i: int| 0 <= i < r.fifo.len() implies #[trigger] r.packet_at(i) by {
        if i < a.fifo.len() {
            assert(a.packet_at(i));
            assert(a.fifo[i] != a.free[0]);
            if i < a.fifo.len() - 1 {
                assert(a.fifo[i] != a.fifo[a.fifo.len() - 1]);
            }
        }
    }
    assert forall|i: int| 0 <= i < r.free.len() implies #[trigger] r.free_at(i) by {
        assert(a.free_at(i + 1));
        assert(a.free[i + 1] != a.free[0]);
        if a.fifo.len() > 0 {
            assert(a.fifo[a.fifo.len() - 1] != a.free[i + 1]);
        }
    }
    assert forall|i: int, j: int| 0 <= i < r.fifo.len() && 0 <= j < r.free.len() implies
        #[trigger] r.fifo[i] != #[trigger] r.free[j] by {
        assert(r.free[j] == a.free[j + 1]);
        if i < a.fifo.len() {
            assert(a.fifo[i] != a.free[j + 1]);
        }
    }
    assert(r.fifo.no_duplicates()) by {
        assert forall|i: int, j: int| 0 <= i < r.fifo.len() && 0 <= j < r.fifo.len() && i
            != j implies r.fifo[i] != r.fifo[j] by {
            if i < a.fifo.len() && j < a.fifo.len() {
            } else if i < a.fifo.len() {
                assert(a.fifo[i] != a.free[0]);
            } else {
                assert(a.fifo[j] != a.free[0]);
            }
        }
    }
    assert(slot_sizes(r.slots, r.fifo) =~= slot_sizes(a.slots, a.fifo).push(size)) by {
        assert forall|i: int| 0 <= i < a.fifo.len() implies slot_sizes(r.slots, r.fifo)[i]
            == slot_sizes(a.slots, a.fifo)[i] by {
            assert(a.packet_at(i));
            assert(a.fifo[i] != a.free[0]);
        }
    }
    lemma_sum_push(slot_sizes(a.slots, a.fifo), size);
}

/// Replacing what does not concern the order keeps the invariant.
pub proof fn lemma_slot_changed_inv<H>(a: SlotArena<H>, b: SlotArena<H>, slot: int)
    requires
        a.inv(),
        0 <= slot < a.slots.len(),
        b.slots == a.slots.update(slot, b.slots[slot]),
        a.slots[slot].header is Some <==> b.slots[slot].header is Some,
        b.slots[slot].size == a.slots[slot].size,
        b.slots[slot].next_slot == a.slots[slot].next_slot,
        b.slots[slot].previous_slot == a.slots[slot].previous_slot,
        b.slots[slot].payload_sequence == a.slots[slot].payload_sequence,
        b.fifo == a.fifo,
        b.free == a.free,
        b.payload.len() == a.payload.len(),
        b.slot_size == a.slot_size,
    ensures
        b.inv(),
        b.payload_bytes() == a.payload_bytes(),
{
    assert forall|i: int| 0 <= i < b.fifo.len() implies #[trigger] b.packet_at(i) by {
        assert(a.packet_at(i));
    }
    assert forall|i: int| 0 <= i < b.free.len() implies #[trigger] b.free_at(i) by {
        assert(a.free_at(i));
    }
    assert(slot_sizes(b.slots, b.fifo) =~= slot_sizes(a.slots, a.fifo)) by {
        assert forall|i: int| 0 <= i < a.fifo.len() implies slot_sizes(b.slots, b.fifo)[i]
            == slot_sizes(a.slots, a.fifo)[i] by {
            assert(a.packet_at(i));
        }
    }
}

/// The size of a packet may be reduced.
pub proof fn lemma_slot_shrunk_inv<H>(a: SlotArena<H>, p: int, size: usize)
    requires
        a.inv(),
        0 <= p < a.fifo.len(),
        size <= a.slots[a.fifo[p] as int].size,
    ensures
        ({
            let slot = a.fifo[p] as int;
            let b = SlotArena {
                slots: a.slots.update(slot, PacketMetadata { size, ..a.slots[slot] }),
                ..a
            };
            &&& b.inv()
            &&& b.payload_bytes() == a.payload_bytes() - a.slots[slot].size + size
            &&& b.payload_bytes() >= 0
        }),
{
    let slot = a.fifo[p] as int;
    let b = SlotArena {
        slots: a.slots.update(slot, PacketMetadata { size, ..a.slots[slot] }),
        ..a
    };
    assert(a.packet_at(p));
    assert forall|i: int| 0 <= i < b.fifo.len() implies #[trigger] b.packet_at(i) by {
        assert(a.packet_at(i));
    }
    assert forall|i: int| 0 <= i < b.free.len() implies #[trigger] b.free_at(i) by {
        assert(a.free_at(i));
    }
    let s = slot_sizes(a.slots, a.fifo);
    let t = slot_sizes(b.slots, b.fifo);
    assert(t.remove(p) =~= s.remove(p)) by {
        assert forall|i: int| 0 <= i < s.len() && i != p implies s[i] == t[i] by {
            assert(a.packet_at(i));
            assert(a.fifo[i] != a.fifo[p]);
        }
    }
    lemma_sum_remove(s, p);
    lemma_sum_remove(t, p);
    lemma_sum_nonneg(t);
}

/// Removing a packet keeps the invariant.
pub proof fn lemma_released_inv<H>(a: SlotArena<H>, p: int)
    requires
        a.inv(),
        0 <= p < a.fifo.len(),
    ensures
        a.released(p).inv(),
        a.released(p).payload_bytes() == a.payload_bytes() - a.slots[a.fifo[p] as int].size,
        a.payload_bytes() >= a.slots[a.fifo[p] as int].size,
{
    let r = a.released(p);
    let slot = a.fifo[p];
    assert(a.packet_at(p));
    if p > 0 {
        assert(a.packet_at(p - 1));
        assert(a.fifo[p - 1] != a.fifo[p]);
    }
    if p + 1 < a.fifo.len() {
        assert(a.packet_at(p + 1));
        assert(a.fifo[p + 1] != a.fifo[p]);
        if p > 0 {
            assert(a.fifo[p + 1] != a.fifo[p - 1]);
        }
    }
    assert forall|i: int| 0 <= i < r.fifo.len() implies #[trigger] r.packet_at(i) by {
        let j = if i < p {
            i
        } else {
            i + 1
        };
        assert(r.fifo[i] == a.fifo[j]);
        assert(a.packet_at(j));
        assert(a.fifo[j] != a.fifo[p]);
        if p > 0 && j != p - 1 {
            assert(a.fifo[j] != a.fifo[p - 1]);
        }
        if p + 1 < a.fifo.len() && j != p + 1 {
            assert(a.fifo[j] != a.fifo[p + 1]);
        }
    }
    assert forall|i: int| 0 <= i < r.free.len() implies #[trigger] r.free_at(i) by {
        if i > 0 {
            assert(a.free_at(i - 1));
            assert(a.fifo[p] != a.free[i - 1]);
            if p > 0 {
                assert(a.fifo[p - 1] != a.free[i - 1]);
            }
            if p + 1 < a.fifo.len() {
                assert(a.fifo[p + 1] != a.free[i - 1]);
            }
        }
    }
    assert forall|i: int, j: int| 0 <= i < r.fifo.len() && 0 <= j < r.free.len() implies
        #[trigger] r.fifo[i] != #[trigger] r.free[j] by {
        let k = if i < p {
            i
        } else {
            i + 1
        };
        assert(r.fifo[i] == a.fifo[k]);
        if j > 0 {
            assert(a.fifo[k] != a.free[j - 1]);
        } else {
            assert(a.fifo[k] != a.fifo[p]);
        }
    }
    assert(r.fifo.no_duplicates()) by {
        assert forall|i: int, j: int| 0 <= i < r.fifo.len() && 0 <= j < r.fifo.len() && i
            != j implies r.fifo[i] != r.fifo[j] by {
            let k = if i < p {
                i
            } else {
                i + 1
            };
            let l = if j < p {
                j
            } else {
                j + 1
            };
            assert(a.fifo[k] != a.fifo[l]);
        }
    }
    assert(r.free.no_duplicates()) by {
        assert forall|i: int, j: int| 0 <= i < r.free.len() && 0 <= j < r.free.len() && i
            != j implies r.free[i] != r.free[j] by {
            if i > 0 && j > 0 {
                assert(a.free[i - 1] != a.free[j - 1]);
            } else if i > 0 {
                assert(a.fifo[p] != a.free[i - 1]);
            } else {
                assert(a.fifo[p] != a.free[j - 1]);
            }
        }
    }
    let s = slot_sizes(a.slots, a.fifo);
    assert(slot_sizes(r.slots, r.fifo) =~= s.remove(p)) by {
        assert forall|i: int| 0 <= i < r.fifo.len() implies slot_sizes(r.slots, r.fifo)[i]
            == s.remove(p)[i] by {
            let j = if i < p {
                i
            } else {
                i + 1
            };
            assert(a.packet_at(j));
            assert(a.fifo[j] != a.fifo[p]);
        }
    }
    lemma_sum_remove(s, p);
    lemma_sum_nonneg(s.remove(p));
}

impl<H> SlotArena<H> {
    /// Slots none of which is in use.
    pub open spec fn initial(
        count: nat,
        payload: Seq<u8>,
        slot_size: int,
        next_generation: u16,
    ) -> SlotArena<H> {
        SlotArena {
            slots: Seq::new(
                count,
                |i: int|
                    PacketMetadata {
                        next_slot: if i + 1 < count {
                            Some((i + 1) as u16)
                        } else {
                            None
                        },
                        ..PacketMetadata::spec_padding(0, 0)
                    },
            ),
            fifo: Seq::empty(),
            free: Seq::new(count, |i: int| i as u16),
            payload,
            slot_size,
            next_generation,
        }
    }
}

impl<H> BufferView<H> {
    pub open spec fn inv(self) -> bool {
        match self {
            BufferView::Ring(q) => q.inv(),
            BufferView::Slots(a) => a.inv(),
        }
    }

    /// The number of entries.
    pub open spec fn count(self) -> int {
        match self {
            BufferView::Ring(q) => q.meta.len() as int,
            BufferView::Slots(a) => a.fifo.len() as int,
        }
    }

    /// Entry `i`, from the oldest on.
    pub open spec fn entry(self, i: int) -> Packet<H> {
        match self {
            BufferView::Ring(q) => q.entry(i),
            BufferView::Slots(a) => a.entry(i),
        }
    }

    /// The packets, from the oldest on.
    pub open spec fn packets(self) -> Seq<Packet<H>> {
        self.entries().filter(has_header())
    }

    /// The entries, from the oldest on.
    pub open spec fn entries(self) -> Seq<Packet<H>> {
        Seq::new(self.count() as nat, |i: int| self.entry(i))
    }

    /// The number of packets that there is room for.
    pub open spec fn packet_capacity(self) -> int {
        match self {
            BufferView::Ring(q) => q.meta_cap,
            BufferView::Slots(a) => a.slots.len() as int,
        }
    }

    /// The number of octets that there is room for.
    pub open spec fn payload_capacity(self) -> int {
        match self {
            BufferView::Ring(q) => q.payload.cap(),
            BufferView::Slots(a) => a.slots.len() * a.slot_size,
        }
    }

    /// The number of octets in use.
    pub open spec fn payload_bytes(self) -> int {
        match self {
            BufferView::Ring(q) => q.payload.length,
            BufferView::Slots(a) => a.payload_bytes(),
        }
    }

    /// There is room for a packet of `size` octets.
    pub open spec fn fits(self, size: int) -> bool {
        match self {
            BufferView::Ring(q) => q.room(size) is Direct || q.room(size) is Wrapped,
            BufferView::Slots(a) => size <= a.slot_size && a.free.len() > 0,
        }
    }

    /// The buffer right before a packet of `size` octets is added.
    pub open spec fn ready(self, size: int) -> BufferView<H> {
        match self {
            BufferView::Ring(q) => BufferView::Ring(q.ready(size)),
            BufferView::Slots(_) => self,
        }
    }

    /// The buffer that a packet of `size` octets is refused by.
    pub open spec fn refused(self, size: int) -> BufferView<H> {
        match self {
            BufferView::Ring(q) => BufferView::Ring(q.refused(size)),
            BufferView::Slots(_) => self,
        }
    }

    /// A packet of `size` octets is refused for want of a second entry, the first
    /// one being used to pad the storage.
    pub open spec fn only_pads(self, size: int) -> bool {
        match self {
            BufferView::Ring(q) => q.room(size) is OnlyPadding,
            BufferView::Slots(_) => false,
        }
    }

    /// The handle of the next packet.
    pub open spec fn next_handle(self) -> PacketHandle {
        match self {
            BufferView::Ring(q) => PacketHandle(q.next_sequence),
            BufferView::Slots(a) => a.next_handle(),
        }
    }

    /// The octets that the next packet of `size` octets will have at first.
    pub open spec fn spare(self, size: int) -> Seq<u8> {
        match self {
            BufferView::Ring(q) => q.spare(size),
            BufferView::Slots(a) => a.spare(size),
        }
    }

    /// A packet of `size` octets is added.
    pub open spec fn stored(
        self,
        size: usize,
        header: H,
        previous: Option<PacketHandle>,
        content: Seq<u8>,
    ) -> BufferView<H> {
        match self {
            BufferView::Ring(q) => BufferView::Ring(q.stored(size, header, previous, content)),
            BufferView::Slots(a) => BufferView::Slots(a.stored(size, header, previous, content)),
        }
    }

    /// The handle stands for a packet.
    pub open spec fn is_live(self, handle: PacketHandle) -> bool {
        match self {
            BufferView::Ring(q) => q.is_live(handle),
            BufferView::Slots(a) => a.is_live(handle),
        }
    }

    /// The entry that the handle of a packet stands for.
    pub open spec fn handle_entry(self, handle: PacketHandle) -> int {
        match self {
            BufferView::Ring(q) => q.handle_offset(handle),
            BufferView::Slots(a) => a.position(handle_slot(handle)),
        }
    }

    /// The header of the packet that the handle stands for.
    pub open spec fn header(self, handle: PacketHandle) -> Option<H> {
        match self {
            BufferView::Ring(q) => q.meta[q.handle_offset(handle)].header,
            BufferView::Slots(a) => a.slots[handle_slot(handle)].header,
        }
    }

    /// The packet that follows the one that the handle stands for in its egress
    /// queue.
    pub open spec fn next_egress(self, handle: PacketHandle) -> Option<PacketHandle> {
        match self {
            BufferView::Ring(q) => q.meta[q.handle_offset(handle)].next_egress,
            BufferView::Slots(a) => a.slots[handle_slot(handle)].next_egress,
        }
    }

    /// A packet that another one can be made to follow in its egress queue.
    pub open spec fn is_tail(self, handle: PacketHandle) -> bool {
        self.is_live(handle) && self.next_egress(handle) is None
    }

    /// A packet follows another one in its egress queue.
    pub open spec fn linked(self, tail: PacketHandle, next: Option<PacketHandle>) -> BufferView<H> {
        match self {
            BufferView::Ring(q) => BufferView::Ring(q.linked(tail, next)),
            BufferView::Slots(a) => BufferView::Slots(a.linked(tail, next)),
        }
    }

    /// Entries at the front that are no packets are removed.
    pub open spec fn unpadded(self) -> BufferView<H> {
        match self {
            BufferView::Ring(q) => BufferView::Ring(q.unpadded()),
            BufferView::Slots(_) => self,
        }
    }

    /// Header and payload of entry `i` are replaced.
    pub open spec fn touched(self, i: int, header: H, payload: Seq<u8>) -> BufferView<H> {
        match self {
            BufferView::Ring(q) => BufferView::Ring(q.touched(i, Some(header), payload)),
            BufferView::Slots(a) => BufferView::Slots(
                a.touched(a.fifo[i] as int, Some(header), payload),
            ),
        }
    }

    /// The first entry is removed.
    pub open spec fn popped(self) -> BufferView<H> {
        match self {
            BufferView::Ring(q) => BufferView::Ring(q.popped()),
            BufferView::Slots(a) => BufferView::Slots(a.released(0)),
        }
    }

    /// Packet `i` is removed. In a ring, its entry stays until all those before it
    /// have gone.
    pub open spec fn removed(self, i: int) -> BufferView<H> {
        match self {
            BufferView::Ring(q) => BufferView::Ring(q.emptied(i).unpadded()),
            BufferView::Slots(a) => BufferView::Slots(a.released(i)),
        }
    }

    /// Every packet is removed.
    pub open spec fn emptied(self) -> BufferView<H> {
        match self {
            BufferView::Ring(q) => BufferView::Ring(
                RingQueue {
                    meta: Seq::empty(),
                    payload: q.payload.cleared(),
                    metadata_base: q.next_sequence,
                    payload_base: q.next_payload,
                    ..q
                },
            ),
            BufferView::Slots(a) => BufferView::Slots(
                SlotArena::initial(a.slots.len(), a.payload, a.slot_size, a.next_generation),
            ),
        }
    }

    /// Every packet is taken out of its egress queue.
    pub open spec fn unlinked(self) -> BufferView<H> {
        match self {
            BufferView::Ring(q) => BufferView::Ring(q.unlinked_to(q.meta.len() as int)),
            BufferView::Slots(a) => BufferView::Slots(a.unlinked_to(a.fifo.len() as int)),
        }
    }

    /// The number of entries at the front that are no packets.
    pub open spec fn padding_count(self) -> int {
        match self {
            BufferView::Ring(q) => q.padding_count(),
            BufferView::Slots(_) => 0,
        }
    }

    /// What is handed out for packet `i` before it is removed.
    pub open spec fn selection(self, i: int) -> PacketSelection {
        match self {
            BufferView::Ring(q) => PacketSelection {
                metadata_offset: i as usize,
                payload_offset: q.offset(i) as usize,
                payload_size: q.meta[i].size,
            },
            BufferView::Slots(a) => PacketSelection {
                metadata_offset: a.fifo[i] as usize,
                payload_offset: (a.fifo[i] * a.slot_size) as usize,
                payload_size: a.slots[a.fifo[i] as int].size,
            },
        }
    }

    /// The selection is that of a packet.
    pub open spec fn selects(self, selection: PacketSelection) -> bool {
        match self {
            BufferView::Ring(q) => {
                let i = selection.metadata_offset as int;
                &&& i < q.meta.len()
                &&& q.meta[i].header is Some
                &&& selection == self.selection(i)
            },
            BufferView::Slots(a) => {
                let slot = selection.metadata_offset as int;
                &&& slot < a.slots.len()
                &&& a.slots[slot].header is Some
                &&& selection.payload_size == a.slots[slot].size
            },
        }
    }

    /// The packet that has been selected.
    pub open spec fn selected(self, selection: PacketSelection) -> int {
        match self {
            BufferView::Ring(q) => selection.metadata_offset as int,
            BufferView::Slots(a) => a.position(selection.metadata_offset as int),
        }
    }

    /// The position from which the search goes on: the packet itself as long as it
    /// stays, else the entry behind it, after all that are no packets have left the
    /// front.
    pub open spec fn resumed(self, selection: PacketSelection, done: bool) -> PacketCursor {
        match self {
            BufferView::Ring(q) => {
                let i = selection.metadata_offset as int;
                if done {
                    let r = q.emptied(i);
                    PacketCursor {
                        metadata_offset: if r.padding_count() <= i {
                            (i + 1 - r.padding_count()) as usize
                        } else {
                            0
                        },
                        payload_offset: if r.padding_count() <= i {
                            r.unpadded().offset(i + 1 - r.padding_count()) as usize
                        } else {
                            0
                        },
                    }
                } else {
                    PacketCursor {
                        metadata_offset: i as usize,
                        payload_offset: q.offset(i) as usize,
                    }
                }
            },
            BufferView::Slots(_) => PacketCursor { metadata_offset: 0, payload_offset: 0 },
        }
    }

    /// The entry at which a search from a position starts.
    pub open spec fn search_start(self, cursor: PacketCursor) -> int {
        match self {
            BufferView::Ring(_) => cursor.metadata_offset as int,
            BufferView::Slots(_) => 0,
        }
    }

    /// The position before entry `i`.
    pub open spec fn cursor(self, i: int) -> PacketCursor {
        match self {
            BufferView::Ring(q) => PacketCursor {
                metadata_offset: i as usize,
                payload_offset: q.offset(i) as usize,
            },
            BufferView::Slots(_) => PacketCursor { metadata_offset: 0, payload_offset: 0 },
        }
    }
}

impl<H> RingQueue<H> {
    /// Packet `i` becomes an entry that is none.
    pub open spec fn emptied(self, i: int) -> RingQueue<H> {
        RingQueue {
            meta: self.meta.update(i, PacketMetadata { header: None, ..self.meta[i] }),
            ..self
        }
    }
}

/// Replacing what does not concern sizes and positions keeps the invariant.
pub proof fn lemma_entry_changed_inv<H>(q: RingQueue<H>, r: RingQueue<H>)
    requires
        q.inv(),
        r.meta.len() == q.meta.len(),
        forall|k: int|
            0 <= k < q.meta.len() ==> (#[trigger] q.meta[k]).size == r.meta[k].size
                && q.meta[k].payload_sequence == r.meta[k].payload_sequence,
        r.meta_cap == q.meta_cap,
        r.metadata_base == q.metadata_base,
        r.payload_base == q.payload_base,
        r.next_sequence == q.next_sequence,
        r.next_payload == q.next_payload,
        r.payload.storage.len() == q.payload.storage.len(),
        r.payload.read_at == q.payload.read_at,
        r.payload.length == q.payload.length,
    ensures
        r.inv(),
        forall|i: int| 0 <= i <= q.meta.len() ==> #[trigger] r.offset(i) == q.offset(i),
{
    reveal(RingQueue::entries_inv);
    assert(sizes(r.meta) =~= sizes(q.meta));
    assert forall|i: int| 0 <= i < r.meta.len() implies #[trigger] r.payload.index(r.offset(i))
        + r.meta[i].size <= r.payload.cap() by {
        assert(q.payload.index(q.offset(i)) + q.meta[i].size <= q.payload.cap());
    }
    assert forall|i: int| 0 <= i < r.meta.len() implies (#[trigger] r.meta[i]).payload_sequence
        == add32(r.payload_base, r.offset(i)) by {
        assert(q.meta[i].payload_sequence == add32(q.payload_base, q.offset(i)));
    }
}

/// The payload of an entry lies in the queue, in one piece.
pub proof fn lemma_entry_bounds<H>(q: RingQueue<H>, i: int)
    requires
        q.inv(),
        0 <= i < q.meta.len(),
    ensures
        0 <= q.offset(i),
        q.offset(i) + q.meta[i].size <= q.payload.length,
        q.payload.index(q.offset(i)) + q.meta[i].size <= q.payload.cap(),
        q.offset(i + 1) == q.offset(i) + q.meta[i].size,
        q.payload.allocated_len(q.offset(i), q.meta[i].size as int) == q.meta[i].size,
        q.meta[i].payload_sequence == add32(q.payload_base, q.offset(i)),
{
    reveal(RingQueue::entries_inv);
    lemma_sum_take(sizes(q.meta), i, i + 1);
    lemma_sum_take(sizes(q.meta), i + 1, q.meta.len() as int);
    assert(sizes(q.meta).take(i + 1) =~= sizes(q.meta).take(i).push(q.meta[i].size));
    lemma_sum_push(sizes(q.meta).take(i), q.meta[i].size);
}

/// The octets of a slot lie in the storage.
pub proof fn lemma_slot_bounds<H>(a: SlotArena<H>, slot: int)
    requires
        a.inv(),
        0 <= slot < a.slots.len(),
    ensures
        0 <= slot * a.slot_size,
        slot * a.slot_size + a.slot_size <= a.payload.len(),
{
    let n = a.slots.len() as int;
    let z = a.slot_size;
    assert(0 <= slot * z && slot * z + z <= n * z) by (nonlinear_arith)
        requires
            0 <= slot < n,
            0 <= z,
    ;
}

/// The packets in use fit into the storage.
pub proof fn lemma_payload_bytes_bound<H>(a: SlotArena<H>)
    requires
        a.inv(),
    ensures
        0 <= a.payload_bytes() <= a.fifo.len() * a.slot_size <= a.payload.len(),
{
    let n = a.slots.len() as int;
    let f = a.fifo.len() as int;
    let z = a.slot_size;
    assert forall|i: int| 0 <= i < f implies (#[trigger] slot_sizes(a.slots, a.fifo)[i]) <= z by {
        assert(a.packet_at(i));
    }
    lemma_sum_bound(slot_sizes(a.slots, a.fifo), z);
    assert(f * z <= n * z) by (nonlinear_arith)
        requires
            f <= n,
            0 <= z,
    ;
}

proof fn lemma_sum_bound(s: Seq<usize>, z: int)
    requires
        forall|i: int| 0 <= i < s.len() ==> (#[trigger] s[i]) <= z,
    ensures
        0 <= sum(s) <= s.len() * z,
    decreases s.len(),
{
    if s.len() > 0 {
        let n = s.len() as int;
        lemma_sum_bound(s.drop_last(), z);
        assert((n - 1) * z + z == n * z) by (nonlinear_arith);
    }
}

/// Writing octets keeps the invariant.
pub proof fn lemma_payload_changed_inv<H>(a: SlotArena<H>, b: SlotArena<H>)
    requires
        a.inv(),
        b == (SlotArena { payload: b.payload, ..a }),
        b.payload.len() == a.payload.len(),
    ensures
        b.inv(),
        b.payload_bytes() == a.payload_bytes(),
{
    assert forall|i: int| 0 <= i < b.fifo.len() implies #[trigger] b.packet_at(i) by {
        assert(a.packet_at(i));
    }
    assert forall|i: int| 0 <= i < b.free.len() implies #[trigger] b.free_at(i) by {
        assert(a.free_at(i));
    }
}

/// Without what is no packet at the front, the first entry is a packet.
pub proof fn lemma_unpadded_front<H>(q: RingQueue<H>)
    requires
        q.inv(),
    ensures
        q.unpadded().inv(),
        q.unpadded().meta.len() > 0 ==> q.unpadded().meta[0].header is Some,
    decreases q.meta.len(),
{
    if q.meta.len() > 0 && q.meta[0].header is None {
        lemma_popped_inv(q);
        lemma_unpadded_front(q.popped());
    }
}

/// What is written over octets of the storage stays there while entries at the front
/// are removed.
pub proof fn lemma_unpadded_storage<H>(q: RingQueue<H>, r: RingQueue<H>, storage: Seq<u8>)
    requires
        q.inv(),
        storage.len() == q.payload.storage.len(),
        r == (RingQueue { payload: RingView { storage, ..q.payload }, ..q }),
    ensures
        r.unpadded() == (RingQueue {
            payload: RingView { storage, ..q.unpadded().payload },
            ..q.unpadded()
        }),
    decreases q.meta.len(),
{
    if q.meta.len() > 0 && q.meta[0].header is None {
        lemma_popped_inv(q);
        lemma_unpadded_storage(q.popped(), r.popped(), storage);
    }
}

/// Writing over the octets of the first entry and removing it.
pub proof fn lemma_touched_popped<H>(q: RingQueue<H>, c: Seq<u8>)
    requires
        q.inv(),
        q.meta.len() > 0,
        c.len() == q.meta[0].size,
    ensures
        ({
            let t = q.touched(0, q.meta[0].header, c);
            &&& t.popped().inv()
            &&& t.popped() == (RingQueue {
                payload: RingView {
                    storage: slices::splice(q.payload.storage, q.payload.read_at, c),
                    ..q.popped().payload
                },
                ..q.popped()
            })
            &&& t.popped().unpadded().inv()
            &&& t.popped().unpadded() == (RingQueue {
                payload: RingView {
                    storage: slices::splice(q.payload.storage, q.payload.read_at, c),
                    ..q.popped().unpadded().payload
                },
                ..q.popped().unpadded()
            })
        }),
{
    let t = q.touched(0, q.meta[0].header, c);
    lemma_entry_changed_inv(q, t);
    lemma_popped_inv(t);
    lemma_popped_inv(q);
    assert(sizes(q.meta).take(0) =~= Seq::<usize>::empty());
    assert(t.meta =~= q.meta);
    assert(q.payload.index(0) == q.payload.read_at || q.meta[0].size == 0);
    if q.meta[0].size == 0 {
        assert(t.payload.storage =~= q.payload.storage);
        assert(slices::splice(q.payload.storage, q.payload.read_at, c) =~= q.payload.storage);
    }
    lemma_unpadded_storage(
        q.popped(),
        t.popped(),
        slices::splice(q.payload.storage, q.payload.read_at, c),
    );
    lemma_unpadded_front(t.popped());
}

/// Writing over the octets of a packet and removing it.
pub proof fn lemma_touched_released<H>(a: SlotArena<H>, p: int, c: Seq<u8>)
    requires
        a.inv(),
        0 <= p < a.fifo.len(),
    ensures
        ({
            let slot = a.fifo[p] as int;
            let t = a.touched(slot, a.slots[slot].header, c);
            &&& t.released(p).inv()
            &&& t.released(p).payload_bytes() == a.released(p).payload_bytes()
            &&& t.released(p) == (SlotArena {
                payload: slices::splice(a.payload, slot * a.slot_size, c),
                ..a.released(p)
            })
        }),
{
    let slot = a.fifo[p] as int;
    let t = a.touched(slot, a.slots[slot].header, c);
    assert(a.packet_at(p));
    assert(t.slots =~= a.slots);
    lemma_payload_changed_inv(a, t);
    lemma_released_inv(a, p);
    lemma_released_inv(t, p);
}

/// Removing what is no packet at the front moves every entry behind it forward.
pub proof fn lemma_unpadded_shift<H>(q: RingQueue<H>)
    requires
        q.inv(),
    ensures
        0 <= q.padding_count() <= q.meta.len(),
        q.unpadded().meta == q.meta.skip(q.padding_count()),
        q.payload.length - q.unpadded().payload.length == q.offset(q.padding_count()),
        forall|i: int|
            0 <= i <= q.unpadded().meta.len() ==> #[trigger] q.unpadded().offset(i) == q.offset(
                i + q.padding_count(),
            ) - q.offset(q.padding_count()),
    decreases q.meta.len(),
{
    if q.meta.len() > 0 && q.meta[0].header is None {
        let r = q.popped();
        lemma_popped_inv(q);
        lemma_unpadded_shift(r);
        assert(sizes(r.meta) =~= sizes(q.meta).skip(1));
        assert forall|i: int| 0 <= i <= r.meta.len() implies #[trigger] r.offset(i) == q.offset(
            i + 1,
        ) - q.meta[0].size by {
            lemma_sum_skip(sizes(q.meta), i);
        }
        assert(q.meta.skip(q.padding_count()) =~= r.meta.skip(r.padding_count()));
        assert forall|i: int| 0 <= i <= q.unpadded().meta.len() implies #[trigger] q.unpadded()
            .offset(i) == q.offset(i + q.padding_count()) - q.offset(q.padding_count()) by {
            assert(r.offset(i + r.padding_count()) == q.offset(i + r.padding_count() + 1)
                - q.meta[0].size);
        }
    } else {
        assert(q.meta.skip(0) =~= q.meta);
        assert(sizes(q.meta).take(0) =~= Seq::<usize>::empty());
    }
}

proof fn lemma_padding_count_meta<H>(a: RingQueue<H>, b: RingQueue<H>)
    requires
        a.meta == b.meta,
    ensures
        a.padding_count() == b.padding_count(),
        a.unpadded().meta == b.unpadded().meta,
    decreases a.meta.len(),
{
    if a.meta.len() > 0 && a.meta[0].header is None {
        lemma_padding_count_meta(a.popped(), b.popped());
    }
}

/// What leaves the front depends on the entries alone.
pub proof fn lemma_unpadded_meta<H>(a: RingQueue<H>, b: RingQueue<H>)
    requires
        a.inv(),
        b.inv(),
        a.meta == b.meta,
    ensures
        a.padding_count() == b.padding_count(),
        a.payload.length - a.unpadded().payload.length == b.payload.length
            - b.unpadded().payload.length,
{
    lemma_padding_count_meta(a, b);
    lemma_unpadded_shift(a);
    lemma_unpadded_shift(b);
}

/// Where a search goes on once packet `i` has been removed.
pub proof fn lemma_reclaimed<H>(q: RingQueue<H>, i: int)
    requires
        q.inv(),
        0 <= i < q.meta.len(),
    ensures
        ({
            let r = q.emptied(i);
            let n = r.padding_count();
            let bytes = r.payload.length - r.unpadded().payload.length;
            let behind = q.offset(i) + q.meta[i].size;
            &&& 0 <= n <= q.meta.len()
            &&& n <= i ==> r.unpadded().offset(i + 1 - n) == behind - bytes
            &&& n <= i ==> 0 <= behind - bytes
            &&& n > i ==> bytes >= behind
        }),
{
    let r = q.emptied(i);
    lemma_entry_changed_inv(q, r);
    lemma_unpadded_shift(r);
    lemma_entry_bounds(q, i);
    let n = r.padding_count();
    assert(r.offset(n) == q.offset(n));
    assert(r.offset(i + 1) == q.offset(i + 1));
    if n <= i {
        lemma_sum_take(sizes(q.meta), n, i + 1);
        assert(r.unpadded().offset(i + 1 - n) == r.offset(i + 1) - r.offset(n));
    } else {
        lemma_sum_take(sizes(q.meta), i + 1, n);
    }
}

/// What is handed out for a packet leads back to it.
pub proof fn lemma_selected<H>(v: BufferView<H>, i: int)
    requires
        v.inv(),
        0 <= i < v.count(),
        v.entry(i).header is Some,
    ensures
        v.selects(v.selection(i)),
        v.selected(v.selection(i)) == i,
{
    match v {
        BufferView::Ring(q) => {},
        BufferView::Slots(a) => {
            assert(a.packet_at(i));
            let slot = a.fifo[i] as int;
            lemma_live_slot_position(a, slot);
            assert(a.fifo[a.position(slot)] == a.fifo[i]);
        },
    }
}

impl<H> RingQueue<H> {
    /// The first `n` packets are taken out of their egress queues.
    pub open spec fn unlinked_to(self, n: int) -> RingQueue<H> {
        RingQueue {
            meta: Seq::new(
                self.meta.len(),
                |i: int|
                    if i < n {
                        PacketMetadata { next_egress: None, ..self.meta[i] }
                    } else {
                        self.meta[i]
                    },
            ),
            ..self
        }
    }
}

impl<H> SlotArena<H> {
    /// The first `n` packets are taken out of their egress queues.
    pub open spec fn unlinked_to(self, n: int) -> SlotArena<H> {
        SlotArena {
            slots: Seq::new(
                self.slots.len(),
                |i: int|
                    if self.fifo.take(n).contains(i as u16) {
                        PacketMetadata { next_egress: None, ..self.slots[i] }
                    } else {
                        self.slots[i]
                    },
            ),
            ..self
        }
    }
}

pub proof fn lemma_unlinked_step<H>(a: SlotArena<H>, k: int)
    requires
        a.inv(),
        0 <= k < a.fifo.len(),
    ensures
        ({
            let b = a.unlinked_to(k).slots;
            let slot = a.fifo[k] as int;
            a.unlinked_to(k + 1).slots == b.update(
                slot,
                PacketMetadata { next_egress: None, ..b[slot] },
            )
        }),
{
    let b = a.unlinked_to(k).slots;
    let slot = a.fifo[k] as int;
    let c = b.update(slot, PacketMetadata { next_egress: None, ..b[slot] });
    assert(a.packet_at(k));
    assert(a.fifo.take(k + 1) =~= a.fifo.take(k).push(a.fifo[k]));
    assert forall|i: int| 0 <= i < a.slots.len() implies a.unlinked_to(k + 1).slots[i] == c[i] by {
        let x = i as u16;
        assert(a.fifo.take(k + 1).contains(x) <==> a.fifo.take(k).contains(x) || x == a.fifo[k])
            by {
            if a.fifo.take(k).contains(x) {
                let j = choose|j: int| 0 <= j < k && a.fifo.take(k)[j] == x;
                assert(a.fifo.take(k + 1)[j] == x);
            }
            if x == a.fifo[k] {
                assert(a.fifo.take(k + 1)[k] == x);
            }
            let t = a.fifo.take(k + 1);
            if t.contains(x) {
                let j = choose|j: int| 0 <= j < t.len() && t[j] == x;
                if j < k {
                    assert(a.fifo.take(k)[j] == x);
                }
            }
        }
    }
    assert(a.unlinked_to(k + 1).slots =~= c);
}

/// Equal parts of `total` for `count`; nothing for nobody.
pub open spec fn even_share(total: int, count: int) -> int {
    if count == 0 {
        0
    } else {
        total / count
    }
}

pub proof fn lemma_even_share(total: int, count: int)
    requires
        0 <= total,
        0 <= count,
    ensures
        0 <= even_share(total, count),
        count * even_share(total, count) <= total,
{
    if count > 0 {
        assert(0 <= total / count && count * (total / count) <= total) by (nonlinear_arith)
            requires
                0 <= total,
                0 < count,
        ;
    }
}

/// Slots none of which is in use are in order.
pub proof fn lemma_initial_inv<H>(a: SlotArena<H>)
    requires
        a == SlotArena::<H>::initial(a.slots.len(), a.payload, a.slot_size, a.next_generation),
        a.slots.len() <= u16::MAX,
        0 <= a.slot_size,
        a.slots.len() * a.slot_size <= a.payload.len(),
        a.payload.len() <= usize::MAX,
    ensures
        a.inv(),
        a.payload_bytes() == 0,
{
    assert forall|i: int| 0 <= i < a.free.len() implies #[trigger] a.free_at(i) by {}
}

impl<H> BufferView<H> {
    /// Each of the first `n` packets follows the one that `outs` gives for it.
    pub open spec fn relinked(self, outs: Seq<Option<PacketHandle>>, n: int) -> BufferView<H>
        decreases n,
    {
        if n <= 0 {
            self
        } else {
            let v = self.relinked(outs, n - 1);
            match outs[n - 1] {
                Some(tail) => v.linked(tail, Some(self.entry(n - 1).handle)),
                None => v,
            }
        }
    }

    /// No packet is in an egress queue.
    pub open spec fn no_links(self) -> bool {
        forall|p: PacketHandle| #[trigger] self.is_live(p) ==> self.next_egress(p) is None
    }
}

/// Taking every packet out of its egress queue leaves the packets as they are.
pub proof fn lemma_unlinked<H>(v: BufferView<H>)
    requires
        v.inv(),
    ensures
        v.unlinked().no_links(),
        v.unlinked().count() == v.count(),
        forall|p: PacketHandle| #[trigger] v.unlinked().is_live(p) == v.is_live(p),
        forall|i: int|
            0 <= i < v.count() ==> (#[trigger] v.unlinked().entry(i)).header == v.entry(i).header
                && v.unlinked().entry(i).handle == v.entry(i).handle
                && v.unlinked().entry(i).payload == v.entry(i).payload,
{
    let u = v.unlinked();
    match v {
        BufferView::Ring(q) => {
            assert(sizes(u->Ring_0.meta) =~= sizes(q.meta));
        },
        BufferView::Slots(a) => {
            let b = u->Slots_0;
            assert(a.fifo.take(a.fifo.len() as int) =~= a.fifo);
            assert forall|p: PacketHandle| #[trigger] u.is_live(p) implies u.next_egress(
                p,
            ) is None by {
                let slot = handle_slot(p);
                lemma_live_slot_position(a, slot);
                assert(a.fifo.contains(slot as u16));
            }
            assert forall|i: int| 0 <= i < v.count() implies (#[trigger] u.entry(i)).header
                == v.entry(i).header && u.entry(i).handle == v.entry(i).handle && u.entry(i).payload
                == v.entry(i).payload by {
                assert(a.packet_at(i));
            }
        },
    }
}

/// Two handles of packets that stand for the same entry are the same.
proof fn lemma_handles_differ<H>(v: BufferView<H>, p: PacketHandle, t: PacketHandle, n: PacketHandle)
    requires
        v.is_live(p),
        v.is_live(t),
    ensures
        v.linked(t, Some(n)).is_live(p),
        p != t ==> v.linked(t, Some(n)).next_egress(p) == v.next_egress(p),
        v.linked(t, Some(n)).count() == v.count(),
{
}

/// Linking packets leaves them as they are otherwise. A packet that none has been made
/// to follow is still the last one of its queue.
pub proof fn lemma_relinked<H>(u: BufferView<H>, outs: Seq<Option<PacketHandle>>, n: int)
    requires
        u.inv(),
        u.no_links(),
        0 <= n <= u.count(),
        n <= outs.len(),
        forall|j: int|
            0 <= j < n ==> (#[trigger] outs[j] matches Some(t) ==> u.is_live(t)),
    ensures
        ({
            let v = u.relinked(outs, n);
            &&& v.count() == u.count()
            &&& v is Ring <==> u is Ring
            &&& v is Slots ==> v->Slots_0.fifo == u->Slots_0.fifo
            &&& v is Slots ==> v->Slots_0.slots.len() == u->Slots_0.slots.len()
            &&& v is Ring ==> v->Ring_0.metadata_base == u->Ring_0.metadata_base
            &&& forall|p: PacketHandle| #[trigger] v.is_live(p) == u.is_live(p)
            &&& forall|i: int|
                0 <= i < u.count() ==> (#[trigger] v.entry(i)).header == u.entry(i).header
                    && v.entry(i).handle == u.entry(i).handle
            &&& forall|p: PacketHandle| #[trigger]
                u.is_live(p) && (forall|j: int| 0 <= j < n ==> #[trigger] outs[j] != Some(p))
                    ==> v.next_egress(p) is None
        }),
    decreases n,
{
    if n > 0 {
        lemma_relinked(u, outs, n - 1);
        let v = u.relinked(outs, n - 1);
        let w = u.relinked(outs, n);
        match outs[n - 1] {
            Some(t) => {
                let h = u.entry(n - 1).handle;
                assert(v.is_live(t));
                assert forall|p: PacketHandle| #[trigger] w.is_live(p) == u.is_live(p) by {
                    assert(v.is_live(p) == u.is_live(p));
                }
                assert forall|i: int| 0 <= i < u.count() implies (#[trigger] w.entry(i)).header
                    == u.entry(i).header && w.entry(i).handle == u.entry(i).handle by {
                    assert(v.entry(i).header == u.entry(i).header);
                    assert(u matches BufferView::Slots(a) ==> a.packet_at(i));
                    lemma_linked_entry(v, t, Some(h), i);
                }
                assert forall|p: PacketHandle|
                    #[trigger] u.is_live(p) && (forall|j: int|
                        0 <= j < n ==> #[trigger] outs[j] != Some(p)) implies w.next_egress(
                    p,
                ) is None by {
                    assert(outs[n - 1] != Some(p));
                    assert(v.is_live(p));
                    lemma_handles_differ(v, p, t, h);
                }
            },
            None => {},
        }
    }
}

/// Linking a packet changes nothing else of any entry.
pub proof fn lemma_linked_entry<H>(
    v: BufferView<H>,
    t: PacketHandle,
    next: Option<PacketHandle>,
    i: int,
)
    requires
        v.is_live(t),
        0 <= i < v.count(),
        v is Slots ==> v->Slots_0.fifo[i] < v->Slots_0.slots.len(),
    ensures
        v.linked(t, next).entry(i).header == v.entry(i).header,
        v.linked(t, next).entry(i).handle == v.entry(i).handle,
        v.linked(t, next).entry(i).payload == v.entry(i).payload,
        v.linked(t, next).count() == v.count(),
{
    match v {
        BufferView::Ring(q) => {
            let r = v.linked(t, next)->Ring_0;
            assert(sizes(r.meta) =~= sizes(q.meta));
        },
        BufferView::Slots(a) => {},
    }
}

/// What the first packets follow depends on what is given for them alone.
pub proof fn lemma_relinked_prefix<H>(
    u: BufferView<H>,
    a: Seq<Option<PacketHandle>>,
    b: Seq<Option<PacketHandle>>,
    n: int,
)
    requires
        0 <= n,
        forall|j: int| 0 <= j < n ==> #[trigger] a[j] == b[j],
    ensures
        u.relinked(a, n) == u.relinked(b, n),
    decreases n,
{
    if n > 0 {
        lemma_relinked_prefix(u, a, b, n - 1);
        assert(a[n - 1] == b[n - 1]);
    }
}

} // verus!
