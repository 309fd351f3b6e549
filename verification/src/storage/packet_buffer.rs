//! Queues of packets with a header each.
use super::packet_model;
use super::packet_model::{BufferView, RingQueue, SlotArena};
use super::slices;
use super::{Empty, Full, RingBuffer, RingView};
use managed::ManagedSlice;
use vstd::prelude::*;

verus! {

/// Stable identity of one packet while it remains in the buffer. It survives the
/// removal of older packets, and is invalid once its packet is removed.
#[derive(Debug, Clone, Copy, PartialEq, Eq, Structural)]
pub struct PacketHandle(pub u32);

/// Size and header of a packet.
#[derive(Debug, Clone, Copy)]
pub struct PacketMetadata<H> {
    pub size: usize,
    pub header: Option<H>,
    pub payload_sequence: u32,
    pub next_egress: Option<PacketHandle>,
    pub next_slot: Option<u16>,
    pub previous_slot: Option<u16>,
}

impl<H> PacketMetadata<H> {
    /// Empty packet description.
    pub fn empty() -> (r: PacketMetadata<H>)
        ensures
            r == PacketMetadata::<H>::spec_padding(0, 0),
    {
        PacketMetadata::padding(0, 0)
    }

    fn padding(size: usize, payload_sequence: u32) -> (r: PacketMetadata<H>)
        ensures
            r == PacketMetadata::<H>::spec_padding(size, payload_sequence),
    {
        PacketMetadata {
            size,
            header: None,
            payload_sequence,
            next_egress: None,
            next_slot: None,
            previous_slot: None,
        }
    }

    fn packet(size: usize, header: H, payload_sequence: u32) -> (r: PacketMetadata<H>)
        ensures
            r == PacketMetadata::spec_packet(size, header, payload_sequence),
    {
        PacketMetadata {
            size,
            header: Some(header),
            payload_sequence,
            next_egress: None,
            next_slot: None,
            previous_slot: None,
        }
    }
}

/// A packet that has been chosen, and stays where it is until it is removed.
#[derive(Debug, Clone, Copy, PartialEq, Eq, Structural)]
pub struct PacketSelection {
    pub metadata_offset: usize,
    pub payload_offset: usize,
    pub payload_size: usize,
}

/// A position from which the search for a packet goes on.
#[derive(Debug, Clone, Copy, PartialEq, Eq, Structural)]
pub struct PacketCursor {
    pub metadata_offset: usize,
    pub payload_offset: usize,
}

impl Default for PacketCursor {
    fn default() -> (r: PacketCursor)
        ensures
            r == (PacketCursor { metadata_offset: 0, payload_offset: 0 }),
    {
        PacketCursor { metadata_offset: 0, payload_offset: 0 }
    }
}

/// Slots with equal parts of the payload storage, linked into the order of their
/// packets and into a list of free ones.
pub struct IndexedSlots {
    pub free_head: Option<u16>,
    pub fifo_head: Option<u16>,
    pub fifo_tail: Option<u16>,
    pub live: usize,
    pub payload_bytes: usize,
    pub slot_size: usize,
    pub next_generation: u16,
    /// The order of the packets.
    pub fifo: Ghost<Seq<u16>>,
    /// The order of the free slots.
    pub free: Ghost<Seq<u16>>,
}

/// How the payload is kept.
///
/// The ring is compact. Slots trade unused octets behind short packets for the
/// immediate use of whatever is removed out of order.
pub enum PacketStorage {
    Ring,
    IndexedSlots(IndexedSlots),
}

/// A packet buffer.
#[verifier::reject_recursive_types(H)]
pub struct PacketBuffer<'a, H> {
    pub metadata_ring: RingBuffer<'a, PacketMetadata<H>>,
    pub payload_ring: RingBuffer<'a, u8>,
    pub storage: PacketStorage,
    pub metadata_base_sequence: u32,
    pub next_sequence: u32,
    pub next_payload_sequence: u32,
    pub payload_base_sequence: u32,
}

impl<'a, H> View for PacketBuffer<'a, H> {
    type V = BufferView<H>;

    open spec fn view(&self) -> BufferView<H> {
        match self.storage {
            PacketStorage::Ring => BufferView::Ring(self.queue()),
            PacketStorage::IndexedSlots(s) => BufferView::Slots(self.arena(s)),
        }
    }
}

impl<'a, H> PacketBuffer<'a, H> {
    /// The contents of a ring.
    pub open spec fn queue(&self) -> RingQueue<H> {
        RingQueue {
            meta: self.metadata_ring@.data(),
            meta_cap: self.metadata_ring@.cap(),
            payload: self.payload_ring@,
            metadata_base: self.metadata_base_sequence,
            next_sequence: self.next_sequence,
            next_payload: self.next_payload_sequence,
            payload_base: self.payload_base_sequence,
        }
    }

    /// The contents of slots.
    pub open spec fn arena(&self, s: IndexedSlots) -> SlotArena<H> {
        SlotArena {
            slots: self.metadata_ring@.storage,
            fifo: s.fifo@,
            free: s.free@,
            payload: self.payload_ring@.storage,
            slot_size: s.slot_size as int,
            next_generation: s.next_generation,
        }
    }

    pub open spec fn inv(&self) -> bool {
        match self.storage {
            PacketStorage::Ring => self.metadata_ring.inv() && self.queue().inv(),
            PacketStorage::IndexedSlots(s) => {
                let a = self.arena(s);
                &&& a.inv()
                &&& s.free_head == packet_model::at(a.free, 0)
                &&& s.fifo_head == packet_model::at(a.fifo, 0)
                &&& s.fifo_tail == packet_model::at(a.fifo, a.fifo.len() - 1)
                &&& s.live == a.fifo.len()
                &&& s.payload_bytes == a.payload_bytes()
            },
        }
    }

    /// An empty packet buffer. The metadata storage limits the number of packets,
    /// and the payload storage their total size.
    pub fn new(
        metadata_storage: ManagedSlice<'a, PacketMetadata<H>>,
        payload_storage: ManagedSlice<'a, u8>,
    ) -> (r: PacketBuffer<'a, H>)
        requires
            slices::contents(metadata_storage).len() <= u32::MAX,
            slices::contents(payload_storage).len() <= u32::MAX,
        ensures
            r.inv(),
            r@ == BufferView::Ring(
                RingQueue::<H>::initial(
                    slices::contents(metadata_storage).len() as int,
                    slices::contents(payload_storage),
                ),
            ),
    {
        let r = PacketBuffer {
            metadata_ring: RingBuffer::new(metadata_storage),
            payload_ring: RingBuffer::new(payload_storage),
            storage: PacketStorage::Ring,
            metadata_base_sequence: 0,
            next_sequence: 0,
            next_payload_sequence: 0,
            payload_base_sequence: 0,
        };
        proof {
            reveal(RingQueue::entries_inv);
            assert(r.queue().meta =~= Seq::<PacketMetadata<H>>::empty());
        }
        r
    }

    /// Makes room behind the queue for the payload of a packet, which may use up the
    /// last entry. `false` if there is no room.
    fn make_room(&mut self, size: usize) -> (r: bool)
        requires
            old(self).inv(),
            old(self).storage is Ring,
        ensures
            final(self).inv(),
            final(self).storage is Ring,
            r == !(old(self).queue().room(size as int) is Lacking),
            final(self).queue() == if old(self)@.fits(size as int) {
                old(self).queue().ready(size as int)
            } else {
                old(self).queue().refused(size as int)
            },
            r ==> (old(self)@.only_pads(size as int) <==> final(self).queue().meta.len()
                == final(self).queue().meta_cap),
            r ==> final(self).queue().payload.contiguous_window() >= size,
            r ==> final(self).queue().payload.length == 0
                ==> final(self).queue().payload.read_at == 0,
    {
        let ghost q = self.queue();
        if self.payload_ring.capacity() < size || self.metadata_ring.is_full() {
            return false;
        }
        proof {
            packet_model::lemma_rewound_inv(q);
        }
        if self.payload_ring.is_empty() {
            self.payload_ring.clear();
            self.payload_base_sequence = self.next_payload_sequence;
        }
        let ghost w = self.queue();
        assert(w =~= q.rewound());
        let window: usize = self.payload_ring.window();
        let contig: usize = self.payload_ring.contiguous_window();
        if window < size {
            return false;
        }
        if contig < size {
            if window - contig < size {
                // Neither the rest of the storage nor its start is large enough.
                return false;
            }
            let sequence: u32 = self.next_payload_sequence;
            let entry = PacketMetadata::padding(contig, sequence);
            self.push_entry(entry);
            self.next_sequence = self.next_sequence.wrapping_add(1);
            self.next_payload_sequence = self.next_payload_sequence.wrapping_add(contig as u32);
            self.payload_ring.enqueue_unallocated(contig);
            proof {
                assert(self.queue() =~= w.padded());
                packet_model::lemma_pushed_inv(w, self.queue(), contig as int);
            }
        }
        true
    }

    /// Adds an entry, leaving everything else to the caller.
    fn push_entry(&mut self, entry: PacketMetadata<H>)
        requires
            old(self).metadata_ring.inv(),
            old(self).metadata_ring@.window() > 0,
        ensures
            final(self).metadata_ring.inv(),
            final(self).metadata_ring@.cap() == old(self).metadata_ring@.cap(),
            final(self).metadata_ring@.data() == old(self).metadata_ring@.data().push(entry),
            final(self).metadata_ring@.length == old(self).metadata_ring@.length + 1,
            final(self).payload_ring == old(self).payload_ring,
            final(self).storage == old(self).storage,
            final(self).metadata_base_sequence == old(self).metadata_base_sequence,
            final(self).next_sequence == old(self).next_sequence,
            final(self).next_payload_sequence == old(self).next_payload_sequence,
            final(self).payload_base_sequence == old(self).payload_base_sequence,
    {
        proof {
            self.metadata_ring@.lemma_push_data(entry);
        }
        match self.metadata_ring.enqueue_one() {
            Ok(slot) => {
                *slot = entry;
            },
            Err(_) => {},
        }
    }
}

impl<'a, H> PacketBuffer<'a, H> {
    /// The slot that a handle stands for.
    fn indexed_slot_from_handle(handle: PacketHandle) -> (r: usize)
        ensures
            r == packet_model::handle_slot(handle),
    {
        (handle.0 % 0x1_0000) as usize
    }

    /// The position of the entry of a handle, if it is still allocated.
    fn handle_offset(&self, handle: PacketHandle) -> (r: Option<usize>)
        requires
            self.inv(),
        ensures
            match self@ {
                BufferView::Ring(q) => r == if q.handle_offset(handle) < q.meta.len() {
                    Some(q.handle_offset(handle) as usize)
                } else {
                    None
                },
                BufferView::Slots(a) => r == if a.is_live(handle) {
                    Some(packet_model::handle_slot(handle) as usize)
                } else {
                    None
                },
            },
    {
        match &self.storage {
            PacketStorage::Ring => {
                let offset: u32 = handle.0.wrapping_sub(self.metadata_base_sequence);
                let length: usize = self.metadata_ring.len();
                if (offset as usize) < length {
                    Some(offset as usize)
                } else {
                    None
                }
            },
            PacketStorage::IndexedSlots(_) => {
                let index: usize = Self::indexed_slot_from_handle(handle);
                match self.metadata_ring.slot(index) {
                    Some(m) => if m.header.is_some() && m.payload_sequence == handle.0 {
                        Some(index)
                    } else {
                        None
                    },
                    None => None,
                }
            },
        }
    }

    /// Lets the packet `next` follow the packet `tail` in its egress queue.
    fn set_next_egress(&mut self, tail: PacketHandle, next: Option<PacketHandle>)
        requires
            old(self).inv(),
            old(self)@.is_live(tail),
        ensures
            final(self).inv(),
            final(self)@ == old(self)@.linked(tail, next),
    {
        let ghost v = self@;
        match self.handle_offset(tail) {
            Some(offset) => match &self.storage {
                PacketStorage::Ring => {
                    let entry = self.metadata_ring.get_mut(offset);
                    entry.next_egress = next;
                    proof {
                        assert(self.queue() =~= v->Ring_0.linked(tail, next));
                        packet_model::lemma_entry_changed_inv(v->Ring_0, self.queue());
                    }
                },
                PacketStorage::IndexedSlots(s) => {
                    let entry = self.metadata_ring.slot_mut(offset);
                    entry.next_egress = next;
                    proof {
                        let a = v->Slots_0;
                        assert(self.arena(*s) =~= a.linked(tail, next));
                        packet_model::lemma_slot_changed_inv(a, self.arena(*s), offset as int);
                    }
                },
            },
            None => {},
        }
    }

    /// Gives the first free slot to a packet of `size` octets.
    fn claim_slot(&mut self, size: usize, header: H) -> (r: PacketHandle)
        requires
            old(self).inv(),
            old(self)@ is Slots,
            old(self)@.fits(size as int),
        ensures
            final(self).inv(),
            final(self)@ == BufferView::Slots(old(self)@->Slots_0.claimed(size, header)),
            r == old(self)@.next_handle(),
    {
        let ghost a = self@->Slots_0;
        proof {
            packet_model::lemma_claimed_inv(a, size, header);
            packet_model::lemma_payload_bytes_bound(a);
            packet_model::lemma_payload_bytes_bound(a.claimed(size, header));
            assert(a.free_at(0));
        }
        match &mut self.storage {
            PacketStorage::Ring => PacketHandle(0),
            PacketStorage::IndexedSlots(s) => {
                let slot: u16 = match s.free_head {
                    Some(slot) => slot,
                    None => 0,
                };
                let generation: u16 = s.next_generation;
                let handle = PacketHandle(generation as u32 * 0x1_0000 + slot as u32);
                let entry = self.metadata_ring.slot_mut(slot as usize);
                s.free_head = entry.next_slot;
                s.next_generation = if generation == u16::MAX {
                    1
                } else {
                    generation + 1
                };
                let previous = s.fifo_tail;
                *entry = PacketMetadata {
                    size,
                    header: Some(header),
                    payload_sequence: handle.0,
                    next_egress: None,
                    next_slot: None,
                    previous_slot: previous,
                };
                match previous {
                    Some(tail) => {
                        let entry = self.metadata_ring.slot_mut(tail as usize);
                        entry.next_slot = Some(slot);
                    },
                    None => {
                        s.fifo_head = Some(slot);
                    },
                }
                s.fifo_tail = Some(slot);
                s.live = s.live + 1;
                s.payload_bytes = s.payload_bytes + size;
                s.fifo = Ghost(s.fifo@.push(slot));
                s.free = Ghost(s.free@.skip(1));
                proof {
                    assert(self.arena(*s) =~= a.claimed(size, header));
                }
                handle
            },
        }
    }
}

impl<'a, H> PacketBuffer<'a, H> {
    /// Frees the slot of the packet at position `p` of the order, and returns the
    /// header of the packet.
    fn release_indexed_slot(&mut self, index: usize, Ghost(p): Ghost<int>) -> (r: Option<H>)
        requires
            old(self).inv(),
            old(self)@ is Slots,
            0 <= p < old(self)@->Slots_0.fifo.len(),
            old(self)@->Slots_0.fifo[p] == index,
        ensures
            final(self).inv(),
            final(self)@ == BufferView::Slots(old(self)@->Slots_0.released(p)),
            r == old(self)@.entry(p).header,
    {
        let ghost a = self@->Slots_0;
        proof {
            packet_model::lemma_released_inv(a, p);
            assert(a.packet_at(p));
            if p > 0 {
                assert(a.packet_at(p - 1));
            }
            if p + 1 < a.fifo.len() {
                assert(a.packet_at(p + 1));
            }
        }
        match &mut self.storage {
            PacketStorage::Ring => None,
            PacketStorage::IndexedSlots(s) => {
                let entry = self.metadata_ring.slot_mut(index);
                let previous_slot = entry.previous_slot;
                let next_slot = entry.next_slot;
                let size: usize = entry.size;
                match previous_slot {
                    Some(previous) => {
                        let entry = self.metadata_ring.slot_mut(previous as usize);
                        entry.next_slot = next_slot;
                    },
                    None => {
                        s.fifo_head = next_slot;
                    },
                }
                match next_slot {
                    Some(next) => {
                        let entry = self.metadata_ring.slot_mut(next as usize);
                        entry.previous_slot = previous_slot;
                    },
                    None => {
                        s.fifo_tail = previous_slot;
                    },
                }
                let entry = self.metadata_ring.slot_mut(index);
                let header = entry.header.take();
                *entry = PacketMetadata::empty();
                entry.next_slot = s.free_head;
                s.free_head = Some(index as u16);
                s.live = s.live - 1;
                s.payload_bytes = s.payload_bytes - size;
                s.fifo = Ghost(s.fifo@.remove(p));
                s.free = Ghost(seq![index as u16] + s.free@);
                proof {
                    assert(self.arena(*s) =~= a.released(p));
                }
                header
            },
        }
    }

    /// Query whether the buffer is empty.
    pub fn is_empty(&self) -> (r: bool)
        requires
            self.inv(),
        ensures
            r == (self@.count() == 0),
    {
        match &self.storage {
            PacketStorage::Ring => self.metadata_ring.is_empty(),
            PacketStorage::IndexedSlots(s) => s.live == 0,
        }
    }

    /// Query whether the buffer is full: no further entry can be added.
    pub fn is_full(&self) -> (r: bool)
        requires
            self.inv(),
        ensures
            r == match self@ {
                BufferView::Ring(q) => q.meta.len() == q.meta_cap,
                BufferView::Slots(a) => a.free.len() == 0,
            },
    {
        match &self.storage {
            PacketStorage::Ring => self.metadata_ring.is_full(),
            PacketStorage::IndexedSlots(s) => s.free_head.is_none(),
        }
    }

    /// Enqueues a single packet with the given header, and hands out its payload.
    pub fn enqueue(&mut self, size: usize, header: H) -> (ret: Result<&mut [u8], Full>)
        requires
            old(self).inv(),
        ensures
            ret is Ok <==> old(self)@.fits(size as int),
            match ret {
                Ok(payload) => {
                    let v = old(self)@.ready(size as int);
                    &&& payload@ == v.spare(size as int)
                    &&& final(payload)@.len() == size ==> {
                        &&& final(self).inv()
                        &&& final(self)@ == v.stored(size, header, None, final(payload)@)
                    }
                },
                Err(_) => final(self).inv() && final(self)@ == old(self)@.refused(size as int),
            },
    {
        match self.enqueue_tracked_linked(size, header, None) {
            Ok((_, payload)) => Ok(payload),
            Err(e) => Err(e),
        }
    }

    /// Enqueues a packet, and hands out its handle and its payload.
    pub fn enqueue_tracked(&mut self, size: usize, header: H) -> (ret: Result<
        (PacketHandle, &mut [u8]),
        Full,
    >)
        requires
            old(self).inv(),
        ensures
            ret is Ok <==> old(self)@.fits(size as int),
            match ret {
                Ok((handle, payload)) => {
                    let v = old(self)@.ready(size as int);
                    &&& handle == v.next_handle()
                    &&& payload@ == v.spare(size as int)
                    &&& final(payload)@.len() == size ==> {
                        &&& final(self).inv()
                        &&& final(self)@ == v.stored(size, header, None, final(payload)@)
                    }
                },
                Err(_) => final(self).inv() && final(self)@ == old(self)@.refused(size as int),
            },
    {
        self.enqueue_tracked_linked(size, header, None)
    }

    /// Enqueues a packet, lets it follow the packet `previous` in its egress queue,
    /// and hands out its handle and its payload.
    pub fn enqueue_tracked_linked(
        &mut self,
        size: usize,
        header: H,
        previous: Option<PacketHandle>,
    ) -> (ret: Result<(PacketHandle, &mut [u8]), Full>)
        requires
            old(self).inv(),
            old(self)@.fits(size as int) ==> (previous matches Some(tail) ==> old(self)@.is_tail(
                tail,
            )),
        ensures
            ret is Ok <==> old(self)@.fits(size as int),
            match ret {
                Ok((handle, payload)) => {
                    let v = old(self)@.ready(size as int);
                    &&& handle == v.next_handle()
                    &&& payload@ == v.spare(size as int)
                    &&& final(payload)@.len() == size ==> {
                        &&& final(self).inv()
                        &&& final(self)@ == v.stored(size, header, previous, final(payload)@)
                    }
                },
                Err(_) => final(self).inv() && final(self)@ == old(self)@.refused(size as int),
            },
    {
        match &self.storage {
            PacketStorage::Ring => {
                if !self.make_room(size) || self.metadata_ring.is_full() {
                    return Err(Full);
                }
                Ok(self.enqueue_ring(size, header, previous))
            },
            PacketStorage::IndexedSlots(s) => {
                if size > s.slot_size || s.free_head.is_none() {
                    return Err(Full);
                }
                Ok(self.enqueue_indexed_slot(size, header, previous))
            },
        }
    }

    /// Adds a packet behind the queue, where there is room for it.
    fn enqueue_ring(&mut self, size: usize, header: H, previous: Option<PacketHandle>) -> (ret: (
        PacketHandle,
        &mut [u8],
    ))
        requires
            old(self).inv(),
            old(self).storage is Ring,
            old(self).queue().meta.len() < old(self).queue().meta_cap,
            old(self).queue().payload.contiguous_window() >= size,
            old(self).queue().payload.length == 0 ==> old(self).queue().payload.read_at == 0,
            previous matches Some(tail) ==> old(self)@.is_tail(tail),
        ensures
            ret.0 == old(self)@.next_handle(),
            ret.1@ == old(self)@.spare(size as int),
            final(ret.1)@.len() == size ==> {
                &&& final(self).inv()
                &&& final(self)@ == old(self)@.stored(size, header, previous, final(ret.1)@)
            },
    {
        let ghost q = self.queue();
        let handle = PacketHandle(self.next_sequence);
        match previous {
            Some(tail) => {
                self.set_next_egress(tail, Some(handle));
            },
            None => {},
        }
        let ghost l = self.queue();
        let payload_sequence: u32 = self.next_payload_sequence;
        self.push_entry(PacketMetadata::packet(size, header, payload_sequence));
        self.next_sequence = self.next_sequence.wrapping_add(1);
        self.next_payload_sequence = self.next_payload_sequence.wrapping_add(size as u32);
        let ghost m = self.queue();
        proof {
            assert forall|c: Seq<u8>|
                c.len() == size implies (#[trigger] q.stored(size, header, previous, c)).inv() by {
                packet_model::lemma_pushed_inv(
                    l,
                    q.stored(size, header, previous, c),
                    size as int,
                );
            }
            assert(q.payload.enqueue_run().take(size as int) =~= q.spare(size as int));
            assert(m.meta == l.meta.push(
                PacketMetadata::spec_packet(size, header, q.next_payload),
            ));
        }
        (handle, self.payload_ring.enqueue_many(size))
    }

    /// Adds a packet in the first free slot.
    fn enqueue_indexed_slot(
        &mut self,
        size: usize,
        header: H,
        previous: Option<PacketHandle>,
    ) -> (ret: (PacketHandle, &mut [u8]))
        requires
            old(self).inv(),
            old(self)@ is Slots,
            old(self)@.fits(size as int),
            previous matches Some(tail) ==> old(self)@.is_tail(tail),
        ensures
            ret.0 == old(self)@.next_handle(),
            ret.1@ == old(self)@.spare(size as int),
            final(ret.1)@.len() == size ==> {
                &&& final(self).inv()
                &&& final(self)@ == old(self)@.stored(size, header, previous, final(ret.1)@)
            },
    {
        let ghost a = self@->Slots_0;
        let slot_size: usize = match &self.storage {
            PacketStorage::IndexedSlots(s) => s.slot_size,
            PacketStorage::Ring => 0,
        };
        proof {
            packet_model::lemma_claimed_inv(a, size, header);
            packet_model::lemma_slot_bounds(a, a.free[0] as int);
            packet_model::lemma_handle_slot(a.next_generation, a.free[0]);
            assert(a.free_at(0));
        }
        let handle = self.claim_slot(size, header);
        let index: usize = Self::indexed_slot_from_handle(handle);
        match previous {
            Some(tail) => {
                self.set_next_egress(tail, Some(handle));
            },
            None => {},
        }
        let from: usize = index * slot_size;
        proof {
            let b = self@->Slots_0;
            assert forall|c: Seq<u8>|
                c.len() == size implies #[trigger] a.stored(size, header, previous, c).inv()
                && a.stored(size, header, previous, c).payload_bytes() == b.payload_bytes() by {
                packet_model::lemma_payload_changed_inv(b, a.stored(size, header, previous, c));
            }
        }
        (handle, self.payload_ring.storage_range_mut(from, from + size))
    }
}

/// The buffer that a packet of at most `max_size` octets is refused by. The packet
/// that it should have followed is linked to it even where the last entry is used to
/// pad the storage.
pub open spec fn refused_linked<H>(
    v: BufferView<H>,
    max_size: int,
    previous: Option<PacketHandle>,
) -> BufferView<H> {
    let r = v.refused(max_size);
    match previous {
        Some(tail) if v.only_pads(max_size) => r.linked(tail, Some(r.next_handle())),
        _ => r,
    }
}

impl<'a, H> PacketBuffer<'a, H> {
    /// Calls `f` with room for a packet of `max_size` octets. The packet is shrunk to
    /// the size that `f` returns, and enqueued.
    pub fn enqueue_with_infallible<F>(&mut self, max_size: usize, header: H, f: F) -> (ret: Result<
        usize,
        Full,
    >) where F: FnOnce(&mut [u8]) -> usize
        requires
            old(self).inv(),
            old(self)@.fits(max_size as int) ==> forall|s: &mut [u8]|
                s@ == old(self)@.ready(max_size as int).spare(max_size as int)
                    ==> #[trigger] f.requires((s,)),
            forall|s: &mut [u8], n: usize|
                s@.len() == max_size && #[trigger] f.ensures((s,), n) ==> {
                    &&& n <= max_size
                    &&& final(s)@.len() == s@.len()
                },
        ensures
            final(self).inv(),
            ret is Ok <==> old(self)@.fits(max_size as int),
            match ret {
                Ok(n) => exists|s: &mut [u8], size: usize|
                    {
                        let v = old(self)@.ready(max_size as int);
                        &&& #[trigger] f.ensures((s,), size)
                        &&& n == size
                        &&& s@ == v.spare(max_size as int)
                        &&& final(s)@.len() == max_size
                        &&& final(self)@ == v.stored(size, header, None, final(s)@)
                    },
                Err(_) => final(self)@ == old(self)@.refused(max_size as int),
            },
    {
        match self.enqueue_with_infallible_tracked_linked(max_size, header, None, f) {
            Ok((size, _)) => {
                assert(exists|s: &mut [u8]|
                    {
                        let v = old(self)@.ready(max_size as int);
                        &&& #[trigger] f.ensures((s,), size)
                        &&& s@ == v.spare(max_size as int)
                        &&& final(s)@.len() == max_size
                        &&& self@ == v.stored(size, header, None, final(s)@)
                    });
                Ok(size)
            },
            Err(e) => Err(e),
        }
    }

    /// Calls `f` with room for a packet of `max_size` octets. The packet is shrunk to
    /// the size that `f` returns, and enqueued. Returns its size and its handle.
    pub fn enqueue_with_infallible_tracked<F>(&mut self, max_size: usize, header: H, f: F) -> (ret:
        Result<(usize, PacketHandle), Full>) where F: FnOnce(&mut [u8]) -> usize
        requires
            old(self).inv(),
            old(self)@.fits(max_size as int) ==> forall|s: &mut [u8]|
                s@ == old(self)@.ready(max_size as int).spare(max_size as int)
                    ==> #[trigger] f.requires((s,)),
            forall|s: &mut [u8], n: usize|
                s@.len() == max_size && #[trigger] f.ensures((s,), n) ==> {
                    &&& n <= max_size
                    &&& final(s)@.len() == s@.len()
                },
        ensures
            final(self).inv(),
            ret is Ok <==> old(self)@.fits(max_size as int),
            match ret {
                Ok((n, handle)) => exists|s: &mut [u8], size: usize|
                    {
                        let v = old(self)@.ready(max_size as int);
                        &&& #[trigger] f.ensures((s,), size)
                        &&& n == size
                        &&& handle == v.next_handle()
                        &&& s@ == v.spare(max_size as int)
                        &&& final(s)@.len() == max_size
                        &&& final(self)@ == v.stored(size, header, None, final(s)@)
                    },
                Err(_) => final(self)@ == old(self)@.refused(max_size as int),
            },
    {
        self.enqueue_with_infallible_tracked_linked(max_size, header, None, f)
    }

    /// Calls `f` with room for a packet of `max_size` octets. The packet is shrunk to
    /// the size that `f` returns, enqueued, and follows the packet `previous` in its
    /// egress queue. Returns its size and its handle.
    pub fn enqueue_with_infallible_tracked_linked<F>(
        &mut self,
        max_size: usize,
        header: H,
        previous: Option<PacketHandle>,
        f: F,
    ) -> (ret: Result<(usize, PacketHandle), Full>) where F: FnOnce(&mut [u8]) -> usize
        requires
            old(self).inv(),
            old(self)@.fits(max_size as int) || old(self)@.only_pads(max_size as int) ==> (
            previous matches Some(tail) ==> old(self)@.is_tail(tail)),
            old(self)@.fits(max_size as int) ==> forall|s: &mut [u8]|
                s@ == old(self)@.ready(max_size as int).spare(max_size as int)
                    ==> #[trigger] f.requires((s,)),
            forall|s: &mut [u8], n: usize|
                s@.len() == max_size && #[trigger] f.ensures((s,), n) ==> {
                    &&& n <= max_size
                    &&& final(s)@.len() == s@.len()
                },
        ensures
            final(self).inv(),
            ret is Ok <==> old(self)@.fits(max_size as int),
            match ret {
                Ok((n, handle)) => exists|s: &mut [u8], size: usize|
                    {
                        let v = old(self)@.ready(max_size as int);
                        &&& #[trigger] f.ensures((s,), size)
                        &&& n == size
                        &&& handle == v.next_handle()
                        &&& s@ == v.spare(max_size as int)
                        &&& final(s)@.len() == max_size
                        &&& final(self)@ == v.stored(size, header, previous, final(s)@)
                    },
                Err(_) => final(self)@ == refused_linked(old(self)@, max_size as int, previous),
            },
    {
        match &self.storage {
            PacketStorage::Ring => {
                if !self.make_room(max_size) {
                    return Err(Full);
                }
                let handle = PacketHandle(self.next_sequence);
                if self.metadata_ring.is_full() {
                    match previous {
                        Some(tail) => {
                            self.set_next_egress(tail, Some(handle));
                        },
                        None => {},
                    }
                    return Err(Full);
                }
                let size: usize = self.fill_ring(max_size, header, previous, f);
                assert(exists|s: &mut [u8]|
                    {
                        let v = old(self)@.ready(max_size as int);
                        &&& #[trigger] f.ensures((s,), size)
                        &&& s@ == v.spare(max_size as int)
                        &&& final(s)@.len() == max_size
                        &&& self@ == v.stored(size, header, previous, final(s)@)
                    });
                Ok((size, handle))
            },
            PacketStorage::IndexedSlots(s) => {
                if max_size > s.slot_size || s.free_head.is_none() {
                    return Err(Full);
                }
                self.fill_slot(max_size, header, previous, f)
            },
        }
    }

    /// Adds a packet behind the queue, where there is room for it, with what `f`
    /// makes of the octets there.
    fn fill_ring<F>(
        &mut self,
        max_size: usize,
        header: H,
        previous: Option<PacketHandle>,
        f: F,
    ) -> (size: usize) where F: FnOnce(&mut [u8]) -> usize
        requires
            old(self).inv(),
            old(self).storage is Ring,
            old(self).queue().meta.len() < old(self).queue().meta_cap,
            old(self).queue().payload.contiguous_window() >= max_size,
            old(self).queue().payload.length == 0 ==> old(self).queue().payload.read_at == 0,
            previous matches Some(tail) ==> old(self)@.is_tail(tail),
            forall|s: &mut [u8]|
                s@ == old(self)@.spare(max_size as int) ==> #[trigger] f.requires((s,)),
            forall|s: &mut [u8], n: usize|
                s@.len() == max_size && #[trigger] f.ensures((s,), n) ==> {
                    &&& n <= max_size
                    &&& final(s)@.len() == s@.len()
                },
        ensures
            final(self).inv(),
            exists|s: &mut [u8]|
                {
                    &&& #[trigger] f.ensures((s,), size)
                    &&& s@ == old(self)@.spare(max_size as int)
                    &&& final(s)@.len() == max_size
                    &&& final(self)@ == old(self)@.stored(size, header, previous, final(s)@)
                },
    {
        let ghost q = self.queue();
        let handle = PacketHandle(self.next_sequence);
        match previous {
            Some(tail) => {
                self.set_next_egress(tail, Some(handle));
            },
            None => {},
        }
        let ghost l = self.queue();
        let from: usize = self.payload_ring.write_position();
        let run = self.payload_ring.storage_range_mut(from, from + max_size);
        let size: usize = f(run);
        self.payload_ring.enqueue_unallocated(size);
        let payload_sequence: u32 = self.next_payload_sequence;
        self.push_entry(PacketMetadata::packet(size, header, payload_sequence));
        self.next_sequence = self.next_sequence.wrapping_add(1);
        self.next_payload_sequence = self.next_payload_sequence.wrapping_add(size as u32);
        proof {
            assert(self.queue().meta == l.meta.push(
                PacketMetadata::spec_packet(size, header, q.next_payload),
            ));
            packet_model::lemma_pushed_inv(l, self.queue(), size as int);
            assert(exists|s: &mut [u8]|
                {
                    &&& #[trigger] f.ensures((s,), size)
                    &&& s@ == old(self)@.spare(max_size as int)
                    &&& final(s)@.len() == max_size
                    &&& self.queue() =~= q.stored(size, header, previous, final(s)@)
                });
        }
        size
    }

    /// Adds a packet in the first free slot, with what `f` makes of the octets there.
    fn fill_slot<F>(
        &mut self,
        max_size: usize,
        header: H,
        previous: Option<PacketHandle>,
        f: F,
    ) -> (ret: Result<(usize, PacketHandle), Full>) where F: FnOnce(&mut [u8]) -> usize
        requires
            old(self).inv(),
            old(self)@ is Slots,
            old(self)@.fits(max_size as int),
            previous matches Some(tail) ==> old(self)@.is_tail(tail),
            forall|s: &mut [u8]|
                s@ == old(self)@.spare(max_size as int) ==> #[trigger] f.requires((s,)),
            forall|s: &mut [u8], n: usize|
                s@.len() == max_size && #[trigger] f.ensures((s,), n) ==> {
                    &&& n <= max_size
                    &&& final(s)@.len() == s@.len()
                },
        ensures
            final(self).inv(),
            ret matches Ok((n, handle)) && handle == old(self)@.next_handle() && exists|
                s: &mut [u8],
                size: usize,
            |
                {
                    &&& #[trigger] f.ensures((s,), size)
                    &&& n == size
                    &&& s@ == old(self)@.spare(max_size as int)
                    &&& final(s)@.len() == max_size
                    &&& final(self)@ == old(self)@.stored(size, header, previous, final(s)@)
                },
    {
        let ghost a = self@->Slots_0;
        proof {
            assert(a.free_at(0));
            packet_model::lemma_slot_bounds(a, a.free[0] as int);
        }
        let (handle, payload) = self.enqueue_indexed_slot(max_size, header, previous);
        let size: usize = f(payload);
        let ghost b = self@->Slots_0;
        let index: usize = Self::indexed_slot_from_handle(handle);
        proof {
            packet_model::lemma_claimed_inv(a, max_size, header);
            packet_model::lemma_handle_slot(a.next_generation, a.free[0]);
            assert(b.fifo[b.fifo.len() - 1] == index);
            assert(b.slots[index as int].size == max_size);
            packet_model::lemma_slot_shrunk_inv(b, b.fifo.len() - 1, size);
            packet_model::lemma_payload_bytes_bound(b);
        }
        match &mut self.storage {
            PacketStorage::IndexedSlots(s) => {
                let entry = self.metadata_ring.slot_mut(index);
                entry.size = size;
                s.payload_bytes = s.payload_bytes - (max_size - size);
            },
            PacketStorage::Ring => {},
        }
        proof {
            assert(exists|s: &mut [u8]|
                {
                    &&& #[trigger] f.ensures((s,), size)
                    &&& s@ == old(self)@.spare(max_size as int)
                    &&& final(s)@.len() == max_size
                    &&& self@->Slots_0 =~= a.stored(size, header, previous, final(s)@)
                });
        }
        Ok((size, handle))
    }
}

impl<'a, H> PacketBuffer<'a, H> {
    /// Removes the first entry, and returns its header.
    fn pop_entry(&mut self) -> (r: Option<H>)
        requires
            old(self).inv(),
            old(self).storage is Ring,
            old(self)@.count() > 0,
        ensures
            final(self).inv(),
            final(self).storage is Ring,
            final(self)@ == old(self)@.popped(),
            r == old(self)@.entry(0).header,
    {
        let ghost q = self.queue();
        let entry = self.metadata_ring.get_mut(0);
        let size: usize = entry.size;
        let header = entry.header.take();
        proof {
            packet_model::lemma_popped_inv(q);
            self.metadata_ring@.law_dequeued_leaves_front(1);
        }
        self.metadata_ring.dequeue_allocated(1);
        self.payload_ring.dequeue_allocated(size);
        self.payload_base_sequence = self.payload_base_sequence.wrapping_add(size as u32);
        self.metadata_base_sequence = self.metadata_base_sequence.wrapping_add(1);
        assert(self.queue() =~= q.popped());
        header
    }

    /// Removes the entries at the front that are no packets, and returns how many
    /// they were, and how many octets they had.
    fn dequeue_padding(&mut self) -> (r: PacketCursor)
        requires
            old(self).inv(),
        ensures
            final(self).inv(),
            final(self)@ == old(self)@.unpadded(),
            r.metadata_offset == old(self)@.padding_count(),
            match old(self)@ {
                BufferView::Ring(q) => r.payload_offset == q.payload.length
                    - q.unpadded().payload.length,
                BufferView::Slots(_) => r.payload_offset == 0,
            },
    {
        match &self.storage {
            PacketStorage::IndexedSlots(_) => {
                return PacketCursor::default();
            },
            PacketStorage::Ring => {},
        }
        let mut reclaimed = PacketCursor::default();
        let ghost q = self.queue();
        while !self.metadata_ring.is_empty()
            invariant
                self.inv(),
                self.storage is Ring,
                q == old(self).queue(),
                old(self).storage is Ring,
                q.inv(),
                self.queue().unpadded() == q.unpadded(),
                reclaimed.metadata_offset + self.queue().padding_count() == q.padding_count(),
                reclaimed.payload_offset + self.queue().payload.length == q.payload.length,
                self.queue().payload.cap() == q.payload.cap(),
                reclaimed.metadata_offset + self.queue().meta.len() == q.meta.len(),
            ensures
                self.inv(),
                self.storage is Ring,
                self.queue() == q.unpadded(),
                reclaimed.metadata_offset == q.padding_count(),
                reclaimed.payload_offset + self.queue().payload.length == q.payload.length,
            decreases self.queue().meta.len(),
        {
            let ghost p = self.queue();
            let entry = self.metadata_ring.get(0);
            if entry.header.is_some() {
                break;
            }
            let size: usize = entry.size;
            let capacity: usize = self.metadata_ring.capacity();
            let payload_capacity: usize = self.payload_ring.capacity();
            proof {
                packet_model::lemma_popped_inv(p);
            }
            let _ = self.pop_entry();
            reclaimed.metadata_offset = reclaimed.metadata_offset + 1;
            reclaimed.payload_offset = reclaimed.payload_offset + size;
        }
        reclaimed
    }

    /// Calls `f` with header and payload of the packet at position `offset` of a ring.
    fn offer_ring<R, E, F>(&mut self, offset: usize, payload_offset: usize, f: F) -> (ret: Result<
        R,
        E,
    >) where F: FnOnce(&mut H, &mut [u8]) -> Result<R, E>
        requires
            old(self).inv(),
            old(self).storage is Ring,
            offset < old(self).queue().meta.len(),
            old(self).queue().meta[offset as int].header is Some,
            payload_offset == old(self).queue().offset(offset as int),
            forall|h: &mut H, s: &mut [u8]|
                old(self)@.entry(offset as int).header == Some(*h) && s@ == old(self)@.entry(
                    offset as int,
                ).payload ==> #[trigger] f.requires((h, s)),
            forall|h: &mut H, s: &mut [u8], out: Result<R, E>| #[trigger]
                f.ensures((h, s), out) ==> final(s)@.len() == s@.len(),
        ensures
            final(self).inv(),
            final(self).storage is Ring,
            exists|h: &mut H, s: &mut [u8]|
                {
                    &&& #[trigger] f.ensures((h, s), ret)
                    &&& old(self)@.entry(offset as int).header == Some(*h)
                    &&& s@ == old(self)@.entry(offset as int).payload
                    &&& final(s)@.len() == s@.len()
                    &&& final(self)@ == old(self)@.touched(offset as int, *final(h), final(s)@)
                },
    {
        let ghost q = self.queue();
        proof {
            packet_model::lemma_entry_bounds(q, offset as int);
        }
        let entry = self.metadata_ring.get_mut(offset);
        let payload = self.payload_ring.get_allocated_mut(payload_offset, entry.size);
        let ret = match &mut entry.header {
            Some(header) => f(header, payload),
            None => vstd::pervasive::unreached(),
        };
        proof {
            packet_model::lemma_entry_changed_inv(q, self.queue());
            assert(exists|h: &mut H, s: &mut [u8]|
                {
                    &&& #[trigger] f.ensures((h, s), ret)
                    &&& old(self)@.entry(offset as int).header == Some(*h)
                    &&& s@ == old(self)@.entry(offset as int).payload
                    &&& final(s)@.len() == s@.len()
                    &&& self.queue() =~= q.touched(offset as int, Some(*final(h)), final(s)@)
                });
        }
        ret
    }

    /// Calls `f` with header and payload of the packet in a slot, at position `p` of
    /// the order.
    fn offer_slot<R, E, F>(&mut self, index: usize, Ghost(p): Ghost<int>, f: F) -> (ret: Result<
        R,
        E,
    >) where F: FnOnce(&mut H, &mut [u8]) -> Result<R, E>
        requires
            old(self).inv(),
            old(self)@ is Slots,
            0 <= p < old(self)@.count(),
            old(self)@->Slots_0.fifo[p] == index,
            forall|h: &mut H, s: &mut [u8]|
                old(self)@.entry(p).header == Some(*h) && s@ == old(self)@.entry(p).payload
                    ==> #[trigger] f.requires((h, s)),
            forall|h: &mut H, s: &mut [u8], out: Result<R, E>| #[trigger]
                f.ensures((h, s), out) ==> final(s)@.len() == s@.len(),
        ensures
            final(self).inv(),
            exists|h: &mut H, s: &mut [u8]|
                {
                    &&& #[trigger] f.ensures((h, s), ret)
                    &&& old(self)@.entry(p).header == Some(*h)
                    &&& s@ == old(self)@.entry(p).payload
                    &&& final(s)@.len() == s@.len()
                    &&& final(self)@ == old(self)@.touched(p, *final(h), final(s)@)
                },
    {
        let ghost a = self@->Slots_0;
        proof {
            assert(a.packet_at(p));
            packet_model::lemma_slot_bounds(a, index as int);
        }
        let slot_size: usize = match &self.storage {
            PacketStorage::IndexedSlots(s) => s.slot_size,
            PacketStorage::Ring => 0,
        };
        let entry = self.metadata_ring.slot_mut(index);
        let from: usize = index * slot_size;
        let payload = self.payload_ring.storage_range_mut(from, from + entry.size);
        let ret = match &mut entry.header {
            Some(header) => f(header, payload),
            None => vstd::pervasive::unreached(),
        };
        proof {
            packet_model::lemma_slot_changed_inv(a, self@->Slots_0, index as int);
            assert(exists|h: &mut H, s: &mut [u8]|
                {
                    &&& #[trigger] f.ensures((h, s), ret)
                    &&& old(self)@.entry(p).header == Some(*h)
                    &&& s@ == old(self)@.entry(p).payload
                    &&& final(s)@.len() == s@.len()
                    &&& self@->Slots_0 =~= a.touched(index as int, Some(*final(h)), final(s)@)
                });
        }
        ret
    }
}

impl<'a, H> PacketBuffer<'a, H> {
    /// Calls `f` with the oldest packet, and removes the packet if `f` succeeds. With it
    /// goes what was only waiting for it to go.
    pub fn dequeue_with<R, E, F>(&mut self, f: F) -> (ret: Result<Result<R, E>, Empty>) where
        F: FnOnce(&mut H, &mut [u8]) -> Result<R, E>,

        requires
            old(self).inv(),
            old(self)@.unpadded().count() > 0 ==> forall|h: &mut H, s: &mut [u8]|
                old(self)@.unpadded().entry(0).header == Some(*h) && s@
                    == old(self)@.unpadded().entry(0).payload ==> #[trigger] f.requires((h, s)),
            forall|h: &mut H, s: &mut [u8], out: Result<R, E>| #[trigger]
                f.ensures((h, s), out) ==> final(s)@.len() == s@.len(),
        ensures
            final(self).inv(),
            ret is Err <==> old(self)@.unpadded().count() == 0,
            match ret {
                Ok(_) => exists|h: &mut H, s: &mut [u8], out: Result<R, E>|
                    {
                        let v = old(self)@.unpadded();
                        let t = v.touched(0, *final(h), final(s)@);
                        &&& #[trigger] f.ensures((h, s), out)
                        &&& ret == Ok::<Result<R, E>, Empty>(out)
                        &&& v.entry(0).header == Some(*h)
                        &&& s@ == v.entry(0).payload
                        &&& final(s)@.len() == s@.len()
                        &&& final(self)@ == if out is Ok {
                            t.popped().unpadded()
                        } else {
                            t
                        }
                    },
                Err(_) => final(self)@ == old(self)@.unpadded(),
            },
    {
        let _ = self.dequeue_padding();
        if self.is_empty() {
            return Err(Empty);
        }
        let ghost v = self@;
        let out = match &self.storage {
            PacketStorage::Ring => {
                proof {
                    packet_model::lemma_unpadded_front(old(self).queue());
                    assert(packet_model::sizes(self.queue().meta).take(0) =~= Seq::empty());
                }
                let out = self.offer_ring(0, 0, f);
                if out.is_ok() {
                    let _ = self.pop_entry();
                    let _ = self.dequeue_padding();
                }
                out
            },
            PacketStorage::IndexedSlots(s) => {
                let index: usize = match s.fifo_head {
                    Some(slot) => slot as usize,
                    None => 0,
                };
                let out = self.offer_slot(index, Ghost(0), f);
                if out.is_ok() {
                    let _ = self.release_indexed_slot(index, Ghost(0));
                }
                out
            },
        };
        proof {
            assert(exists|h: &mut H, s: &mut [u8]|
                {
                    let t = v.touched(0, *final(h), final(s)@);
                    &&& #[trigger] f.ensures((h, s), out)
                    &&& v.entry(0).header == Some(*h)
                    &&& s@ == v.entry(0).payload
                    &&& final(s)@.len() == s@.len()
                    &&& self@ == if out is Ok {
                        t.popped().unpadded()
                    } else {
                        t
                    }
                });
        }
        Ok(out)
    }

    /// Removes the oldest packet, and hands out its header and its payload. With it goes
    /// what was only waiting for it to go.
    pub fn dequeue(&mut self) -> (ret: Result<(H, &mut [u8]), Empty>)
        requires
            old(self).inv(),
        ensures
            ret is Err <==> old(self)@.unpadded().count() == 0,
            match ret {
                Ok((header, payload)) => {
                    let v = old(self)@.unpadded();
                    &&& v.entry(0).header == Some(header)
                    &&& payload@ == v.entry(0).payload
                    &&& final(payload)@.len() == payload@.len() ==> {
                        &&& final(self).inv()
                        &&& final(self)@ == v.touched(
                            0,
                            header,
                            final(payload)@,
                        ).popped().unpadded()
                    }
                },
                Err(_) => final(self).inv() && final(self)@ == old(self)@.unpadded(),
            },
    {
        let _ = self.dequeue_padding();
        if self.is_empty() {
            return Err(Empty);
        }
        match &self.storage {
            PacketStorage::Ring => {
                proof {
                    packet_model::lemma_unpadded_front(old(self).queue());
                }
                Ok(self.dequeue_ring())
            },
            PacketStorage::IndexedSlots(_) => Ok(self.dequeue_slot()),
        }
    }

    /// Removes the first entry of a ring, which is a packet, and those behind it that are
    /// none.
    fn dequeue_ring(&mut self) -> (ret: (H, &mut [u8]))
        requires
            old(self).inv(),
            old(self).storage is Ring,
            old(self)@.count() > 0,
            old(self)@.entry(0).header is Some,
        ensures
            old(self)@.entry(0).header == Some(ret.0),
            ret.1@ == old(self)@.entry(0).payload,
            final(ret.1)@.len() == ret.1@.len() ==> {
                &&& final(self).inv()
                &&& final(self)@ == old(self)@.touched(
                    0,
                    ret.0,
                    final(ret.1)@,
                ).popped().unpadded()
            },
    {
        let ghost q = self.queue();
        proof {
            packet_model::lemma_entry_bounds(q, 0);
            packet_model::lemma_popped_inv(q);
            assert(packet_model::sizes(q.meta).take(0) =~= Seq::empty());
        }
        let size: usize = self.metadata_ring.get(0).size;
        let from: usize = self.payload_ring.read_at;
        let header = match self.pop_entry() {
            Some(header) => header,
            None => vstd::pervasive::unreached(),
        };
        let _ = self.dequeue_padding();
        proof {
            assert(self.queue() =~= q.popped().unpadded());
            packet_model::lemma_unpadded_storage(q.popped(), q.popped(), q.payload.storage);
            assert(q.payload.storage.subrange(from as int, from + size) =~= q.entry(0).payload);
            assert forall|c: Seq<u8>| c.len() == size implies {
                let t = #[trigger] q.touched(0, Some(header), c);
                &&& t.popped().unpadded().inv()
                &&& t.popped().unpadded() == (RingQueue {
                    payload: RingView {
                        storage: slices::splice(q.payload.storage, from as int, c),
                        ..q.popped().unpadded().payload
                    },
                    ..q.popped().unpadded()
                })
            } by {
                packet_model::lemma_touched_popped(q, c);
            }
        }
        (header, self.payload_ring.storage_range_mut(from, from + size))
    }

    /// Removes the first packet of slots.
    fn dequeue_slot(&mut self) -> (ret: (H, &mut [u8]))
        requires
            old(self).inv(),
            old(self)@ is Slots,
            old(self)@.count() > 0,
        ensures
            old(self)@.entry(0).header == Some(ret.0),
            ret.1@ == old(self)@.entry(0).payload,
            final(ret.1)@.len() == ret.1@.len() ==> {
                &&& final(self).inv()
                &&& final(self)@ == old(self)@.touched(0, ret.0, final(ret.1)@).popped()
            },
    {
        let ghost a = self@->Slots_0;
        proof {
            assert(a.packet_at(0));
            packet_model::lemma_slot_bounds(a, a.fifo[0] as int);
        }
        let (index, slot_size): (usize, usize) = match &self.storage {
            PacketStorage::IndexedSlots(s) => (
                match s.fifo_head {
                    Some(slot) => slot as usize,
                    None => 0,
                },
                s.slot_size,
            ),
            PacketStorage::Ring => (0, 0),
        };
        let size: usize = match self.metadata_ring.slot(index) {
            Some(entry) => entry.size,
            None => 0,
        };
        let header = match self.release_indexed_slot(index, Ghost(0)) {
            Some(header) => header,
            None => vstd::pervasive::unreached(),
        };
        let from: usize = index * slot_size;
        proof {
            assert forall|c: Seq<u8>| c.len() == size implies {
                let t = #[trigger] a.touched(index as int, Some(header), c);
                &&& t.released(0).inv()
                &&& t.released(0).payload_bytes() == a.released(0).payload_bytes()
                &&& t.released(0) == (SlotArena {
                    payload: slices::splice(a.payload, from as int, c),
                    ..a.released(0)
                })
            } by {
                packet_model::lemma_touched_released(a, 0, c);
            }
        }
        (header, self.payload_ring.storage_range_mut(from, from + size))
    }
}

impl<'a, H> PacketBuffer<'a, H> {
    /// The oldest packet, which stays where it is.
    pub fn peek(&mut self) -> (ret: Result<(&H, &[u8]), Empty>)
        requires
            old(self).inv(),
        ensures
            final(self).inv(),
            final(self)@ == old(self)@.unpadded(),
            ret is Err <==> old(self)@.unpadded().count() == 0,
            ret matches Ok((header, payload)) ==> {
                &&& old(self)@.unpadded().entry(0).header == Some(*header)
                &&& payload@ == old(self)@.unpadded().entry(0).payload
            },
    {
        let _ = self.dequeue_padding();
        if self.is_empty() {
            return Err(Empty);
        }
        match &self.storage {
            PacketStorage::Ring => {
                let ghost q = self.queue();
                proof {
                    packet_model::lemma_unpadded_front(old(self).queue());
                    packet_model::lemma_entry_bounds(q, 0);
                    assert(packet_model::sizes(q.meta).take(0) =~= Seq::empty());
                }
                let entry = self.metadata_ring.get(0);
                match &entry.header {
                    Some(header) => Ok((header, self.payload_ring.get_allocated(0, entry.size))),
                    None => Err(Empty),
                }
            },
            PacketStorage::IndexedSlots(s) => {
                let ghost a = self@->Slots_0;
                proof {
                    assert(a.packet_at(0));
                    packet_model::lemma_slot_bounds(a, a.fifo[0] as int);
                }
                let index: usize = match s.fifo_head {
                    Some(slot) => slot as usize,
                    None => 0,
                };
                let from: usize = index * s.slot_size;
                match self.metadata_ring.slot(index) {
                    Some(entry) => match &entry.header {
                        Some(header) => Ok(
                            (header, self.payload_ring.storage_range(from, from + entry.size)),
                        ),
                        None => Err(Empty),
                    },
                    None => Err(Empty),
                }
            },
        }
    }

    /// The header of a packet, and the packet that follows it in its egress queue.
    pub fn egress_entry(&self, handle: PacketHandle) -> (ret: (H, Option<PacketHandle>)) where
        H: Copy,

        requires
            self.inv(),
            self@.is_live(handle),
        ensures
            self@.header(handle) == Some(ret.0),
            ret.1 == self@.next_egress(handle),
    {
        let offset: usize = match self.handle_offset(handle) {
            Some(offset) => offset,
            None => 0,
        };
        let entry = match &self.storage {
            PacketStorage::Ring => self.metadata_ring.get(offset),
            PacketStorage::IndexedSlots(_) => match self.metadata_ring.slot(offset) {
                Some(entry) => entry,
                None => vstd::pervasive::unreached(),
            },
        };
        let header = match entry.header {
            Some(header) => header,
            None => vstd::pervasive::unreached(),
        };
        (header, entry.next_egress)
    }

    /// Takes a packet off the one that follows it in its egress queue, and returns
    /// that one.
    pub fn take_egress_next(&mut self, handle: PacketHandle) -> (ret: Option<PacketHandle>)
        requires
            old(self).inv(),
            old(self)@.is_live(handle),
        ensures
            final(self).inv(),
            ret == old(self)@.next_egress(handle),
            final(self)@ == old(self)@.linked(handle, None),
    {
        let offset: usize = match self.handle_offset(handle) {
            Some(offset) => offset,
            None => 0,
        };
        let next = match &self.storage {
            PacketStorage::Ring => self.metadata_ring.get(offset).next_egress,
            PacketStorage::IndexedSlots(_) => match self.metadata_ring.slot(offset) {
                Some(entry) => entry.next_egress,
                None => None,
            },
        };
        self.set_next_egress(handle, None);
        next
    }

    /// Lets one packet follow another one in its egress queue.
    pub fn link_egress(&mut self, tail: PacketHandle, next: PacketHandle)
        requires
            old(self).inv(),
            old(self)@.is_tail(tail),
        ensures
            final(self).inv(),
            final(self)@ == old(self)@.linked(tail, Some(next)),
    {
        self.set_next_egress(tail, Some(next));
    }

    /// Completes a packet: calls `f` with its header and its payload, and removes it
    /// if `f` succeeds. Returns the packet that followed it in its egress queue, too.
    pub fn dequeue_handle_with<R, E, F>(&mut self, handle: PacketHandle, f: F) -> (ret: (
        Result<R, E>,
        Option<PacketHandle>,
    )) where F: FnOnce(&mut H, &mut [u8]) -> Result<R, E>
        requires
            old(self).inv(),
            old(self)@.is_live(handle),
            forall|h: &mut H, s: &mut [u8]|
                {
                    let i = old(self)@.handle_entry(handle);
                    old(self)@.entry(i).header == Some(*h) && s@ == old(self)@.entry(i).payload
                } ==> #[trigger] f.requires((h, s)),
            forall|h: &mut H, s: &mut [u8], out: Result<R, E>| #[trigger]
                f.ensures((h, s), out) ==> final(s)@.len() == s@.len(),
        ensures
            final(self).inv(),
            ret.1 == old(self)@.next_egress(handle),
            exists|h: &mut H, s: &mut [u8], out: Result<R, E>|
                {
                    let v = old(self)@;
                    let i = v.handle_entry(handle);
                    let t = v.touched(i, *final(h), final(s)@);
                    &&& #[trigger] f.ensures((h, s), out)
                    &&& ret.0 == out
                    &&& v.entry(i).header == Some(*h)
                    &&& s@ == v.entry(i).payload
                    &&& final(s)@.len() == s@.len()
                    &&& final(self)@ == if out is Ok {
                        t.removed(i)
                    } else {
                        t
                    }
                },
    {
        let ghost v = self@;
        let ghost i = v.handle_entry(handle);
        let offset: usize = match self.handle_offset(handle) {
            Some(offset) => offset,
            None => 0,
        };
        match &self.storage {
            PacketStorage::Ring => {
                let entry = self.metadata_ring.get(offset);
                let next = entry.next_egress;
                proof {
                    packet_model::lemma_entry_bounds(self.queue(), offset as int);
                }
                let payload_offset: usize = entry.payload_sequence.wrapping_sub(
                    self.payload_base_sequence,
                ) as usize;
                let (out, _) = self.complete_ring(offset, payload_offset, f);
                (out, next)
            },
            PacketStorage::IndexedSlots(_) => {
                let next = match self.metadata_ring.slot(offset) {
                    Some(entry) => entry.next_egress,
                    None => None,
                };
                proof {
                    packet_model::lemma_live_slot_position(v->Slots_0, offset as int);
                }
                let out = self.complete_slot(offset, Ghost(i), f);
                (out, next)
            },
        }
    }

    /// Calls `f` with header and payload of the packet at position `offset` of a ring,
    /// and removes the packet if `f` succeeds. Returns what has left the front, too.
    fn complete_ring<R, E, F>(&mut self, offset: usize, payload_offset: usize, f: F) -> (ret: (
        Result<R, E>,
        PacketCursor,
    )) where F: FnOnce(&mut H, &mut [u8]) -> Result<R, E>
        requires
            old(self).inv(),
            old(self).storage is Ring,
            offset < old(self).queue().meta.len(),
            old(self).queue().meta[offset as int].header is Some,
            payload_offset == old(self).queue().offset(offset as int),
            forall|h: &mut H, s: &mut [u8]|
                old(self)@.entry(offset as int).header == Some(*h) && s@ == old(self)@.entry(
                    offset as int,
                ).payload ==> #[trigger] f.requires((h, s)),
            forall|h: &mut H, s: &mut [u8], out: Result<R, E>| #[trigger]
                f.ensures((h, s), out) ==> final(s)@.len() == s@.len(),
        ensures
            final(self).inv(),
            final(self).storage is Ring,
            exists|h: &mut H, s: &mut [u8], out: Result<R, E>|
                {
                    let v = old(self)@;
                    let i = offset as int;
                    let t = v.touched(i, *final(h), final(s)@);
                    &&& #[trigger] f.ensures((h, s), out)
                    &&& ret.0 == out
                    &&& v.entry(i).header == Some(*h)
                    &&& s@ == v.entry(i).payload
                    &&& final(s)@.len() == s@.len()
                    &&& final(self)@ == if out is Ok {
                        t.removed(i)
                    } else {
                        t
                    }
                },
            ret.0 is Ok ==> {
                let r = old(self).queue().emptied(offset as int);
                &&& ret.1.metadata_offset == r.padding_count()
                &&& ret.1.payload_offset == r.payload.length - r.unpadded().payload.length
            },
    {
        let ghost v = self@;
        let ghost q = self.queue();
        let ghost i = offset as int;
        let out = self.offer_ring(offset, payload_offset, f);
        let ghost t = self.queue();
        let mut reclaimed = PacketCursor::default();
        if out.is_ok() {
            reclaimed = self.remove_entry(offset);
            proof {
                assert forall|h: H, s: Seq<u8>| #[trigger]
                    v.touched(i, h, s) == BufferView::Ring(t) implies t.emptied(i).meta
                    == q.emptied(i).meta by {
                    assert(q.touched(i, Some(h), s).emptied(i).meta =~= q.emptied(i).meta);
                }
                packet_model::lemma_entry_changed_inv(q, q.emptied(i));
                packet_model::lemma_entry_changed_inv(t, t.emptied(i));
                packet_model::lemma_unpadded_meta(t.emptied(i), q.emptied(i));
            }
        }
        proof {
            assert(exists|h: &mut H, s: &mut [u8]|
                {
                    let t = v.touched(i, *final(h), final(s)@);
                    &&& #[trigger] f.ensures((h, s), out)
                    &&& v.entry(i).header == Some(*h)
                    &&& s@ == v.entry(i).payload
                    &&& final(s)@.len() == s@.len()
                    &&& self@ == if out is Ok {
                        t.removed(i)
                    } else {
                        t
                    }
                });
        }
        (out, reclaimed)
    }

    /// Calls `f` with header and payload of the packet in a slot, at position `p` of
    /// the order, and removes the packet if `f` succeeds.
    fn complete_slot<R, E, F>(&mut self, index: usize, Ghost(p): Ghost<int>, f: F) -> (ret: Result<
        R,
        E,
    >) where F: FnOnce(&mut H, &mut [u8]) -> Result<R, E>
        requires
            old(self).inv(),
            old(self)@ is Slots,
            0 <= p < old(self)@.count(),
            old(self)@->Slots_0.fifo[p] == index,
            forall|h: &mut H, s: &mut [u8]|
                old(self)@.entry(p).header == Some(*h) && s@ == old(self)@.entry(p).payload
                    ==> #[trigger] f.requires((h, s)),
            forall|h: &mut H, s: &mut [u8], out: Result<R, E>| #[trigger]
                f.ensures((h, s), out) ==> final(s)@.len() == s@.len(),
        ensures
            final(self).inv(),
            exists|h: &mut H, s: &mut [u8]|
                {
                    let v = old(self)@;
                    let t = v.touched(p, *final(h), final(s)@);
                    &&& #[trigger] f.ensures((h, s), ret)
                    &&& v.entry(p).header == Some(*h)
                    &&& s@ == v.entry(p).payload
                    &&& final(s)@.len() == s@.len()
                    &&& final(self)@ == if ret is Ok {
                        t.removed(p)
                    } else {
                        t
                    }
                },
    {
        let ghost v = self@;
        let out = self.offer_slot(index, Ghost(p), f);
        if out.is_ok() {
            let _ = self.release_indexed_slot(index, Ghost(p));
        }
        proof {
            assert(exists|h: &mut H, s: &mut [u8]|
                {
                    let t = v.touched(p, *final(h), final(s)@);
                    &&& #[trigger] f.ensures((h, s), out)
                    &&& v.entry(p).header == Some(*h)
                    &&& s@ == v.entry(p).payload
                    &&& final(s)@.len() == s@.len()
                    &&& self@ == if out is Ok {
                        t.removed(p)
                    } else {
                        t
                    }
                });
        }
        out
    }

    /// Removes a packet of a ring, whose entry goes with those before it.
    fn remove_entry(&mut self, offset: usize) -> (r: PacketCursor)
        requires
            old(self).inv(),
            old(self).storage is Ring,
            offset < old(self).queue().meta.len(),
        ensures
            final(self).inv(),
            final(self)@ == old(self)@.removed(offset as int),
            r.metadata_offset == old(self).queue().emptied(offset as int).padding_count(),
            r.payload_offset + final(self).queue().payload.length
                == old(self).queue().payload.length,
            final(self).storage is Ring,
    {
        let ghost q = self.queue();
        let entry = self.metadata_ring.get_mut(offset);
        entry.header = None;
        proof {
            assert(self.queue() =~= q.emptied(offset as int));
            packet_model::lemma_entry_changed_inv(q, self.queue());
        }
        self.dequeue_padding()
    }
}

/// No entry from entry `from` up to entry `to` is a packet whose header meets the
/// predicate.
pub open spec fn no_match<H, P: FnMut(&H) -> bool>(
    v: BufferView<H>,
    from: int,
    to: int,
    predicate: P,
) -> bool {
    forall|j: int|
        from <= j < to && (#[trigger] v.entry(j)).header is Some ==> predicate.ensures(
            (&v.entry(j).header->Some_0,),
            false,
        )
}

/// Entry `i` is the first one from entry `from` on that is a packet whose header
/// meets the predicate.
pub open spec fn first_match<H, P: FnMut(&H) -> bool>(
    v: BufferView<H>,
    from: int,
    predicate: P,
    i: int,
) -> bool {
    &&& from <= i < v.count()
    &&& v.entry(i).header is Some
    &&& predicate.ensures((&v.entry(i).header->Some_0,), true)
    &&& no_match(v, from, i, predicate)
}

/// The predicate can be asked of every packet from entry `from` on.
pub open spec fn can_test<H, P: FnMut(&H) -> bool>(
    v: BufferView<H>,
    from: int,
    predicate: P,
) -> bool {
    forall|i: int|
        from <= i < v.count() && (#[trigger] v.entry(i)).header is Some ==> predicate.requires(
            (&v.entry(i).header->Some_0,),
        )
}

/// What a search from entry `from` on comes to.
pub open spec fn found<H, P: FnMut(&H) -> bool>(
    v: BufferView<H>,
    from: int,
    predicate: P,
    ret: Option<(PacketSelection, H)>,
) -> bool {
    if ret is Some {
        exists|i: int|
            {
                &&& #[trigger] first_match(v, from, predicate, i)
                &&& v.entry(i).header == Some(ret->Some_0.1)
                &&& ret->Some_0.0 == v.selection(i)
            }
    } else {
        no_match(v, from, v.count(), predicate)
    }
}

impl<'a, H> PacketBuffer<'a, H> {
    /// The header of the oldest packet that meets the predicate. The packet stays
    /// where it is.
    pub fn first_header_matching<P>(&self, predicate: P) -> (ret: Option<H>) where
        H: Copy,
        P: FnMut(&H) -> bool,

        requires
            self.inv(),
            can_test(self@, 0, predicate),
        ensures
            match ret {
                Some(header) => exists|i: int| #[trigger]
                    first_match(self@, 0, predicate, i) && self@.entry(i).header == Some(header),
                None => no_match(self@, 0, self@.count(), predicate),
            },
    {
        proof {
            assert(self@ matches BufferView::Ring(q) ==> packet_model::sizes(q.meta).take(0)
                =~= Seq::empty());
        }
        match self.first_header_matching_from(PacketCursor::default(), predicate) {
            Some((_, header)) => Some(header),
            None => None,
        }
    }

    /// The oldest packet at or after `cursor` that meets the predicate: what is needed
    /// to remove it, and its header. Among slots the search always starts at the first.
    pub fn first_header_matching_from<P>(&self, cursor: PacketCursor, predicate: P) -> (ret: Option<
        (PacketSelection, H),
    >) where H: Copy, P: FnMut(&H) -> bool
        requires
            self.inv(),
            can_test(self@, self@.search_start(cursor), predicate),
            cursor.metadata_offset <= self@.count() && self@ is Ring ==> cursor == self@.cursor(
                cursor.metadata_offset as int,
            ),
        ensures
            found(self@, self@.search_start(cursor), predicate, ret),
    {
        match &self.storage {
            PacketStorage::Ring => self.search_ring(cursor, predicate),
            PacketStorage::IndexedSlots(_) => self.search_slots(predicate),
        }
    }

    fn search_ring<P>(&self, cursor: PacketCursor, predicate: P) -> (ret: Option<
        (PacketSelection, H),
    >) where H: Copy, P: FnMut(&H) -> bool
        requires
            self.inv(),
            self.storage is Ring,
            can_test(self@, cursor.metadata_offset as int, predicate),
            cursor.metadata_offset <= self@.count() ==> cursor == self@.cursor(
                cursor.metadata_offset as int,
            ),
        ensures
            found(self@, cursor.metadata_offset as int, predicate, ret),
    {
        let ghost v = self@;
        let ghost q = self.queue();
        let ghost start = cursor.metadata_offset as int;
        let length: usize = self.metadata_ring.len();
        let capacity: usize = self.payload_ring.capacity();
        let ghost p = predicate;
        let mut meets = predicate;
        let mut offset: usize = cursor.metadata_offset;
        let mut payload_offset: usize = cursor.payload_offset;
        proof {
            if offset < length {
                packet_model::lemma_entry_bounds(q, offset as int);
            }
        }
        while offset < length
            invariant
                self.metadata_ring.inv(),
                self.metadata_ring@.data() == q.meta,
                q.inv(),
                v == self@,
                v == BufferView::Ring(q),
                length == q.meta.len(),
                capacity == q.payload.cap(),
                start == cursor.metadata_offset,
                start <= offset,
                offset < length ==> payload_offset == q.offset(offset as int),
                meets == p,
                p == predicate,
                can_test(v, start, p),
                no_match(v, start, offset as int, p),
            decreases length - offset,
        {
            proof {
                packet_model::lemma_entry_bounds(q, offset as int);
            }
            let entry = self.metadata_ring.get(offset);
            assert(v.entry(offset as int).header == entry.header);
            match &entry.header {
                Some(header) => {
                    if meets(header) {
                        assert(first_match(v, start, p, offset as int));
                        assert(v.selection(offset as int) == (PacketSelection {
                            metadata_offset: offset,
                            payload_offset,
                            payload_size: entry.size,
                        }));
                        return Some(
                            (
                                PacketSelection {
                                    metadata_offset: offset,
                                    payload_offset,
                                    payload_size: entry.size,
                                },
                                *header,
                            ),
                        );
                    }
                },
                None => {},
            }
            payload_offset = payload_offset + entry.size;
            offset = offset + 1;
        }
        None
    }

    fn search_slots<P>(&self, predicate: P) -> (ret: Option<(PacketSelection, H)>) where
        H: Copy,
        P: FnMut(&H) -> bool,

        requires
            self.inv(),
            self@ is Slots,
            can_test(self@, 0, predicate),
        ensures
            found(self@, 0, predicate, ret),
    {
        let ghost v = self@;
        let ghost a = self@->Slots_0;
        let (head, slot_size): (Option<u16>, usize) = match &self.storage {
            PacketStorage::IndexedSlots(s) => (s.fifo_head, s.slot_size),
            PacketStorage::Ring => (None, 0),
        };
        let ghost p = predicate;
        let mut meets = predicate;
        let mut current: Option<u16> = head;
        let ghost mut k: int = 0;
        while current.is_some()
            invariant
                self.inv(),
                v == self@,
                v == BufferView::Slots(a),
                slot_size == a.slot_size,
                0 <= k <= a.fifo.len(),
                current == packet_model::at(a.fifo, k),
                meets == p,
                p == predicate,
                can_test(v, 0, p),
                no_match(v, 0, k, p),
            decreases a.fifo.len() - k,
        {
            let index: usize = match current {
                Some(slot) => slot as usize,
                None => 0,
            };
            proof {
                assert(a.packet_at(k));
                packet_model::lemma_slot_bounds(a, index as int);
            }
            let entry = match self.metadata_ring.slot(index) {
                Some(entry) => entry,
                None => vstd::pervasive::unreached(),
            };
            assert(v.entry(k).header == entry.header);
            match &entry.header {
                Some(header) => {
                    if meets(header) {
                        assert(first_match(v, 0, p, k));
                        assert(v.selection(k) == (PacketSelection {
                            metadata_offset: index,
                            payload_offset: (index * slot_size) as usize,
                            payload_size: entry.size,
                        }));
                        return Some(
                            (
                                PacketSelection {
                                    metadata_offset: index,
                                    payload_offset: index * slot_size,
                                    payload_size: entry.size,
                                },
                                *header,
                            ),
                        );
                    }
                },
                None => {},
            }
            current = entry.next_slot;
            proof {
                k = k + 1;
            }
        }
        None
    }
}

impl<'a, H> PacketBuffer<'a, H> {
    /// Completes a packet that a search has found: calls `f` with its header and its
    /// payload, and removes it if `f` succeeds. Returns the position from which the
    /// search goes on, too.
    pub fn dequeue_selection_with<R, E, F>(
        &mut self,
        selection: PacketSelection,
        f: F,
    ) -> (ret: (Result<R, E>, PacketCursor)) where F: FnOnce(&mut H, &mut [u8]) -> Result<R, E>
        requires
            old(self).inv(),
            old(self)@.selects(selection),
            forall|h: &mut H, s: &mut [u8]|
                {
                    let i = old(self)@.selected(selection);
                    old(self)@.entry(i).header == Some(*h) && s@ == old(self)@.entry(i).payload
                } ==> #[trigger] f.requires((h, s)),
            forall|h: &mut H, s: &mut [u8], out: Result<R, E>| #[trigger]
                f.ensures((h, s), out) ==> final(s)@.len() == s@.len(),
        ensures
            final(self).inv(),
            exists|h: &mut H, s: &mut [u8], out: Result<R, E>|
                {
                    let v = old(self)@;
                    let i = v.selected(selection);
                    let t = v.touched(i, *final(h), final(s)@);
                    &&& #[trigger] f.ensures((h, s), out)
                    &&& ret.0 == out
                    &&& v.entry(i).header == Some(*h)
                    &&& s@ == v.entry(i).payload
                    &&& final(s)@.len() == s@.len()
                    &&& final(self)@ == if out is Ok {
                        t.removed(i)
                    } else {
                        t
                    }
                },
            ret.1 == old(self)@.resumed(selection, ret.0 is Ok),
    {
        let ghost v = self@;
        let ghost i = v.selected(selection);
        match &self.storage {
            PacketStorage::Ring => {
                let offset: usize = selection.metadata_offset;
                proof {
                    packet_model::lemma_entry_bounds(v->Ring_0, i);
                    packet_model::lemma_reclaimed(v->Ring_0, i);
                }
                let capacity: usize = self.payload_ring.capacity();
                let packet_capacity: usize = self.metadata_ring.capacity();
                let (out, reclaimed) = self.complete_ring(offset, selection.payload_offset, f);
                let behind: usize = selection.payload_offset + selection.payload_size;
                let next = if out.is_ok() {
                    PacketCursor {
                        metadata_offset: if reclaimed.metadata_offset <= offset {
                            offset + 1 - reclaimed.metadata_offset
                        } else {
                            0
                        },
                        payload_offset: if reclaimed.payload_offset <= behind {
                            behind - reclaimed.payload_offset
                        } else {
                            0
                        },
                    }
                } else {
                    PacketCursor {
                        metadata_offset: offset,
                        payload_offset: selection.payload_offset,
                    }
                };
                (out, next)
            },
            PacketStorage::IndexedSlots(_) => {
                let index: usize = selection.metadata_offset;
                proof {
                    packet_model::lemma_live_slot_position(v->Slots_0, index as int);
                }
                let out = self.complete_slot(index, Ghost(i), f);
                (out, PacketCursor::default())
            },
        }
    }
}

impl<'a, H> PacketBuffer<'a, H> {
    /// Calls `f` with the oldest packet whose header meets the predicate, and removes
    /// the packet if `f` succeeds.
    ///
    /// Packets with the same key leave in the order in which they came, while others
    /// may overtake them. If `f` fails, the packet stays.
    pub fn dequeue_matching_with<R, E, P, F>(&mut self, predicate: P, f: F) -> (ret: Result<
        Result<R, E>,
        Empty,
    >) where H: Copy, P: FnMut(&H) -> bool, F: FnOnce(&mut H, &mut [u8]) -> Result<R, E>
        requires
            old(self).inv(),
            can_test(old(self)@.unpadded(), 0, predicate),
            forall|i: int, h: &mut H, s: &mut [u8]| #[trigger]
                first_match(old(self)@.unpadded(), 0, predicate, i) && old(self)@.unpadded().entry(
                    i,
                ).header == Some(*h) && s@ == old(self)@.unpadded().entry(i).payload
                    ==> #[trigger] f.requires((h, s)),
            forall|h: &mut H, s: &mut [u8], out: Result<R, E>| #[trigger]
                f.ensures((h, s), out) ==> final(s)@.len() == s@.len(),
        ensures
            final(self).inv(),
            match ret {
                Ok(_) => exists|i: int, h: &mut H, s: &mut [u8], out: Result<R, E>|
                    {
                        let v = old(self)@.unpadded();
                        let t = v.touched(i, *final(h), final(s)@);
                        &&& #[trigger] first_match(old(self)@.unpadded(), 0, predicate, i)
                        &&& #[trigger] f.ensures((h, s), out)
                        &&& ret == Ok::<Result<R, E>, Empty>(out)
                        &&& v.entry(i).header == Some(*h)
                        &&& s@ == v.entry(i).payload
                        &&& final(s)@.len() == s@.len()
                        &&& final(self)@ == if out is Ok {
                            t.removed(i)
                        } else {
                            t
                        }
                    },
                Err(_) => {
                    &&& no_match(old(self)@.unpadded(), 0, old(self)@.unpadded().count(), predicate)
                    &&& final(self)@ == old(self)@.unpadded()
                },
            },
    {
        let _ = self.dequeue_padding();
        let ghost v = self@;
        proof {
            assert(v matches BufferView::Ring(q) ==> packet_model::sizes(q.meta).take(0)
                =~= Seq::empty());
        }
        match self.first_header_matching_from(PacketCursor::default(), predicate) {
            Some((selection, header)) => {
                let ghost i = choose|i: int|
                    {
                        &&& #[trigger] first_match(v, 0, predicate, i)
                        &&& v.entry(i).header == Some(header)
                        &&& selection == v.selection(i)
                    };
                proof {
                    assert(first_match(v, 0, predicate, i));
                    packet_model::lemma_selected(v, i);
                    assert(v.entry(i).header is Some);
                }
                let (out, _) = self.dequeue_selection_with(selection, f);
                proof {
                    assert(exists|h: &mut H, s: &mut [u8]|
                        {
                            let t = v.touched(i, *final(h), final(s)@);
                            &&& #[trigger] f.ensures((h, s), out)
                            &&& v.entry(i).header == Some(*h)
                            &&& s@ == v.entry(i).payload
                            &&& final(s)@.len() == s@.len()
                            &&& self@ == if out is Ok {
                                t.removed(i)
                            } else {
                                t
                            }
                        });
                }
                Ok(out)
            },
            None => Err(Empty),
        }
    }

    /// Return the maximum number of packets that can be stored.
    pub fn packet_capacity(&self) -> (r: usize)
        ensures
            r == self@.packet_capacity(),
    {
        self.metadata_ring.capacity()
    }

    /// Return the maximum number of octets that the packets can have.
    pub fn payload_capacity(&self) -> (r: usize)
        requires
            self.inv(),
        ensures
            r == self@.payload_capacity(),
    {
        match &self.storage {
            PacketStorage::Ring => self.payload_ring.capacity(),
            PacketStorage::IndexedSlots(s) => {
                let count: usize = self.metadata_ring.capacity();
                let payload_capacity: usize = self.payload_ring.capacity();
                assert(s.slot_size * count == count * s.slot_size) by (nonlinear_arith);
                s.slot_size * count
            },
        }
    }

    /// Return the current number of octets of the packets and the padding.
    pub fn payload_bytes_count(&self) -> (r: usize)
        requires
            self.inv(),
        ensures
            r == self@.payload_bytes(),
    {
        match &self.storage {
            PacketStorage::Ring => self.payload_ring.len(),
            PacketStorage::IndexedSlots(s) => s.payload_bytes,
        }
    }
}

impl<'a, H> PacketBuffer<'a, H> {
    /// An empty packet buffer whose packets have a slot each, so that whatever is
    /// removed can be used again at once. Every slot has an equal part of the payload
    /// storage, which limits the size of a packet; a remainder stays unused.
    pub fn new_indexed_slots(
        metadata_storage: ManagedSlice<'a, PacketMetadata<H>>,
        payload_storage: ManagedSlice<'a, u8>,
    ) -> (r: PacketBuffer<'a, H>)
        requires
            slices::contents(metadata_storage).len() <= u16::MAX,
        ensures
            r.inv(),
            r@ == BufferView::Slots(
                SlotArena::<H>::initial(
                    slices::contents(metadata_storage).len(),
                    slices::contents(payload_storage),
                    packet_model::even_share(
                        slices::contents(payload_storage).len() as int,
                        slices::contents(metadata_storage).len() as int,
                    ),
                    1,
                ),
            ),
    {
        let mut metadata_ring = RingBuffer::new(metadata_storage);
        let payload_ring = RingBuffer::new(payload_storage);
        let capacity: usize = metadata_ring.capacity();
        let payload_capacity: usize = payload_ring.capacity();
        let slot_size: usize = if capacity == 0 {
            0
        } else {
            payload_capacity / capacity
        };
        free_slots(&mut metadata_ring);
        let ghost a = SlotArena::<H>::initial(
            capacity as nat,
            payload_ring@.storage,
            slot_size as int,
            1,
        );
        proof {
            packet_model::lemma_even_share(payload_capacity as int, capacity as int);
            packet_model::lemma_initial_inv(a);
        }
        let r = PacketBuffer {
            metadata_ring,
            payload_ring,
            storage: PacketStorage::IndexedSlots(
                IndexedSlots {
                    free_head: if capacity == 0 {
                        None
                    } else {
                        Some(0)
                    },
                    fifo_head: None,
                    fifo_tail: None,
                    live: 0,
                    payload_bytes: 0,
                    slot_size,
                    next_generation: 1,
                    fifo: Ghost(Seq::empty()),
                    free: Ghost(Seq::new(capacity as nat, |i: int| i as u16)),
                },
            ),
            metadata_base_sequence: 0,
            next_sequence: 0,
            next_payload_sequence: 0,
            payload_base_sequence: 0,
        };
        assert(r@->Slots_0 =~= a);
        r
    }

    /// Removes every packet.
    pub fn reset(&mut self)
        requires
            old(self).inv(),
        ensures
            final(self).inv(),
            final(self)@ == old(self)@.emptied(),
    {
        let ghost v = self@;
        match &mut self.storage {
            PacketStorage::Ring => {
                self.payload_ring.clear();
                self.metadata_ring.clear();
                self.metadata_base_sequence = self.next_sequence;
                self.payload_base_sequence = self.next_payload_sequence;
                proof {
                    reveal(RingQueue::entries_inv);
                    assert(self.queue().meta =~= Seq::<PacketMetadata<H>>::empty());
                    assert(self.queue() =~= v.emptied()->Ring_0);
                }
            },
            PacketStorage::IndexedSlots(s) => {
                let capacity: usize = self.metadata_ring.capacity();
                free_slots(&mut self.metadata_ring);
                s.free_head = if capacity == 0 {
                    None
                } else {
                    Some(0)
                };
                s.fifo_head = None;
                s.fifo_tail = None;
                s.live = 0;
                s.payload_bytes = 0;
                s.fifo = Ghost(Seq::empty());
                s.free = Ghost(Seq::new(capacity as nat, |i: int| i as u16));
                proof {
                    assert(self.arena(*s) =~= v.emptied()->Slots_0);
                    packet_model::lemma_initial_inv(self.arena(*s));
                }
            },
        }
    }

    /// Takes every packet out of its egress queue.
    pub fn clear_egress_links(&mut self)
        requires
            old(self).inv(),
        ensures
            final(self).inv(),
            final(self)@ == old(self)@.unlinked(),
    {
        let ghost v = self@;
        match &self.storage {
            PacketStorage::Ring => {
                let length: usize = self.metadata_ring.len();
                let ghost q = self.queue();
                let mut offset: usize = 0;
                while offset < length
                    invariant
                        self.inv(),
                        self.storage is Ring,
                        offset <= length,
                        length == q.meta.len(),
                        self.queue() == q.unlinked_to(offset as int),
                    decreases length - offset,
                {
                    let ghost b = self.queue();
                    let entry = self.metadata_ring.get_mut(offset);
                    entry.next_egress = None;
                    offset = offset + 1;
                    proof {
                        assert(self.queue().meta =~= q.unlinked_to(offset as int).meta);
                        packet_model::lemma_entry_changed_inv(b, self.queue());
                    }
                }
                assert(q.unlinked_to(0).meta =~= q.meta);
            },
            PacketStorage::IndexedSlots(s) => {
                let mut current: Option<u16> = s.fifo_head;
                let ghost a = v->Slots_0;
                let ghost mut k: int = 0;
                assert(a.unlinked_to(0).slots =~= a.slots);
                while current.is_some()
                    invariant
                        self.inv(),
                        self@ == BufferView::Slots(a.unlinked_to(k)),
                        a.inv(),
                        0 <= k <= a.fifo.len(),
                        current == packet_model::at(a.fifo, k),
                    decreases a.fifo.len() - k,
                {
                    let ghost b = self@->Slots_0;
                    let index: usize = match current {
                        Some(slot) => slot as usize,
                        None => 0,
                    };
                    proof {
                        assert(a.packet_at(k));
                        assert(b.packet_at(k));
                    }
                    let entry = self.metadata_ring.slot_mut(index);
                    current = entry.next_slot;
                    entry.next_egress = None;
                    proof {
                        packet_model::lemma_unlinked_step(a, k);
                        assert(self@->Slots_0 =~= a.unlinked_to(k + 1));
                        packet_model::lemma_slot_changed_inv(b, self@->Slots_0, index as int);
                        k = k + 1;
                    }
                }
            },
        }
    }
}

/// Empties every slot, and links each to the next one.
fn free_slots<'a, H>(metadata_ring: &mut RingBuffer<'a, PacketMetadata<H>>)
    requires
        old(metadata_ring)@.cap() <= u16::MAX,
    ensures
        final(metadata_ring)@.storage == SlotArena::<H>::initial(
            old(metadata_ring)@.storage.len(),
            Seq::empty(),
            0,
            0,
        ).slots,
{
    let capacity: usize = metadata_ring.capacity();
    let ghost target = SlotArena::<H>::initial(capacity as nat, Seq::empty(), 0, 0).slots;
    let mut index: usize = 0;
    while index < capacity
        invariant
            index <= capacity <= u16::MAX,
            metadata_ring@.cap() == capacity,
            target == SlotArena::<H>::initial(capacity as nat, Seq::empty(), 0, 0).slots,
            forall|i: int| 0 <= i < index ==> metadata_ring@.storage[i] == target[i],
        decreases capacity - index,
    {
        let entry = metadata_ring.slot_mut(index);
        *entry = PacketMetadata::empty();
        if index + 1 < capacity {
            entry.next_slot = Some((index + 1) as u16);
        }
        index = index + 1;
    }
    assert(metadata_ring@.storage =~= target);
}

/// `outs` gives for each packet what the predecessor function says of it, and nothing
/// for other entries.
pub open spec fn predecessors<H, F: FnMut(PacketHandle, H) -> Option<PacketHandle>>(
    u: BufferView<H>,
    predecessor: F,
    outs: Seq<Option<PacketHandle>>,
) -> bool {
    forall|i: int|
        0 <= i < outs.len() ==> if u.entry(i).header is Some {
            predecessor.ensures(
                (u.entry(i).handle, u.entry(i).header->Some_0),
                #[trigger] outs[i],
            )
        } else {
            outs[i] is None
        }
}

/// Entry `i` is a packet, and the predecessor function can be asked for what it
/// follows.
pub open spec fn asked<H, F: FnMut(PacketHandle, H) -> Option<PacketHandle>>(
    u: BufferView<H>,
    predecessor: F,
    i: int,
    out: Option<PacketHandle>,
) -> bool {
    &&& 0 <= i < u.count()
    &&& u.entry(i).header is Some
    &&& predecessor.ensures((u.entry(i).handle, u.entry(i).header->Some_0), out)
}

impl<'a, H> PacketBuffer<'a, H> {
    /// Builds the egress queues anew, from the oldest packet to the latest.
    /// `predecessor` gives for a packet the one that it is to follow: no two packets
    /// can follow the same one.
    pub fn rebuild_egress_links<F>(&mut self, predecessor: F) where
        H: Copy,
        F: FnMut(PacketHandle, H) -> Option<PacketHandle>,

        requires
            old(self).inv(),
            forall|p: PacketHandle, h: H| #[trigger] predecessor.requires((p, h)),
            forall|i: int, t: PacketHandle| #[trigger]
                asked(old(self)@.unlinked(), predecessor, i, Some(t)) ==> old(self)@.is_live(t),
            forall|i: int, j: int, t: PacketHandle|
                i != j && #[trigger] asked(old(self)@.unlinked(), predecessor, i, Some(t))
                    ==> !#[trigger] asked(old(self)@.unlinked(), predecessor, j, Some(t)),
        ensures
            final(self).inv(),
            exists|outs: Seq<Option<PacketHandle>>|
                {
                    &&& outs.len() == old(self)@.count()
                    &&& #[trigger] predecessors(old(self)@.unlinked(), predecessor, outs)
                    &&& final(self)@ == old(self)@.unlinked().relinked(
                        outs,
                        old(self)@.count(),
                    )
                },
    {
        let ghost u = old(self)@.unlinked();
        proof {
            packet_model::lemma_unlinked(self@);
        }
        self.clear_egress_links();
        let mut ask = predecessor;
        let ghost mut outs: Seq<Option<PacketHandle>> = Seq::empty();
        match &self.storage {
            PacketStorage::Ring => {
                let length: usize = self.metadata_ring.len();
                let mut offset: usize = 0;
                while offset < length
                    invariant
                        self.inv(),
                        u.inv(),
                        u.no_links(),
                        u is Ring,
                        ask == predecessor,
                        forall|p: PacketHandle, h: H| #[trigger] predecessor.requires((p, h)),
                        forall|i: int, t: PacketHandle| #[trigger]
                            asked(u, predecessor, i, Some(t)) ==> u.is_live(t),
                        forall|i: int, j: int, t: PacketHandle|
                            i != j && #[trigger] asked(u, predecessor, i, Some(t))
                                ==> !#[trigger] asked(u, predecessor, j, Some(t)),
                        offset <= length,
                        length == u.count(),
                        outs.len() == offset,
                        predecessors(u, predecessor, outs),
                        self@ == u.relinked(outs, offset as int),
                    decreases length - offset,
                {
                    let ghost n = offset as int;
                    proof {
                        lemma_step(u, predecessor, outs);
                        assert(self@.entry(n).header == u.entry(n).header);
                    }
                    let entry = self.metadata_ring.get(offset);
                    let handle = PacketHandle(
                        self.metadata_base_sequence.wrapping_add(offset as u32),
                    );
                    assert(handle == u.entry(n).handle);
                    let out = match entry.header {
                        Some(header) => ask(handle, header),
                        None => None,
                    };
                    let ghost next = outs.push(out);
                    proof {
                        lemma_last(u, predecessor, outs, out);
                    }
                    match out {
                        Some(tail) => {
                            self.link_egress(tail, handle);
                        },
                        None => {},
                    }
                    proof {
                        outs = next;
                    }
                    offset = offset + 1;
                }
            },
            PacketStorage::IndexedSlots(s) => {
                let mut current: Option<u16> = s.fifo_head;
                let ghost fifo = u->Slots_0.fifo;
                while current.is_some()
                    invariant
                        self.inv(),
                        u.inv(),
                        u.no_links(),
                        u is Slots,
                        fifo == u->Slots_0.fifo,
                        ask == predecessor,
                        forall|p: PacketHandle, h: H| #[trigger] predecessor.requires((p, h)),
                        forall|i: int, t: PacketHandle| #[trigger]
                            asked(u, predecessor, i, Some(t)) ==> u.is_live(t),
                        forall|i: int, j: int, t: PacketHandle|
                            i != j && #[trigger] asked(u, predecessor, i, Some(t))
                                ==> !#[trigger] asked(u, predecessor, j, Some(t)),
                        outs.len() <= u.count(),
                        current == packet_model::at(fifo, outs.len() as int),
                        predecessors(u, predecessor, outs),
                        self@ == u.relinked(outs, outs.len() as int),
                    decreases u.count() - outs.len(),
                {
                    let ghost n = outs.len() as int;
                    proof {
                        lemma_step(u, predecessor, outs);
                        assert(self@->Slots_0.packet_at(n));
                        assert(self@.entry(n).header == u.entry(n).header);
                    }
                    let index: usize = match current {
                        Some(slot) => slot as usize,
                        None => 0,
                    };
                    let entry = match self.metadata_ring.slot(index) {
                        Some(entry) => entry,
                        None => vstd::pervasive::unreached(),
                    };
                    let handle = PacketHandle(entry.payload_sequence);
                    current = entry.next_slot;
                    assert(handle == u.entry(n).handle);
                    let out = match entry.header {
                        Some(header) => ask(handle, header),
                        None => None,
                    };
                    let ghost next = outs.push(out);
                    proof {
                        lemma_last(u, predecessor, outs, out);
                    }
                    match out {
                        Some(tail) => {
                            self.link_egress(tail, handle);
                        },
                        None => {},
                    }
                    proof {
                        outs = next;
                    }
                }
            },
        }
        proof {
            assert(predecessors(u, predecessor, outs));
        }
    }
}

/// What the packets asked so far were told leaves them as they are.
proof fn lemma_step<H, F: FnMut(PacketHandle, H) -> Option<PacketHandle>>(
    u: BufferView<H>,
    predecessor: F,
    outs: Seq<Option<PacketHandle>>,
)
    requires
        u.inv(),
        u.no_links(),
        outs.len() <= u.count(),
        predecessors(u, predecessor, outs),
        forall|i: int, t: PacketHandle| #[trigger]
            asked(u, predecessor, i, Some(t)) ==> u.is_live(t),
    ensures
        ({
            let v = u.relinked(outs, outs.len() as int);
            &&& v.count() == u.count()
            &&& v is Ring <==> u is Ring
            &&& v is Slots ==> v->Slots_0.fifo == u->Slots_0.fifo
            &&& v is Ring ==> v->Ring_0.metadata_base == u->Ring_0.metadata_base
            &&& forall|p: PacketHandle| #[trigger] v.is_live(p) == u.is_live(p)
            &&& forall|i: int|
                0 <= i < u.count() ==> (#[trigger] v.entry(i)).header == u.entry(i).header
                    && v.entry(i).handle == u.entry(i).handle
        }),
{
    assert forall|j: int| 0 <= j < outs.len() implies (#[trigger] outs[j] matches Some(t)
        ==> u.is_live(t)) by {
        if outs[j] is Some {
            assert(asked(u, predecessor, j, Some(outs[j]->Some_0)));
        }
    }
    packet_model::lemma_relinked(u, outs, outs.len() as int);
}

/// The packet that the next one is to follow is the last one of its queue.
proof fn lemma_last<H, F: FnMut(PacketHandle, H) -> Option<PacketHandle>>(
    u: BufferView<H>,
    predecessor: F,
    outs: Seq<Option<PacketHandle>>,
    out: Option<PacketHandle>,
)
    requires
        u.inv(),
        u.no_links(),
        outs.len() < u.count(),
        predecessors(u, predecessor, outs),
        forall|i: int, t: PacketHandle| #[trigger]
            asked(u, predecessor, i, Some(t)) ==> u.is_live(t),
        forall|i: int, j: int, t: PacketHandle|
            i != j && #[trigger] asked(u, predecessor, i, Some(t)) ==> !#[trigger] asked(
                u,
                predecessor,
                j,
                Some(t),
            ),
        if u.entry(outs.len() as int).header is Some {
            asked(u, predecessor, outs.len() as int, out)
        } else {
            out is None
        },
    ensures
        predecessors(u, predecessor, outs.push(out)),
        out matches Some(t) ==> u.relinked(outs, outs.len() as int).is_tail(t),
        u.relinked(outs.push(out), outs.len() + 1int) == match out {
            Some(t) => u.relinked(outs, outs.len() as int).linked(
                t,
                Some(u.entry(outs.len() as int).handle),
            ),
            None => u.relinked(outs, outs.len() as int),
        },
{
    let n = outs.len() as int;
    assert forall|j: int| 0 <= j < n implies (#[trigger] outs[j] matches Some(t)
        ==> u.is_live(t)) by {
        if outs[j] is Some {
            assert(asked(u, predecessor, j, Some(outs[j]->Some_0)));
        }
    }
    packet_model::lemma_relinked(u, outs, n);
    if out is Some {
        let t = out->Some_0;
        assert(asked(u, predecessor, n, Some(t)));
        assert(u.is_live(t));
        assert forall|j: int| 0 <= j < n implies #[trigger] outs[j] != Some(t) by {
            if outs[j] == Some(t) {
                assert(asked(u, predecessor, j, Some(t)));
            }
        }
        assert(u.relinked(outs, n).is_live(t));
    }
    packet_model::lemma_relinked_prefix(u, outs, outs.push(out), n);
}

} // verus!
