//! When a packet finds room, and what its handle is good for.
use super::packet_buffer::{PacketHandle, PacketSelection};
use super::packet_model::{self, BufferView, RingQueue, SlotArena};
use vstd::prelude::*;

verus! {

/// A packet fits into a ring if an entry is free for it, and its octets are free in one
/// piece: in an empty ring, anywhere; behind the others, up to the end of the storage;
/// or at the start of the storage, up to the oldest, for which a second entry is needed if
/// there is a rest to skip.
pub proof fn law_ring_takes_what_fits_in_one_piece<H>(q: RingQueue<H>, size: int)
    requires
        q.inv(),
        0 < size,
    ensures
        ({
            let cap = q.payload.cap();
            let used = q.payload.length;
            let end = q.payload.read_at + used;
            let entries = q.meta_cap - q.meta.len();
            BufferView::Ring(q).fits(size) <==> {
                ||| used == 0 && entries >= 1 && size <= cap
                ||| used > 0 && end < cap && entries >= 1 && size <= cap - end
                ||| used > 0 && end < cap && entries >= 2 && size <= q.payload.read_at
                ||| used > 0 && end >= cap && entries >= 1 && size <= cap - used
            }
        }),
{
}

/// Among slots, a packet fits if a slot is free and large enough.
pub proof fn law_slots_take_what_fits_into_one<H>(a: SlotArena<H>, size: int)
    requires
        a.inv(),
    ensures
        BufferView::Slots(a).fits(size) <==> size <= a.slot_size && a.fifo.len() < a.slots.len(),
{
}

/// The handle of a packet leads to that packet, wherever it is, and to no other.
pub proof fn law_handle_leads_to_its_packet<H>(v: BufferView<H>, i: int, j: int)
    requires
        v.inv(),
        0 <= i < v.count(),
        v.entry(i).header is Some,
        0 <= j < v.count(),
    ensures
        v.is_live(v.entry(i).handle),
        v.handle_entry(v.entry(i).handle) == i,
        v.header(v.entry(i).handle) == v.entry(i).header,
        v.next_egress(v.entry(i).handle) == v.entry(i).next_egress,
        v.entry(j).handle == v.entry(i).handle ==> i == j,
{
    match v {
        BufferView::Ring(q) => {
            assert(q.handle_offset(q.entry(i).handle) == i);
            assert(q.handle_offset(q.entry(j).handle) == j);
        },
        BufferView::Slots(a) => {
            assert(a.packet_at(i));
            assert(a.packet_at(j));
            let slot = a.fifo[i] as int;
            packet_model::lemma_live_slot_position(a, slot);
            let p = a.position(slot);
            assert(a.fifo[p] == a.fifo[i]);
        },
    }
}

/// The handle of the next packet is not that of any packet that is there.
pub proof fn law_next_handle_is_fresh<H>(v: BufferView<H>, size: int)
    requires
        v.inv(),
        v.fits(size),
    ensures
        !v.is_live(v.next_handle()),
{
    match v {
        BufferView::Ring(q) => {
            assert(q.handle_offset(PacketHandle(q.next_sequence)) == q.meta.len());
        },
        BufferView::Slots(a) => {
            assert(a.free_at(0));
            packet_model::lemma_handle_slot(a.next_generation, a.free[0]);
        },
    }
}

/// Two packets that use a slot one after the other have different handles, and zero is no
/// generation.
pub proof fn law_generations_differ(g: u16)
    requires
        g != 0,
    ensures
        packet_model::next_generation(g) != g,
        packet_model::next_generation(g) != 0,
        g < 65535 ==> packet_model::next_generation(g) == g + 1,
{
}

/// The handle of a packet that has been removed from its slot leads nowhere.
pub proof fn law_removed_handle_is_dead<H>(a: SlotArena<H>, i: int)
    requires
        a.inv(),
        0 <= i < a.fifo.len(),
    ensures
        !BufferView::Slots(a).removed(i).is_live(a.entry(i).handle),
{
    assert(a.packet_at(i));
    let slot = a.fifo[i] as int;
    let r = a.released(i);
    if i > 0 {
        assert(a.packet_at(i - 1));
    }
    if i + 1 < a.fifo.len() {
        assert(a.packet_at(i + 1));
    }
    assert(packet_model::handle_slot(a.entry(i).handle) == slot);
    assert(r.slots.len() == a.slots.len());
    assert(r.slots[slot].header is None);
}

/// Making a packet follow another one changes who follows that one, and nothing else.
pub proof fn law_link_changes_one_follower<H>(
    v: BufferView<H>,
    tail: PacketHandle,
    next: Option<PacketHandle>,
    i: int,
)
    requires
        v.inv(),
        v.is_live(tail),
        0 <= i < v.count(),
        v.entry(i).header is Some,
    ensures
        ({
            let w = v.linked(tail, next);
            &&& w.next_egress(tail) == next
            &&& w.count() == v.count()
            &&& w.entry(i).handle == v.entry(i).handle
            &&& w.entry(i).header == v.entry(i).header
            &&& w.entry(i).payload == v.entry(i).payload
            &&& v.entry(i).handle != tail ==> w.entry(i).next_egress == v.entry(i).next_egress
            &&& w.payload_bytes() == v.payload_bytes()
        }),
{
    law_handle_leads_to_its_packet(v, i, i);
    match v {
        BufferView::Ring(q) => {
            let r = q.linked(tail, next);
            assert(packet_model::sizes(r.meta) =~= packet_model::sizes(q.meta));
        },
        BufferView::Slots(a) => {
            let b = a.linked(tail, next);
            assert(a.packet_at(i));
            assert forall|j: int| 0 <= j < a.fifo.len() implies b.slots[a.fifo[j] as int].size
                == a.slots[a.fifo[j] as int].size by {
                assert(a.packet_at(j));
            }
            assert(packet_model::slot_sizes(b.slots, b.fifo) =~= packet_model::slot_sizes(
                a.slots,
                a.fifo,
            ));
        },
    }
}

/// What a search hands out for a packet selects that packet.
pub proof fn law_selection_selects_its_packet<H>(v: BufferView<H>, i: int)
    requires
        v.inv(),
        0 <= i < v.count(),
        v.entry(i).header is Some,
        v matches BufferView::Ring(q) ==> q.meta_cap <= usize::MAX && q.payload.cap() <= usize::MAX,
    ensures
        v.selects(v.selection(i)),
        v.selected(v.selection(i)) == i,
        v.selection(i).payload_size == v.entry(i).payload.len(),
{
    match v {
        BufferView::Ring(q) => {
            packet_model::lemma_entry_bounds(q, i);
        },
        BufferView::Slots(a) => {
            assert(a.packet_at(i));
            packet_model::lemma_slot_bounds(a, a.fifo[i] as int);
            packet_model::lemma_live_slot_position(a, a.fifo[i] as int);
            let p = a.position(a.fifo[i] as int);
            assert(a.fifo[p] == a.fifo[i]);
        },
    }
}

/// An empty buffer holds no packet and no octet, and takes every packet that is not larger
/// than it allows.
pub proof fn law_emptied_buffer_is_empty<H>(v: BufferView<H>, size: int)
    requires
        v.inv(),
        0 <= size,
    ensures
        v.emptied().count() == 0,
        v.emptied().payload_bytes() == 0,
        v.emptied().packet_capacity() == v.packet_capacity(),
        v.emptied().payload_capacity() == v.payload_capacity(),
        v matches BufferView::Ring(q) ==> (v.emptied().fits(size) <==> q.meta_cap > 0 && size
            <= q.payload.cap()),
        v matches BufferView::Slots(a) ==> (v.emptied().fits(size) <==> a.slots.len() > 0 && size
            <= a.slot_size),
{
    match v.emptied() {
        BufferView::Ring(q) => {},
        BufferView::Slots(a) => {
            assert(packet_model::slot_sizes(a.slots, a.fifo) =~= Seq::empty());
        },
    }
}

/// Octets are shared out evenly, as many as there are for everyone.
pub proof fn law_share_is_the_greatest(total: int, count: int)
    requires
        0 <= total,
        0 <= count,
    ensures
        count == 0 ==> packet_model::even_share(total, count) == 0,
        count > 0 ==> count * packet_model::even_share(total, count) <= total < count * (
        packet_model::even_share(total, count) + 1),
{
    if count > 0 {
        assert(count * (total / count) <= total < count * (total / count + 1))
            by (nonlinear_arith)
            requires
                0 <= total,
                0 < count,
        ;
    }
}

proof fn lemma_padding_has_no_headers<H>(q: RingQueue<H>)
    requires
        q.inv(),
    ensures
        0 <= q.padding_count() <= q.meta.len(),
        forall|k: int| 0 <= k < q.padding_count() ==> (#[trigger] q.meta[k]).header is None,
    decreases q.meta.len(),
{
    packet_model::lemma_unpadded_shift(q);
    if q.meta.len() > 0 && q.meta[0].header is None {
        packet_model::lemma_popped_inv(q);
        lemma_padding_has_no_headers(q.popped());
        assert forall|k: int| 0 <= k < q.padding_count() implies (
        #[trigger] q.meta[k]).header is None by {
            if k > 0 {
                assert(q.popped().meta[k - 1] == q.meta[k]);
            }
        }
    }
}

/// A search in a ring goes on with the packet that it stopped at if that stays, and right
/// behind it if it has left: no packet is skipped, and none is seen twice.
pub proof fn law_search_goes_on_where_it_stopped<H>(q: RingQueue<H>, selection: PacketSelection)
    requires
        q.inv(),
        BufferView::Ring(q).selects(selection),
    ensures
        ({
            let b = BufferView::Ring(q);
            let i = b.selected(selection);
            b.search_start(b.resumed(selection, false)) == i
        }),
        ({
            let b = BufferView::Ring(q);
            let i = b.selected(selection);
            let r = q.emptied(i).unpadded();
            let start = b.search_start(b.resumed(selection, true));
            let left = r.meta.len() - start;
            &&& 0 <= start <= r.meta.len()
            &&& left <= q.meta.len() - i - 1
            &&& forall|k: int|
                0 <= k < left ==> (#[trigger] r.meta[start + k]) == q.meta[q.meta.len() - left + k]
            &&& forall|k: int|
                i < k < q.meta.len() - left ==> (#[trigger] q.meta[k]).header is None
        }),
{
    let i = selection.metadata_offset as int;
    let e = q.emptied(i);
    packet_model::lemma_entry_changed_inv(q, e);
    packet_model::lemma_unpadded_shift(e);
    lemma_padding_has_no_headers(e);
    assert forall|k: int| i < k < e.padding_count() implies (#[trigger] q.meta[k]).header is None by {
        assert(e.meta[k] == q.meta[k]);
    }
}

} // verus!
