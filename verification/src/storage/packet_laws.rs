//! What a packet buffer promises of the packets in it.
use super::packet_buffer::PacketHandle;
use super::packet_model::{self, BufferView, Packet, RingQueue, SlotArena};
use super::slices;
use super::RingView;
use vstd::prelude::*;

verus! {

/// Adding an element to a sequence adds it to what is filtered, or not.
proof fn lemma_filter_push<A>(s: Seq<A>, x: A, pred: spec_fn(A) -> bool)
    ensures
        s.push(x).filter(pred) == if pred(x) {
            s.filter(pred).push(x)
        } else {
            s.filter(pred)
        },
{
    reveal(Seq::filter);
    assert(s.push(x).drop_last() =~= s);
}

/// Removing the first element of a sequence.
proof fn lemma_filter_first<A>(s: Seq<A>, pred: spec_fn(A) -> bool)
    requires
        s.len() > 0,
    ensures
        s.filter(pred) == if pred(s[0]) {
            seq![s[0]] + s.skip(1).filter(pred)
        } else {
            s.skip(1).filter(pred)
        },
{
    let a = Seq::<A>::empty().push(s[0]);
    assert(s =~= a + s.skip(1));
    Seq::filter_distributes_over_add(a, s.skip(1), pred);
    lemma_filter_push(Seq::empty(), s[0], pred);
    reveal(Seq::filter);
    if pred(s[0]) {
        assert(s.filter(pred) =~= seq![s[0]] + s.skip(1).filter(pred));
    } else {
        assert(s.filter(pred) =~= s.skip(1).filter(pred));
    }
}

/// Where an element of a sequence is found in what is filtered: behind all those
/// before it.
pub open spec fn rank<A>(s: Seq<A>, i: int, pred: spec_fn(A) -> bool) -> int {
    s.take(i).filter(pred).len() as int
}

/// Taking an element out of a sequence, or putting one in its place that is filtered
/// out, takes it out of what is filtered.
proof fn lemma_filter_without<A>(s: Seq<A>, i: int, x: A, pred: spec_fn(A) -> bool)
    requires
        0 <= i < s.len(),
        pred(s[i]),
        !pred(x),
    ensures
        0 <= rank(s, i, pred) < s.filter(pred).len(),
        s.filter(pred)[rank(s, i, pred)] == s[i],
        s.update(i, x).filter(pred) == s.filter(pred).remove(rank(s, i, pred)),
        s.remove(i).filter(pred) == s.filter(pred).remove(rank(s, i, pred)),
{
    let a = s.take(i);
    let b = s.skip(i + 1);
    let k = rank(s, i, pred);
    assert(s =~= a.push(s[i]) + b);
    assert(s.update(i, x) =~= a.push(x) + b);
    assert(s.remove(i) =~= a + b);
    Seq::filter_distributes_over_add(a.push(s[i]), b, pred);
    Seq::filter_distributes_over_add(a.push(x), b, pred);
    Seq::filter_distributes_over_add(a, b, pred);
    lemma_filter_push(a, s[i], pred);
    lemma_filter_push(a, x, pred);
    assert(s.filter(pred).remove(k) =~= a.filter(pred) + b.filter(pred));
}

/// The payload of an entry is still there where the octets of the queue still are.
proof fn lemma_same_entry<H>(q: RingQueue<H>, r: RingQueue<H>, i: int)
    requires
        q.inv(),
        0 <= i < q.meta.len(),
        i < r.meta.len(),
        r.offset(i) == q.offset(i),
        r.meta[i].size == q.meta[i].size,
        r.meta[i].header == q.meta[i].header,
        r.meta[i].next_egress == q.meta[i].next_egress,
        r.metadata_base == q.metadata_base,
        r.payload.length >= q.payload.length,
        forall|k: int|
            0 <= k < q.payload.length ==> #[trigger] r.payload.data()[k] == q.payload.data()[k],
    ensures
        r.entry(i) == q.entry(i),
{
    packet_model::lemma_entry_bounds(q, i);
    assert(r.entry(i).payload =~= q.entry(i).payload);
}

proof fn lemma_rewound_entries<H>(q: RingQueue<H>)
    requires
        q.inv(),
    ensures
        BufferView::Ring(q.rewound()).entries() == BufferView::Ring(q).entries(),
{
    let r = q.rewound();
    assert forall|i: int| 0 <= i < q.meta.len() implies r.entry(i) == q.entry(i) by {
        lemma_same_entry(q, r, i);
    }
    assert(BufferView::Ring(r).entries() =~= BufferView::Ring(q).entries());
}

/// An entry that is added behind the queue, with octets that were behind the queue,
/// leaves the other entries as they are.
proof fn lemma_pushed_entries<H>(q: RingQueue<H>, r: RingQueue<H>, n: int, c: Seq<u8>)
    requires
        q.inv(),
        q.meta.len() < q.meta_cap,
        0 <= n <= q.payload.contiguous_window(),
        n <= c.len() <= q.payload.contiguous_window(),
        r.meta == q.meta.push(r.meta.last()),
        r.meta.len() == q.meta.len() + 1,
        r.meta.last().size == n,
        r.metadata_base == q.metadata_base,
        r.payload == (RingView {
            storage: slices::splice(q.payload.storage, q.payload.index(q.payload.length), c),
            ..q.payload.grown(n)
        }),
    ensures
        BufferView::Ring(r).entries() == BufferView::Ring(q).entries().push(
            Packet {
                handle: PacketHandle(packet_model::add32(q.metadata_base, q.meta.len() as int)),
                header: r.meta.last().header,
                payload: c.take(n),
                next_egress: r.meta.last().next_egress,
            },
        ),
{
    let at = q.payload.index(q.payload.length);
    assert forall|k: int| 0 <= k < q.payload.length implies #[trigger] r.payload.data()[k]
        == q.payload.data()[k] by {
        let j = q.payload.index(k);
        assert(r.payload.index(k) == j);
        assert(!(at <= j < at + c.len()));
    }
    assert forall|k: int| 0 <= k < n implies #[trigger] r.payload.data()[q.payload.length + k]
        == c[k] by {
        assert(r.payload.index(q.payload.length + k) == at + k);
    }
    packet_model::lemma_sum_take(packet_model::sizes(q.meta), 0, q.meta.len() as int);
    assert(packet_model::sizes(r.meta).take(q.meta.len() as int) =~= packet_model::sizes(q.meta));
    assert forall|i: int| 0 <= i < q.meta.len() implies r.entry(i) == q.entry(i) by {
        assert(packet_model::sizes(r.meta).take(i) =~= packet_model::sizes(q.meta).take(i));
        lemma_same_entry(q, r, i);
    }
    assert(r.entry(q.meta.len() as int).payload =~= c.take(n));
    assert(BufferView::Ring(r).entries() =~= BufferView::Ring(q).entries().push(
        Packet {
            handle: PacketHandle(packet_model::add32(q.metadata_base, q.meta.len() as int)),
            header: r.meta.last().header,
            payload: c.take(n),
            next_egress: r.meta.last().next_egress,
        },
    ));
}

/// Padding the storage adds an entry that is no packet.
proof fn lemma_padded_packets<H>(q: RingQueue<H>)
    requires
        q.inv(),
        q.meta.len() < q.meta_cap,
    ensures
        BufferView::Ring(q.padded()).packets() == BufferView::Ring(q).packets(),
        q.padded().inv(),
{
    let r = q.padded();
    let n = q.payload.contiguous_window();
    let at = q.payload.index(q.payload.length);
    let c = q.payload.storage.subrange(at, at + n);
    assert(slices::splice(q.payload.storage, at, c) =~= q.payload.storage);
    packet_model::lemma_pushed_inv(q, r, n);
    lemma_pushed_entries(q, r, n, c);
    let e = BufferView::Ring(q).entries();
    lemma_filter_push(e, BufferView::Ring(r).entries().last(), packet_model::has_header());
    assert(BufferView::Ring(r).entries() =~= e.push(BufferView::Ring(r).entries().last()));
}

/// Making room for a packet leaves the packets as they are.
proof fn lemma_ready_packets<H>(v: BufferView<H>, size: int)
    requires
        v.inv(),
        v.fits(size),
        0 <= size,
    ensures
        v.ready(size).packets() == v.packets(),
        v.ready(size).inv(),
        v matches BufferView::Ring(q) ==> {
            let r = v.ready(size)->Ring_0;
            r.meta.len() < r.meta_cap && r.payload.contiguous_window() >= size
        },
{
    match v {
        BufferView::Ring(q) => {
            packet_model::lemma_rewound_inv(q);
            lemma_rewound_entries(q);
            let w = q.rewound();
            if q.room(size) is Wrapped {
                lemma_padded_packets(w);
            }
        },
        BufferView::Slots(_) => {},
    }
}

/// A packet that is enqueued comes last, with the handle that was handed out and the
/// octets that were written; the packets before it are as they were.
pub proof fn law_enqueued_comes_last<H>(
    v: BufferView<H>,
    size: usize,
    header: H,
    content: Seq<u8>,
)
    requires
        v.inv(),
        v.fits(size as int),
        content.len() == size,
    ensures
        v.ready(size as int).stored(size, header, None, content).inv(),
        v.ready(size as int).stored(size, header, None, content).packets() == v.packets().push(
            Packet {
                handle: v.ready(size as int).next_handle(),
                header: Some(header),
                payload: content,
                next_egress: None,
            },
        ),
{
    let w = v.ready(size as int);
    let r = w.stored(size, header, None, content);
    let new = Packet {
        handle: w.next_handle(),
        header: Some(header),
        payload: content,
        next_egress: None,
    };
    lemma_ready_packets(v, size as int);
    assert(content.take(size as int) =~= content);
    match w {
        BufferView::Ring(q) => {
            packet_model::lemma_pushed_inv(q, r->Ring_0, size as int);
            lemma_pushed_entries(q, r->Ring_0, size as int, content);
        },
        BufferView::Slots(a) => {
            lemma_stored_entries(a, size, header, content);
        },
    }
    assert(r.entries() =~= w.entries().push(new));
    lemma_filter_push(w.entries(), new, packet_model::has_header());
}

/// A packet in a slot of its own leaves the others as they are.
proof fn lemma_stored_entries<H>(a: SlotArena<H>, size: usize, header: H, content: Seq<u8>)
    requires
        a.inv(),
        a.free.len() > 0,
        size <= a.slot_size,
        content.len() == size,
    ensures
        a.stored(size, header, None, content).inv(),
        BufferView::Slots(a.stored(size, header, None, content)).entries() == BufferView::Slots(
            a,
        ).entries().push(
            Packet {
                handle: a.next_handle(),
                header: Some(header),
                payload: content,
                next_egress: None,
            },
        ),
{
    let c = a.claimed(size, header);
    let r = a.stored(size, header, None, content);
    packet_model::lemma_claimed_inv(a, size, header);
    packet_model::lemma_payload_changed_inv(c, r);
    assert(a.free_at(0));
    let f = a.free[0] as int;
    packet_model::lemma_slot_bounds(a, f);
    assert forall|i: int| 0 <= i < a.fifo.len() implies r.entry(i) == a.entry(i) by {
        assert(a.packet_at(i));
        assert(a.fifo[i] != a.free[0]);
        let s = a.fifo[i] as int;
        packet_model::lemma_slot_bounds(a, s);
        lemma_slots_apart(s, f, a.slot_size);
        assert(r.entry(i).payload =~= a.entry(i).payload);
    }
    assert(r.entry(a.fifo.len() as int).payload =~= content);
    assert(BufferView::Slots(r).entries() =~= BufferView::Slots(a).entries().push(
        Packet {
            handle: a.next_handle(),
            header: Some(header),
            payload: content,
            next_egress: None,
        },
    ));
}

/// Two slots have no octet in common.
proof fn lemma_slots_apart(s: int, f: int, z: int)
    requires
        s != f,
        0 <= z,
    ensures
        s * z + z <= f * z || f * z + z <= s * z,
{
    if s < f {
        assert(s * z + z <= f * z) by (nonlinear_arith)
            requires
                s + 1 <= f,
                0 <= z,
        ;
    } else {
        assert(f * z + z <= s * z) by (nonlinear_arith)
            requires
                f + 1 <= s,
                0 <= z,
        ;
    }
}

/// A packet that there is no room for changes nothing.
pub proof fn law_refused_changes_no_packet<H>(v: BufferView<H>, size: int)
    requires
        v.inv(),
        0 <= size,
        !v.fits(size),
    ensures
        v.refused(size).inv(),
        v.refused(size).packets() == v.packets(),
{
    match v {
        BufferView::Ring(q) => {
            packet_model::lemma_rewound_inv(q);
            lemma_rewound_entries(q);
            if q.room(size) is OnlyPadding {
                lemma_padded_packets(q.rewound());
            }
        },
        BufferView::Slots(_) => {},
    }
}

/// Removing the first entry of a ring leaves the others as they are.
proof fn lemma_popped_entries<H>(q: RingQueue<H>)
    requires
        q.inv(),
        q.meta.len() > 0,
    ensures
        q.popped().inv(),
        BufferView::Ring(q.popped()).entries() == BufferView::Ring(q).entries().skip(1),
{
    let r = q.popped();
    let n = q.meta[0].size as int;
    packet_model::lemma_popped_inv(q);
    packet_model::lemma_entry_bounds(q, 0);
    q.payload.law_dequeued_leaves_front(n);
    assert(packet_model::sizes(r.meta) =~= packet_model::sizes(q.meta).skip(1));
    assert forall|i: int| 0 <= i < r.meta.len() implies r.entry(i) == q.entry(i + 1) by {
        packet_model::lemma_sum_skip(packet_model::sizes(q.meta), i);
        packet_model::lemma_entry_bounds(q, i + 1);
        packet_model::lemma_entry_bounds(r, i);
        assert(r.entry(i).payload =~= q.entry(i + 1).payload);
    }
    assert(BufferView::Ring(r).entries() =~= BufferView::Ring(q).entries().skip(1));
}

/// Removing what is no packet at the front changes no packet.
pub proof fn law_unpadded_changes_no_packet<H>(v: BufferView<H>)
    requires
        v.inv(),
    ensures
        v.unpadded().inv(),
        v.unpadded().packets() == v.packets(),
        v.unpadded().count() > 0 ==> v.unpadded().entry(0).header is Some,
        v.unpadded().count() == 0 <==> v.packets().len() == 0,
    decreases v.count(),
{
    match v {
        BufferView::Ring(q) => {
            if q.meta.len() > 0 && q.meta[0].header is None {
                lemma_popped_entries(q);
                lemma_filter_first(v.entries(), packet_model::has_header());
                law_unpadded_changes_no_packet(BufferView::Ring(q.popped()));
            }
        },
        BufferView::Slots(a) => {
            if a.fifo.len() > 0 {
                assert(a.packet_at(0));
            }
        },
    }
    let u = v.unpadded();
    if u.count() > 0 {
        lemma_filter_first(u.entries(), packet_model::has_header());
    } else {
        reveal(Seq::filter);
        assert(u.packets() =~= Seq::empty());
    }
}

/// The packet that leaves the front is the oldest one; the others are as they were. What
/// has been removed out of order before does not outlast it: behind the last packet
/// nothing is left, and otherwise the next one is now at the front.
pub proof fn law_oldest_leaves_first<H>(v: BufferView<H>)
    requires
        v.inv(),
        v.packets().len() > 0,
    ensures
        v.unpadded().entry(0) == v.packets()[0],
        v.unpadded().popped().unpadded().packets() == v.packets().skip(1),
        v.unpadded().popped().unpadded().inv(),
        v.packets().len() > 1 ==> v.unpadded().popped().unpadded().entry(0) == v.packets()[1],
        v.packets().len() == 1 ==> v.unpadded().popped().unpadded().count() == 0
            && v.unpadded().popped().unpadded().payload_bytes() == 0,
{
    law_unpadded_changes_no_packet(v);
    let u = v.unpadded();
    lemma_filter_first(u.entries(), packet_model::has_header());
    match u {
        BufferView::Ring(q) => {
            lemma_popped_entries(q);
        },
        BufferView::Slots(a) => {
            lemma_released_entries(a, 0);
            assert(u.entries().remove(0) =~= u.entries().skip(1));
        },
    }
    assert(v.packets().skip(1) =~= u.entries().skip(1).filter(packet_model::has_header()));
    let r = u.popped();
    law_unpadded_changes_no_packet(r);
    let w = r.unpadded();
    if v.packets().len() > 1 {
        lemma_filter_first(w.entries(), packet_model::has_header());
        assert(w.packets()[0] == v.packets()[1]);
    } else {
        assert(w.packets().len() == 0);
        match w {
            BufferView::Ring(q) => {
                assert(packet_model::sizes(q.meta) =~= Seq::empty());
            },
            BufferView::Slots(a) => {
                assert(packet_model::slot_sizes(a.slots, a.fifo) =~= Seq::empty());
            },
        }
    }
}

/// Freeing a slot leaves the other packets as they are.
proof fn lemma_released_entries<H>(a: SlotArena<H>, p: int)
    requires
        a.inv(),
        0 <= p < a.fifo.len(),
    ensures
        a.released(p).inv(),
        BufferView::Slots(a.released(p)).entries() == BufferView::Slots(a).entries().remove(p),
{
    let r = a.released(p);
    packet_model::lemma_released_inv(a, p);
    assert(a.packet_at(p));
    if p > 0 {
        assert(a.packet_at(p - 1));
    }
    if p + 1 < a.fifo.len() {
        assert(a.packet_at(p + 1));
    }
    assert forall|i: int| 0 <= i < r.fifo.len() implies r.entry(i) == a.entry(
        if i < p {
            i
        } else {
            i + 1
        },
    ) by {
        let j = if i < p {
            i
        } else {
            i + 1
        };
        assert(a.packet_at(j));
        assert(r.fifo[i] == a.fifo[j]);
        assert(a.fifo[j] != a.fifo[p]);
    }
    assert(BufferView::Slots(r).entries() =~= BufferView::Slots(a).entries().remove(p));
}

/// Whatever packet is removed, the others stay as they are and in their order.
pub proof fn law_removed_leaves_others<H>(v: BufferView<H>, i: int)
    requires
        v.inv(),
        0 <= i < v.count(),
        v.entry(i).header is Some,
    ensures
        v.removed(i).inv(),
        ({
            let k = rank(v.entries(), i, packet_model::has_header());
            &&& 0 <= k < v.packets().len()
            &&& v.packets()[k] == v.entry(i)
            &&& v.removed(i).packets() == v.packets().remove(k)
        }),
{
    let e = v.entries();
    let none = Packet { header: None, ..v.entry(i) };
    lemma_filter_without(e, i, none, packet_model::has_header());
    match v {
        BufferView::Ring(q) => {
            let r = q.emptied(i);
            packet_model::lemma_entry_changed_inv(q, r);
            assert forall|j: int| 0 <= j < q.meta.len() && j != i implies r.entry(j) == q.entry(
                j,
            ) by {
                lemma_same_entry(q, r, j);
            }
            assert(r.offset(i) == q.offset(i));
            assert(BufferView::Ring(r).entries() =~= e.update(i, none));
            law_unpadded_changes_no_packet(BufferView::Ring(r));
        },
        BufferView::Slots(a) => {
            lemma_released_entries(a, i);
        },
    }
}

/// A packet that was offered and stays, unchanged by whoever saw it, leaves the whole
/// buffer as it was.
pub proof fn law_untouched_stays<H>(v: BufferView<H>, i: int)
    requires
        v.inv(),
        0 <= i < v.count(),
        v.entry(i).header is Some,
    ensures
        v.touched(i, v.entry(i).header->Some_0, v.entry(i).payload) == v,
{
    let t = v.touched(i, v.entry(i).header->Some_0, v.entry(i).payload);
    match v {
        BufferView::Ring(q) => {
            packet_model::lemma_entry_bounds(q, i);
            let r = t->Ring_0;
            assert(r.meta =~= q.meta);
            assert forall|k: int| 0 <= k < q.payload.cap() implies r.payload.storage[k]
                == q.payload.storage[k] by {
                let at = q.payload.index(q.offset(i));
                if at <= k < at + q.meta[i].size {
                    assert(q.payload.index(q.offset(i) + (k - at)) == k);
                }
            }
            assert(r.payload.storage =~= q.payload.storage);
        },
        BufferView::Slots(a) => {
            assert(a.packet_at(i));
            packet_model::lemma_slot_bounds(a, a.fifo[i] as int);
            let b = t->Slots_0;
            assert(b.slots =~= a.slots);
            assert(b.payload =~= a.payload);
        },
    }
}

/// Among slots, what is removed can be used again at once, whatever is still there.
pub proof fn law_slot_is_free_at_once<H>(a: SlotArena<H>, i: int, size: int)
    requires
        a.inv(),
        0 <= i < a.fifo.len(),
        0 <= size <= a.slot_size,
    ensures
        BufferView::Slots(a).removed(i).fits(size),
{
}

/// In a ring, nothing is lost for good: once the last packet has been removed, in
/// whatever order they went, every packet that the storage can hold fits again.
pub proof fn law_empty_ring_has_all_its_room<H>(q: RingQueue<H>, size: int)
    requires
        q.inv(),
        BufferView::Ring(q).packets().len() == 0,
        0 <= size <= q.payload.cap(),
        q.meta_cap > 0,
    ensures
        BufferView::Ring(q).unpadded().fits(size),
{
    let u = BufferView::Ring(q).unpadded();
    law_unpadded_changes_no_packet(BufferView::Ring(q));
    lemma_unpadded_caps(q);
    let r = u->Ring_0;
    assert(packet_model::sizes(r.meta) =~= Seq::empty());
}

proof fn lemma_unpadded_caps<H>(q: RingQueue<H>)
    ensures
        q.unpadded().meta_cap == q.meta_cap,
        q.unpadded().payload.cap() == q.payload.cap(),
    decreases q.meta.len(),
{
    if q.meta.len() > 0 && q.meta[0].header is None {
        lemma_unpadded_caps(q.popped());
    }
}

} // verus!
