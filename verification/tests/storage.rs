//! Ring buffers, slabs, reassembly and the egress queues of packet buffers.
use managed::ManagedSlice;
use xarxa::storage::packet_buffer::{PacketCursor, PacketHandle};
use xarxa::storage::{
    Assembler, Empty, Full, PacketBuffer, PacketMetadata, RingBuffer, Slab, TooManyHolesError,
};

fn ring(n: usize) -> RingBuffer<'static, u8> {
    RingBuffer::new(ManagedSlice::Owned(vec![0; n]))
}

#[test]
fn ring_queues_in_order_across_the_wrap() {
    let mut r = ring(8);
    assert_eq!(r.enqueue_slice(b"abcdef"), 6);
    let mut out = [0; 4];
    assert_eq!(r.dequeue_slice(&mut out), 4);
    assert_eq!(&out, b"abcd");
    // The rest of the storage is at its end and at its start.
    assert_eq!(r.window(), 6);
    assert_eq!(r.contiguous_window(), 2);
    assert_eq!(r.enqueue_slice(b"ghijklmn"), 6);
    assert!(r.is_full());
    assert_eq!(r.enqueue_slice(b"x"), 0);
    let mut all = [0; 8];
    assert_eq!(r.read_allocated(0, &mut all), 8);
    assert_eq!(&all, b"efghijkl");
    assert_eq!(r.get_allocated(0, 8), b"efgh");
    assert_eq!(r.dequeue_slice(&mut all), 8);
    assert!(r.is_empty());
}

#[test]
fn ring_takes_what_was_written_behind_it() {
    let mut r = ring(8);
    r.enqueue_slice(b"ab");
    assert_eq!(r.write_unallocated(2, b"ef"), 2);
    assert_eq!(r.len(), 2);
    assert_eq!(r.write_unallocated(0, b"cd"), 2);
    r.enqueue_unallocated(4);
    let mut all = [0; 6];
    assert_eq!(r.read_allocated(0, &mut all), 6);
    assert_eq!(&all, b"abcdef");
    // No more is written than there is room for.
    assert_eq!(r.write_unallocated(1, b"xyz"), 1);
    assert_eq!(r.write_unallocated(3, b"x"), 0);
    r.clear();
    assert_eq!(r.len(), 0);
    assert_eq!(r.capacity(), 8);
}

#[test]
fn borrowed_storage_is_used_in_place() {
    let mut storage = [0u8; 4];
    {
        let mut r = RingBuffer::new(ManagedSlice::Borrowed(&mut storage[..]));
        r.enqueue_slice(b"xyz");
    }
    assert_eq!(&storage, b"xyz\0");
}

#[test]
fn slab_reuses_the_first_free_slot() {
    let mut s: Slab<char, 3> = Slab::new();
    assert_eq!(s.insert('a'), Ok(0));
    assert_eq!(s.insert('b'), Ok(1));
    assert_eq!(s.insert('c'), Ok(2));
    assert_eq!(s.insert('d'), Err(Full));
    s.remove(1);
    assert!(!s.is_occupied(1));
    assert_eq!(s.next_occupied(1), Some(2));
    assert_eq!(s.next_occupied(3), None);
    assert_eq!(s.insert('e'), Ok(1));
    assert_eq!((*s.get(0), *s.get(1), *s.get(2)), ('a', 'e', 'c'));
}

#[test]
fn assembler_joins_parts() {
    let mut a = Assembler::new();
    assert_eq!(a.add_then_remove_front(4, 2), Ok(0));
    assert_eq!(a.add_then_remove_front(8, 2), Ok(0));
    assert_eq!(a.count(), 2);
    // Touching parts become one.
    assert_eq!(a.add_then_remove_front(6, 2), Ok(0));
    assert_eq!(a.count(), 1);
    assert_eq!(a.range(0), (4, 10));
    // What fills the hole takes everything behind it along.
    assert_eq!(a.add_then_remove_front(0, 5), Ok(10));
    assert!(a.is_empty());
    assert_eq!(a.add_then_remove_front(0, 3), Ok(3));
}

#[test]
fn assembler_holds_a_few_parts() {
    let mut a = Assembler::new();
    for i in 0..4 {
        assert_eq!(a.add_then_remove_front(10 * i + 10, 2), Ok(0));
    }
    assert_eq!(a.add_then_remove_front(100, 2), Err(TooManyHolesError));
    assert_eq!(a.count(), 4);
    // What is expected next always fits.
    assert_eq!(a.add_then_remove_front(0, 2), Ok(2));
    assert_eq!(a.range(0), (8, 10));
}

fn packets(metadata: usize, payload: usize) -> PacketBuffer<'static, u8> {
    PacketBuffer::new(
        ManagedSlice::Owned(vec![PacketMetadata::empty(); metadata]),
        ManagedSlice::Owned(vec![0u8; payload]),
    )
}

fn slots(metadata: usize, payload: usize) -> PacketBuffer<'static, u8> {
    PacketBuffer::new_indexed_slots(
        ManagedSlice::Owned(vec![PacketMetadata::empty(); metadata]),
        ManagedSlice::Owned(vec![0u8; payload]),
    )
}

fn put(b: &mut PacketBuffer<'static, u8>, header: u8, payload: &[u8]) -> PacketHandle {
    let (handle, room) = b.enqueue_tracked(payload.len(), header).unwrap();
    room.copy_from_slice(payload);
    handle
}

#[test]
fn egress_queue_is_followed_through_links() {
    for mut b in [packets(4, 16), slots(4, 16)] {
        let first = put(&mut b, 1, b"one");
        let other = put(&mut b, 9, b"x");
        let (second, room) = b.enqueue_tracked_linked(3, 1, Some(first)).unwrap();
        room.copy_from_slice(b"two");
        assert_eq!(b.egress_entry(first), (1, Some(second)));
        assert_eq!(b.egress_entry(second), (1, None));
        assert_eq!(b.egress_entry(other), (9, None));

        // Completing a packet yields its successor.
        let (result, next) = b.dequeue_handle_with(first, |_, payload| {
            assert_eq!(payload, b"one");
            Ok::<(), ()>(())
        });
        assert_eq!((result, next), (Ok(()), Some(second)));
        let (result, next) = b.dequeue_handle_with(second, |_, payload| {
            assert_eq!(payload, b"two");
            Ok::<(), ()>(())
        });
        assert_eq!((result, next), (Ok(()), None));
        assert_eq!(b.dequeue().unwrap().0, 9);
        assert!(matches!(b.dequeue(), Err(Empty)));
        assert!(b.is_empty());
    }
}

#[test]
fn links_are_taken_cleared_and_rebuilt() {
    for mut b in [packets(4, 16), slots(4, 16)] {
        let first = put(&mut b, 1, b"a");
        let second = put(&mut b, 2, b"b");
        let third = put(&mut b, 3, b"c");
        b.link_egress(first, second);
        assert_eq!(b.take_egress_next(first), Some(second));
        assert_eq!(b.take_egress_next(first), None);

        b.link_egress(first, second);
        b.clear_egress_links();
        assert_eq!(b.egress_entry(first), (1, None));

        // Each packet names the one that it follows.
        b.rebuild_egress_links(|handle, header| {
            if header == 1 {
                assert_eq!(handle, first);
                None
            } else if header == 2 {
                Some(first)
            } else {
                Some(second)
            }
        });
        assert_eq!(b.egress_entry(first), (1, Some(second)));
        assert_eq!(b.egress_entry(second), (2, Some(third)));
        assert_eq!(b.egress_entry(third), (3, None));
    }
}

#[test]
fn searches_go_on_where_they_ended() {
    for mut b in [packets(8, 16), slots(8, 16)] {
        for (header, payload) in [(1, b"a0"), (2, b"b0"), (1, b"a1"), (2, b"b1")] {
            put(&mut b, header, payload);
        }
        assert_eq!(b.first_header_matching(|h| *h == 2), Some(2));
        assert_eq!(b.first_header_matching(|h| *h == 3), None);

        let (selection, header) = b
            .first_header_matching_from(PacketCursor::default(), |h| *h == 2)
            .unwrap();
        assert_eq!(header, 2);
        let (result, cursor) = b.dequeue_selection_with(selection, |_, payload| {
            assert_eq!(payload, b"b0");
            Ok::<(), ()>(())
        });
        assert_eq!(result, Ok(()));
        let (selection, _) = b.first_header_matching_from(cursor, |h| *h == 2).unwrap();
        let (result, _) = b.dequeue_selection_with(selection, |_, payload| {
            assert_eq!(payload, b"b1");
            Ok::<(), ()>(())
        });
        assert_eq!(result, Ok(()));
        assert_eq!(b.dequeue().unwrap().1, b"a0");
        assert_eq!(b.dequeue().unwrap().1, b"a1");
        assert!(matches!(b.dequeue(), Err(Empty)));
    }
}

#[test]
fn infallible_enqueue_keeps_what_was_filled() {
    for mut b in [packets(4, 16), slots(2, 16)] {
        let (size, handle) = b
            .enqueue_with_infallible_tracked(8, 7, |room| {
                assert_eq!(room.len(), 8);
                room[..3].copy_from_slice(b"abc");
                3
            })
            .unwrap();
        assert_eq!(size, 3);
        assert_eq!(b.payload_bytes_count(), 3);
        assert_eq!(b.egress_entry(handle), (7, None));
        assert_eq!(b.peek().unwrap(), (&7, &b"abc"[..]));
    }
}

#[test]
fn slots_have_an_even_share() {
    let mut b = slots(4, 18);
    assert_eq!(b.packet_capacity(), 4);
    assert_eq!(b.payload_capacity(), 16);
    // A packet larger than a slot never fits.
    assert!(matches!(b.enqueue(5, 1), Err(Full)));
    assert!(b.enqueue(4, 1).is_ok());
    b.reset();
    assert!(b.is_empty());
    assert_eq!(b.payload_bytes_count(), 0);
}

#[test]
fn refused_packet_leaves_padding() {
    // The padding before the wrap takes the last entry.
    let mut b = packets(2, 16);
    put(&mut b, 1, b"first.");
    let tail = put(&mut b, 2, b"second..");
    b.dequeue().unwrap();
    assert!(matches!(b.enqueue_tracked_linked(4, 3, Some(tail)), Err(Full)));
    assert!(b.is_full());
    assert_eq!(b.egress_entry(tail), (2, None));
    assert_eq!(b.dequeue().unwrap().1, b"second..");
    assert!(matches!(b.dequeue(), Err(Empty)));
    assert!(b.is_empty());

    // A packet that is to be filled in place is linked before its entry is looked for.
    let mut b = packets(2, 16);
    put(&mut b, 1, b"first.");
    let tail = put(&mut b, 2, b"second..");
    b.dequeue().unwrap();
    let refused = b.enqueue_with_infallible_tracked_linked(4, 3, Some(tail), |_| unreachable!());
    assert!(matches!(refused, Err(Full)));
    // The padding has the number behind that of the tail, the packet would have the next.
    assert_eq!(b.egress_entry(tail), (2, Some(PacketHandle(tail.0 + 2))));
    assert_eq!(b.dequeue().unwrap().1, b"second..");
    assert!(b.is_empty());
}

#[test]
fn oldest_packet_takes_what_waited_for_it_along() {
    let mut b = packets(8, 32);
    put(&mut b, 1, b"ab");
    put(&mut b, 2, b"cd");
    assert_eq!(b.dequeue_matching_with(|h| *h == 2, |_, _| Ok::<(), ()>(())), Ok(Ok(())));
    assert_eq!(b.payload_bytes_count(), 4);
    assert_eq!(b.dequeue().unwrap(), (1, &mut b"ab".to_vec()[..]));
    assert_eq!(b.payload_bytes_count(), 0);
    assert!(b.is_empty());

    // So it does when it is handed to a closure.
    put(&mut b, 1, b"ab");
    put(&mut b, 2, b"cd");
    put(&mut b, 3, b"efg");
    assert_eq!(b.dequeue_matching_with(|h| *h == 2, |_, _| Ok::<(), ()>(())), Ok(Ok(())));
    assert_eq!(b.dequeue_with(|_, _| Err::<(), u8>(7)), Ok(Err(7)));
    assert_eq!(b.payload_bytes_count(), 7);
    assert_eq!(b.dequeue_with(|h, _| Ok::<u8, ()>(*h)), Ok(Ok(1)));
    assert_eq!(b.payload_bytes_count(), 3);
    assert_eq!(b.dequeue().unwrap().1, b"efg");
    assert!(b.is_empty());
}

#[test]
fn predicate_is_asked_of_packets_in_the_buffer() {
    let mut b = packets(4, 16);
    put(&mut b, 4, b"x");
    put(&mut b, 6, b"y");
    let mut asked = Vec::new();
    let found = b.first_header_matching(|h| {
        asked.push(*h);
        *h == 6
    });
    assert_eq!(found, Some(6));
    assert_eq!(asked, [4, 6]);
}
