//! A queue in a fixed piece of storage.
use super::slices;
use managed::ManagedSlice;
use vstd::prelude::*;

verus! {

/// Error returned when enqueuing into a full buffer.
#[derive(Debug, Clone, Copy, PartialEq, Eq, Structural)]
pub struct Full;

/// Error returned when dequeuing from an empty buffer.
#[derive(Debug, Clone, Copy, PartialEq, Eq, Structural)]
pub struct Empty;

/// A ring buffer: a queue of elements in a fixed piece of storage.
///
/// The elements that are not allocated to the queue (the window) can be written
/// at any offset, and joined to the end of the queue afterwards.
#[verifier::reject_recursive_types(T)]
pub struct RingBuffer<'a, T> {
    pub storage: ManagedSlice<'a, T>,
    pub read_at: usize,
    pub length: usize,
}

/// What a ring buffer holds: its storage, the position in the storage of the
/// first element of the queue, and the number of elements in the queue.
#[verifier::ext_equal]
pub struct RingView<T> {
    pub storage: Seq<T>,
    pub read_at: int,
    pub length: int,
}

impl<T> RingView<T> {
    /// The number of elements that the storage has room for.
    pub open spec fn cap(self) -> int {
        self.storage.len() as int
    }

    /// The number of elements that the queue has room for beside those it holds.
    pub open spec fn window(self) -> int {
        self.cap() - self.length
    }

    /// The position in the storage of the element at offset `i` from the front.
    pub open spec fn index(self, i: int) -> int {
        if self.read_at + i < self.cap() {
            self.read_at + i
        } else {
            self.read_at + i - self.cap()
        }
    }

    pub open spec fn inv(self) -> bool {
        &&& 0 <= self.length <= self.cap()
        &&& 0 <= self.read_at
        &&& self.read_at < self.cap() || self.read_at == 0
    }

    /// The elements of the queue, from its front to its back.
    pub open spec fn data(self) -> Seq<T> {
        Seq::new(self.length as nat, |i: int| self.storage[self.index(i)])
    }

    /// The unallocated elements, in the order in which they follow the queue.
    pub open spec fn free(self) -> Seq<T> {
        Seq::new(self.window() as nat, |i: int| self.storage[self.index(self.length + i)])
    }

    /// The number of unallocated elements that follow the queue without a wrap.
    pub open spec fn contiguous_window(self) -> int {
        let until_end = self.cap() - self.index(self.length);
        if self.window() < until_end {
            self.window()
        } else {
            until_end
        }
    }

    /// The number of elements at the front of the queue up to the wrap.
    pub open spec fn contiguous_len(self) -> int {
        let until_end = self.cap() - self.read_at;
        if self.length < until_end {
            self.length
        } else {
            until_end
        }
    }

    /// The longest run of unallocated elements behind the queue.
    pub open spec fn enqueue_run(self) -> Seq<T> {
        let from = self.index(self.length);
        self.storage.subrange(from, from + self.contiguous_window())
    }

    /// The longest run of elements at the front of the queue.
    pub open spec fn dequeue_run(self) -> Seq<T> {
        self.storage.subrange(self.read_at, self.read_at + self.contiguous_len())
    }

    /// The empty queue, at the start of the storage.
    pub open spec fn cleared(self) -> RingView<T> {
        RingView { read_at: 0, length: 0, ..self }
    }

    /// An empty queue moves to the start of the storage, for the longest run
    /// without a wrap.
    pub open spec fn rewound(self) -> RingView<T> {
        if self.length == 0 {
            RingView { read_at: 0, ..self }
        } else {
            self
        }
    }

    /// `n` unallocated elements join the end of the queue.
    pub open spec fn grown(self, n: int) -> RingView<T> {
        RingView { length: self.length + n, ..self }
    }

    /// `n` elements leave the front of the queue.
    pub open spec fn shrunk(self, n: int) -> RingView<T> {
        RingView { read_at: self.index(n), length: self.length - n, ..self }
    }

    /// The run of elements from offset `offset` of the queue: at most `size` of
    /// them, not past the end of the queue and not past the wrap.
    pub open spec fn allocated_len(self, offset: int, size: int) -> int {
        if offset > self.length {
            0
        } else {
            let n = if size > self.length - offset {
                self.length - offset
            } else {
                size
            };
            let until_end = self.cap() - self.index(offset);
            if n > until_end {
                until_end
            } else {
                n
            }
        }
    }

    /// How many of `size` elements can be written from offset `offset` behind the
    /// queue.
    pub open spec fn writable(self, offset: int, size: int) -> int {
        if offset > self.window() {
            0
        } else if size > self.window() - offset {
            self.window() - offset
        } else {
            size
        }
    }

    /// How many of `size` elements can be read from offset `offset` of the queue.
    pub open spec fn readable(self, offset: int, size: int) -> int {
        if offset > self.length {
            0
        } else if size > self.length - offset {
            self.length - offset
        } else {
            size
        }
    }

    /// The storage after `d` has been written to the unallocated elements from
    /// offset `offset` behind the queue.
    pub open spec fn written(self, offset: int, d: Seq<T>) -> RingView<T> {
        RingView {
            storage: Seq::new(
                self.storage.len(),
                |k: int|
                    {
                        let from = self.index(self.length + offset);
                        if from <= k < from + d.len() {
                            d[k - from]
                        } else if from <= k + self.cap() < from + d.len() {
                            d[k + self.cap() - from]
                        } else {
                            self.storage[k]
                        }
                    },
            ),
            ..self
        }
    }
}

impl<'a, T> View for RingBuffer<'a, T> {
    type V = RingView<T>;

    open spec fn view(&self) -> RingView<T> {
        RingView {
            storage: slices::contents(self.storage),
            read_at: self.read_at as int,
            length: self.length as int,
        }
    }
}

impl<'a, T> RingBuffer<'a, T> {
    pub open spec fn inv(&self) -> bool {
        self@.inv()
    }

    /// An empty ring buffer in the given storage.
    pub fn new(storage: ManagedSlice<'a, T>) -> (r: RingBuffer<'a, T>)
        ensures
            r@ == (RingView { storage: slices::contents(storage), read_at: 0, length: 0 }),
            r.inv(),
    {
        RingBuffer { storage, read_at: 0, length: 0 }
    }

    /// Drops every element.
    pub fn clear(&mut self)
        ensures
            final(self)@ == old(self)@.cleared(),
            final(self).inv(),
    {
        self.read_at = 0;
        self.length = 0;
    }

    /// The number of elements that the storage has room for.
    pub fn capacity(&self) -> (r: usize)
        ensures
            r == self@.cap(),
    {
        slices::managed_ref(&self.storage).len()
    }

    /// The number of elements in the queue.
    pub fn len(&self) -> (r: usize)
        ensures
            r == self@.length,
    {
        self.length
    }

    /// The number of elements that can be added to the queue.
    pub fn window(&self) -> (r: usize)
        requires
            self.inv(),
        ensures
            r == self@.window(),
    {
        self.capacity() - self.length
    }

    /// The number of elements that can be added without a wrap.
    pub fn contiguous_window(&self) -> (r: usize)
        requires
            self.inv(),
        ensures
            r == self@.contiguous_window(),
    {
        let window: usize = self.window();
        let until_end: usize = self.capacity() - self.get_idx(self.length);
        if window < until_end {
            window
        } else {
            until_end
        }
    }

    pub fn is_empty(&self) -> (r: bool)
        ensures
            r == (self@.length == 0),
    {
        self.length == 0
    }

    pub fn is_full(&self) -> (r: bool)
        requires
            self.inv(),
        ensures
            r == (self@.length == self@.cap()),
    {
        self.window() == 0
    }

    /// The position in the storage of the element at offset `i` from the front.
    fn get_idx(&self, i: usize) -> (r: usize)
        requires
            self.inv(),
            i <= self@.cap(),
        ensures
            r == self@.index(i as int),
            r < self@.cap() || (r == 0 && self@.cap() == 0),
    {
        let cap: usize = self.capacity();
        let until_end: usize = cap - self.read_at;
        if i < until_end {
            self.read_at + i
        } else {
            i - until_end
        }
    }

    /// Adds the element behind the queue to the queue, and hands it out.
    pub fn enqueue_one(&mut self) -> (ret: Result<&mut T, Full>)
        requires
            old(self).inv(),
        ensures
            final(self).inv(),
            old(self)@.window() == 0 <==> ret is Err,
            match ret {
                Err(_) => final(self)@ == old(self)@,
                Ok(slot) => {
                    let at = old(self)@.index(old(self)@.length);
                    &&& *slot == old(self)@.storage[at]
                    &&& final(self)@ == (RingView {
                        storage: old(self)@.storage.update(at, *final(slot)),
                        ..old(self)@.grown(1)
                    })
                },
            },
    {
        let cap: usize = self.capacity();
        if self.length == cap {
            return Err(Full);
        }
        let index: usize = self.get_idx(self.length);
        self.length = self.length + 1;
        Ok(&mut slices::managed_mut(&mut self.storage)[index])
    }

    /// Calls `f` with the longest run of elements behind the queue, and adds as
    /// many of them to the queue as `f` says.
    pub fn enqueue_many_with<'b, F, R>(&'b mut self, f: F) -> (ret: (usize, R))
        where F: FnOnce(&'b mut [T]) -> (usize, R)
        requires
            old(self).inv(),
            forall|s: &mut [T]|
                s@ == old(self)@.rewound().enqueue_run() ==> #[trigger] f.requires((s,)),
            forall|s: &mut [T], out: (usize, R)|
                s@ == old(self)@.rewound().enqueue_run() && #[trigger] f.ensures((s,), out) ==> {
                    &&& out.0 <= s@.len()
                    &&& final(s)@.len() == s@.len()
                },
        ensures
            final(self).inv(),
            exists|s: &mut [T]|
                {
                    let v = old(self)@.rewound();
                    &&& #[trigger] f.ensures((s,), ret)
                    &&& s@ == v.enqueue_run()
                    &&& final(s)@.len() == s@.len()
                    &&& final(self)@ == (RingView {
                        storage: slices::splice(v.storage, v.index(v.length), final(s)@),
                        ..v.grown(ret.0 as int)
                    })
                },
    {
        let cap: usize = self.capacity();
        if self.length == 0 {
            self.read_at = 0;
        }
        let write_at: usize = self.get_idx(self.length);
        let max_size: usize = self.contiguous_window();
        let run = slices::part_mut(
            slices::managed_mut(&mut self.storage),
            write_at,
            write_at + max_size,
        );
        let (size, result) = f(run);
        self.length = self.length + size;
        (size, result)
    }

    /// Calls `f` with the longest run of elements from the front of the queue,
    /// and removes as many of them from the queue as `f` says.
    pub fn dequeue_many_with<'b, F, R>(&'b mut self, f: F) -> (ret: (usize, R))
        where F: FnOnce(&'b mut [T]) -> (usize, R)
        requires
            old(self).inv(),
            forall|s: &mut [T]| s@ == old(self)@.dequeue_run() ==> #[trigger] f.requires((s,)),
            forall|s: &mut [T], out: (usize, R)|
                s@ == old(self)@.dequeue_run() && #[trigger] f.ensures((s,), out) ==> {
                    &&& out.0 <= s@.len()
                    &&& final(s)@.len() == s@.len()
                },
        ensures
            final(self).inv(),
            exists|s: &mut [T]|
                {
                    let v = old(self)@;
                    &&& #[trigger] f.ensures((s,), ret)
                    &&& s@ == v.dequeue_run()
                    &&& final(s)@.len() == s@.len()
                    &&& final(self)@ == (RingView {
                        storage: slices::splice(v.storage, v.read_at, final(s)@),
                        ..v.shrunk(ret.0 as int)
                    })
                },
    {
        let cap: usize = self.capacity();
        let at: usize = self.read_at;
        let until_end: usize = cap - at;
        let max_size: usize = if self.length < until_end {
            self.length
        } else {
            until_end
        };
        let run = slices::part_mut(slices::managed_mut(&mut self.storage), at, at + max_size);
        let (size, result) = f(run);
        self.read_at = if size < until_end {
            at + size
        } else {
            size - until_end
        };
        self.length = self.length - size;
        (size, result)
    }

    /// Adds at most `size` elements to the queue, as many as follow it without a
    /// wrap, and hands them out.
    pub fn enqueue_many(&mut self, size: usize) -> (r: &mut [T])
        requires
            old(self).inv(),
        ensures
            ({
                let v = old(self)@.rewound();
                let n = if size < v.contiguous_window() {
                    size as int
                } else {
                    v.contiguous_window()
                };
                &&& r@ == v.enqueue_run().take(n)
                &&& final(r)@.len() == n ==> final(self).inv()
                &&& final(r)@.len() == n ==> final(self)@ == (RingView {
                    storage: slices::splice(v.storage, v.index(v.length), final(r)@),
                    ..v.grown(n)
                })
            }),
    {
        let cap: usize = self.capacity();
        if self.length == 0 {
            self.read_at = 0;
        }
        let write_at: usize = self.get_idx(self.length);
        let max_size: usize = self.contiguous_window();
        let n: usize = if size < max_size {
            size
        } else {
            max_size
        };
        self.length = self.length + n;
        slices::part_mut(slices::managed_mut(&mut self.storage), write_at, write_at + n)
    }

    /// Removes at most `size` elements from the front of the queue, as many as
    /// there are up to the wrap, and hands them out.
    pub fn dequeue_many(&mut self, size: usize) -> (r: &mut [T])
        requires
            old(self).inv(),
        ensures
            ({
                let v = old(self)@;
                let n = if size < v.contiguous_len() {
                    size as int
                } else {
                    v.contiguous_len()
                };
                &&& r@ == v.dequeue_run().take(n)
                &&& final(r)@.len() == n ==> final(self).inv()
                &&& final(r)@.len() == n ==> final(self)@ == (RingView {
                    storage: slices::splice(v.storage, v.read_at, final(r)@),
                    ..v.shrunk(n)
                })
            }),
    {
        let cap: usize = self.capacity();
        let at: usize = self.read_at;
        let until_end: usize = cap - at;
        let max_size: usize = if self.length < until_end {
            self.length
        } else {
            until_end
        };
        let n: usize = if size < max_size {
            size
        } else {
            max_size
        };
        self.read_at = self.get_idx(n);
        self.length = self.length - n;
        slices::part_mut(slices::managed_mut(&mut self.storage), at, at + n)
    }

    /// The element at position `index` of the storage.
    pub fn slot(&self, index: usize) -> (r: Option<&T>)
        ensures
            r == if index < self@.cap() {
                Some(&self@.storage[index as int])
            } else {
                None
            },
    {
        let storage = slices::managed_ref(&self.storage);
        if index < storage.len() {
            Some(&storage[index])
        } else {
            None
        }
    }

    /// The element at position `index` of the storage, mutably.
    pub fn slot_mut(&mut self, index: usize) -> (r: &mut T)
        requires
            index < old(self)@.cap(),
        ensures
            *r == old(self)@.storage[index as int],
            final(self)@ == (RingView {
                storage: old(self)@.storage.update(index as int, *final(r)),
                ..old(self)@
            }),
    {
        &mut slices::managed_mut(&mut self.storage)[index]
    }

    /// The position in the storage of the element behind the queue.
    pub fn write_position(&self) -> (r: usize)
        requires
            self.inv(),
        ensures
            r == self@.index(self@.length),
    {
        self.get_idx(self.length)
    }

    /// Adds `count` unallocated elements to the queue.
    pub fn enqueue_unallocated(&mut self, count: usize)
        requires
            old(self).inv(),
            count <= old(self)@.window(),
        ensures
            final(self).inv(),
            final(self)@ == old(self)@.grown(count as int),
    {
        let cap: usize = self.capacity();
        self.length = self.length + count;
    }

    /// Removes `count` elements from the front of the queue.
    pub fn dequeue_allocated(&mut self, count: usize)
        requires
            old(self).inv(),
            count <= old(self)@.length,
        ensures
            final(self).inv(),
            final(self)@ == old(self)@.shrunk(count as int),
    {
        self.read_at = self.get_idx(count);
        self.length = self.length - count;
    }

    /// The run of elements from offset `offset` of the queue: at most `size` of
    /// them, up to the end of the queue or the wrap.
    pub fn get_allocated(&self, offset: usize, size: usize) -> (r: &[T])
        requires
            self.inv(),
        ensures
            r@.len() == self@.allocated_len(offset as int, size as int),
            offset <= self@.length ==> r@ == self@.data().subrange(
                offset as int,
                offset + self@.allocated_len(offset as int, size as int),
            ),
    {
        let storage = slices::managed_ref(&self.storage);
        if offset > self.length {
            return vstd::slice::slice_subrange(storage, 0, 0);
        }
        let start_at: usize = self.get_idx(offset);
        let left: usize = self.length - offset;
        let n: usize = if size > left {
            left
        } else {
            size
        };
        let until_end: usize = storage.len() - start_at;
        let n: usize = if n > until_end {
            until_end
        } else {
            n
        };
        let r = vstd::slice::slice_subrange(storage, start_at, start_at + n);
        assert(r@ =~= self@.data().subrange(offset as int, offset + n));
        r
    }
}

impl<'a, T> RingBuffer<'a, T> {
    /// The element at offset `offset` of the queue.
    pub fn get(&self, offset: usize) -> (r: &T)
        requires
            self.inv(),
            offset < self@.length,
        ensures
            *r == self@.data()[offset as int],
    {
        let at: usize = self.get_idx(offset);
        &slices::managed_ref(&self.storage)[at]
    }

    /// The element at offset `offset` of the queue, mutably.
    pub fn get_mut(&mut self, offset: usize) -> (r: &mut T)
        requires
            old(self).inv(),
            offset < old(self)@.length,
        ensures
            final(self).inv(),
            *r == old(self)@.data()[offset as int],
            final(self)@ == (RingView {
                storage: old(self)@.storage.update(
                    old(self)@.index(offset as int),
                    *final(r),
                ),
                ..old(self)@
            }),
            final(self)@.data() == old(self)@.data().update(offset as int, *final(r)),
    {
        let at: usize = self.get_idx(offset);
        let ghost v = self@;
        assert forall|x: T| #[trigger]
            (RingView { storage: v.storage.update(v.index(offset as int), x), ..v }).data()
                == v.data().update(offset as int, x) by {
            v.lemma_set_data(offset as int, x);
        }
        &mut slices::managed_mut(&mut self.storage)[at]
    }

    /// The run of elements from offset `offset` of the queue, mutably: at most
    /// `size` of them, up to the end of the queue or the wrap.
    pub fn get_allocated_mut(&mut self, offset: usize, size: usize) -> (r: &mut [T])
        requires
            old(self).inv(),
            offset <= old(self)@.length,
        ensures
            r@.len() == old(self)@.allocated_len(offset as int, size as int),
            r@ == old(self)@.data().subrange(
                offset as int,
                offset + old(self)@.allocated_len(offset as int, size as int),
            ),
            final(r)@.len() == r@.len() ==> final(self).inv() && final(self)@ == (RingView {
                storage: slices::splice(
                    old(self)@.storage,
                    old(self)@.index(offset as int),
                    final(r)@,
                ),
                ..old(self)@
            }),
    {
        let cap: usize = self.capacity();
        let start_at: usize = self.get_idx(offset);
        let left: usize = self.length - offset;
        let n: usize = if size > left {
            left
        } else {
            size
        };
        let until_end: usize = cap - start_at;
        let n: usize = if n > until_end {
            until_end
        } else {
            n
        };
        let ghost v = self@;
        assert(v.storage.subrange(start_at as int, start_at + n) =~= v.data().subrange(
            offset as int,
            offset + n,
        ));
        slices::part_mut(slices::managed_mut(&mut self.storage), start_at, start_at + n)
    }

    /// Elements `from` up to `to` of the storage, mutably.
    pub fn storage_range_mut(&mut self, from: usize, to: usize) -> (r: &mut [T])
        requires
            from <= to <= old(self)@.cap(),
        ensures
            r@ == old(self)@.storage.subrange(from as int, to as int),
            final(r)@.len() == r@.len() ==> final(self)@ == (RingView {
                storage: slices::splice(old(self)@.storage, from as int, final(r)@),
                ..old(self)@
            }),
    {
        slices::part_mut(slices::managed_mut(&mut self.storage), from, to)
    }

    /// Elements `from` up to `to` of the storage.
    pub fn storage_range(&self, from: usize, to: usize) -> (r: &[T])
        requires
            from <= to <= self@.cap(),
        ensures
            r@ == self@.storage.subrange(from as int, to as int),
    {
        vstd::slice::slice_subrange(slices::managed_ref(&self.storage), from, to)
    }
}

impl<'a, T: Copy> RingBuffer<'a, T> {
    /// Writes as much of `data` as there is room for behind the queue, from
    /// offset `offset` on, and returns how much that was.
    pub fn write_unallocated(&mut self, offset: usize, data: &[T]) -> (r: usize)
        requires
            old(self).inv(),
        ensures
            final(self).inv(),
            r == old(self)@.writable(offset as int, data@.len() as int),
            final(self)@ == old(self)@.written(offset as int, data@.take(r as int)),
    {
        let window: usize = self.window();
        if offset >= window {
            assert(self@ =~= old(self)@.written(offset as int, data@.take(0)));
            return 0;
        }
        let cap: usize = self.capacity();
        let n: usize = if data.len() > window - offset {
            window - offset
        } else {
            data.len()
        };
        let ghost v = self@;
        let ghost from = v.index(v.length + offset);
        let mut i: usize = 0;
        while i < n
            invariant
                i <= n <= data@.len(),
                n <= v.window() - offset,
                v.inv(),
                v == old(self)@,
                v.cap() == cap,
                from == v.index(v.length + offset),
                self@.read_at == v.read_at,
                self@.length == v.length,
                self@.storage =~= v.written(offset as int, data@.take(i as int)).storage,
            decreases n - i,
        {
            let at: usize = self.get_idx(self.length + offset + i);
            slices::managed_mut(&mut self.storage)[at] = data[i];
            i = i + 1;
        }
        n
    }

    /// Adds as much of `data` to the queue as there is room for, and returns how
    /// much that was.
    pub fn enqueue_slice(&mut self, data: &[T]) -> (r: usize)
        requires
            old(self).inv(),
        ensures
            final(self).inv(),
            r == old(self)@.writable(0, data@.len() as int),
            final(self)@ == old(self)@.rewound().written(0, data@.take(r as int)).grown(r as int),
    {
        if self.length == 0 {
            self.read_at = 0;
        }
        let n: usize = self.write_unallocated(0, data);
        self.enqueue_unallocated(n);
        n
    }

    /// Copies elements from offset `offset` of the queue to `data`, and returns
    /// how many there were.
    pub fn read_allocated(&self, offset: usize, data: &mut [T]) -> (r: usize)
        requires
            self.inv(),
        ensures
            r == self@.readable(offset as int, old(data)@.len() as int),
            final(data)@ == slices::splice(
                old(data)@,
                0,
                self@.data().skip(offset as int).take(r as int),
            ),
    {
        if offset >= self.length {
            assert(data@ =~= slices::splice(data@, 0, self@.data().skip(offset as int).take(0)));
            return 0;
        }
        let n: usize = if data.len() > self.length - offset {
            self.length - offset
        } else {
            data.len()
        };
        let cap: usize = self.capacity();
        let mut i: usize = 0;
        while i < n
            invariant
                i <= n <= data@.len(),
                n <= self@.length - offset,
                self.inv(),
                self@.cap() == cap,
                data@ =~= slices::splice(
                    old(data)@,
                    0,
                    self@.data().skip(offset as int).take(i as int),
                ),
            decreases n - i,
        {
            let at: usize = self.get_idx(offset + i);
            data[i] = slices::managed_ref(&self.storage)[at];
            i = i + 1;
        }
        n
    }

    /// Moves elements from the front of the queue to `data`, and returns how many
    /// there were.
    pub fn dequeue_slice(&mut self, data: &mut [T]) -> (r: usize)
        requires
            old(self).inv(),
        ensures
            final(self).inv(),
            r == old(self)@.readable(0, old(data)@.len() as int),
            final(data)@ == slices::splice(old(data)@, 0, old(self)@.data().take(r as int)),
            final(self)@ == old(self)@.shrunk(r as int),
    {
        let n: usize = self.read_allocated(0, data);
        proof {
            assert(self@.data().skip(0) =~= self@.data());
        }
        self.dequeue_allocated(n);
        n
    }
}

impl<T> RingView<T> {
    /// Replacing an element of the queue.
    pub proof fn lemma_set_data(self, i: int, x: T)
        requires
            self.inv(),
            0 <= i < self.length,
        ensures
            (RingView { storage: self.storage.update(self.index(i), x), ..self }).data()
                == self.data().update(i, x),
    {
        assert((RingView { storage: self.storage.update(self.index(i), x), ..self }).data()
            =~= self.data().update(i, x));
    }

    /// Adding an element to the queue.
    pub proof fn lemma_push_data(self, x: T)
        requires
            self.inv(),
            self.window() > 0,
        ensures
            (RingView {
                storage: self.storage.update(self.index(self.length), x),
                ..self.grown(1)
            }).data() == self.data().push(x),
    {
        assert((RingView {
            storage: self.storage.update(self.index(self.length), x),
            ..self.grown(1)
        }).data() =~= self.data().push(x));
    }

    /// What is written right behind the queue and then added to it comes last in
    /// the queue, and the rest of the queue is as it was.
    pub proof fn law_enqueued_comes_last(self, d: Seq<T>)
        requires
            self.inv(),
            d.len() <= self.window(),
        ensures
            self.rewound().written(0, d).grown(d.len() as int).data() == self.data() + d,
            self.rewound().written(0, d).grown(d.len() as int).inv(),
    {
        assert(self.rewound().written(0, d).grown(d.len() as int).data() =~= self.data() + d);
    }

    /// Removing elements removes them from the front of the queue.
    pub proof fn law_dequeued_leaves_front(self, n: int)
        requires
            self.inv(),
            0 <= n <= self.length,
        ensures
            self.shrunk(n).data() == self.data().skip(n),
            self.shrunk(n).inv(),
    {
        assert(self.shrunk(n).data() =~= self.data().skip(n));
    }

    /// Writing behind the queue leaves the queue as it is, and changes just the
    /// unallocated elements that are written.
    pub proof fn law_written_behind_queue(self, offset: int, d: Seq<T>)
        requires
            self.inv(),
            0 <= offset,
            offset + d.len() <= self.window(),
        ensures
            self.written(offset, d).data() == self.data(),
            self.written(offset, d).free() == slices::splice(self.free(), offset, d),
    {
        assert(self.written(offset, d).data() =~= self.data());
        assert(self.written(offset, d).free() =~= slices::splice(self.free(), offset, d));
    }

    /// The elements added to the queue are the first unallocated ones.
    pub proof fn law_grown_takes_free(self, n: int)
        requires
            self.inv(),
            0 <= n <= self.window(),
        ensures
            self.grown(n).data() == self.data() + self.free().take(n),
            self.grown(n).free() == self.free().skip(n),
    {
        assert(self.grown(n).data() =~= self.data() + self.free().take(n));
        assert(self.grown(n).free() =~= self.free().skip(n));
    }
}

impl<T> RingView<T> {
    /// What is handed out at the front is the front of the queue, up to its end or that of
    /// the storage, and nothing only if the queue is empty.
    pub proof fn law_front_run_is_the_front(self)
        requires
            self.inv(),
        ensures
            ({
                let run = self.dequeue_run();
                &&& run == self.data().take(run.len() as int)
                &&& self.length > 0 <==> run.len() > 0
                &&& run.len() == self.length || self.read_at + run.len() == self.cap()
            }),
    {
        let n = self.contiguous_len();
        assert(self.dequeue_run() =~= self.data().take(n));
    }

    /// What is handed out to be added is the room right behind the queue, up to the oldest
    /// element or the end of the storage, all of it if the queue is empty, and nothing only if
    /// the queue is full.
    pub proof fn law_room_follows_the_queue(self)
        requires
            self.inv(),
        ensures
            ({
                let v = self.rewound();
                let run = v.enqueue_run();
                &&& v.data() == self.data()
                &&& v.window() == self.window()
                &&& run == v.free().take(run.len() as int)
                &&& self.window() > 0 <==> run.len() > 0
                &&& run.len() == self.window() || v.index(self.length) + run.len() == self.cap()
                &&& self.length == 0 ==> run.len() == self.cap()
            }),
    {
        let v = self.rewound();
        assert(v.data() =~= self.data());
        assert(v.enqueue_run() =~= v.free().take(v.contiguous_window()));
    }

    /// As much is read, or written, as is asked for and there is, or there is room for. A
    /// run ends early only at the end of the storage.
    pub proof fn law_as_much_is_moved_as_there_is(self, offset: int, size: int)
        requires
            self.inv(),
            0 <= offset,
            0 <= size,
        ensures
            ({
                let there = if offset < self.length {
                    self.length - offset
                } else {
                    0
                };
                let room = if offset < self.window() {
                    self.window() - offset
                } else {
                    0
                };
                &&& self.readable(offset, size) == if size < there {
                    size
                } else {
                    there
                }
                &&& self.writable(offset, size) == if size < room {
                    size
                } else {
                    room
                }
                &&& offset < self.length && size > 0 ==> 0 < self.allocated_len(offset, size)
                    <= self.readable(offset, size)
                &&& offset < self.length ==> self.allocated_len(offset, size) == self.readable(
                    offset,
                    size,
                ) || self.index(offset) + self.allocated_len(offset, size) == self.cap()
            }),
    {
    }

    /// An element is where the one before it is, or right behind, and the first one follows
    /// the last of the storage.
    pub proof fn law_positions_go_round(self, i: int)
        requires
            self.inv(),
            0 <= i,
            i + 1 < self.cap(),
        ensures
            self.index(0) == self.read_at,
            0 <= self.index(i) < self.cap(),
            self.index(i) + 1 < self.cap() ==> self.index(i + 1) == self.index(i) + 1,
            self.index(i) + 1 == self.cap() ==> self.index(i + 1) == 0,
    {
    }
}

/// A cleared queue is empty, all of its storage is free, and in one piece.
pub proof fn law_cleared_queue_is_all_room<T>(v: RingView<T>)
    requires
        v.inv(),
    ensures
        v.cleared().data().len() == 0,
        v.cleared().window() == v.storage.len(),
        v.cleared().contiguous_window() == v.storage.len(),
        v.cleared().storage == v.storage,
{
}

} // verus!
