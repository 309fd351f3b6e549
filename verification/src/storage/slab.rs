//! A fixed number of slots, found again by their number.
use super::Full;
use vstd::prelude::*;

verus! {

/// At most `N` values, each in a slot of its own until it is removed.
pub struct Slab<T, const N: usize> {
    pub slots: Vec<Option<T>>,
}

impl<T, const N: usize> View for Slab<T, N> {
    type V = Seq<Option<T>>;

    open spec fn view(&self) -> Seq<Option<T>> {
        self.slots@
    }
}

/// Slot `i` is taken.
pub open spec fn occupied<T>(slots: Seq<Option<T>>, i: int) -> bool {
    0 <= i < slots.len() && slots[i] is Some
}

/// Nothing but slot `i` differs, and that is taken both times.
pub open spec fn only_changed<T>(a: Seq<Option<T>>, b: Seq<Option<T>>, i: usize) -> bool {
    &&& a.len() == b.len()
    &&& occupied(a, i as int)
    &&& occupied(b, i as int)
    &&& forall|k: int| 0 <= k < a.len() && k != i ==> a[k] == b[k]
}

/// The number of the first free slot; the number of slots if all are taken.
pub open spec fn first_free<T>(slots: Seq<Option<T>>) -> int
    decreases slots.len(),
{
    if slots.len() == 0 {
        0
    } else if slots[0] is None {
        0
    } else {
        1 + first_free(slots.skip(1))
    }
}

/// The slots after `value` has been put into the first free one.
pub open spec fn added<T>(slots: Seq<Option<T>>, value: T) -> Seq<Option<T>> {
    if first_free(slots) < slots.len() {
        slots.update(first_free(slots), Some(value))
    } else {
        slots.push(Some(value))
    }
}

impl<T, const N: usize> Slab<T, N> {
    pub open spec fn inv(&self) -> bool {
        self@.len() <= N
    }

    /// No slot is taken.
    pub fn new() -> (r: Slab<T, N>)
        ensures
            r.inv(),
            r@ == Seq::<Option<T>>::empty(),
    {
        Slab { slots: Vec::new() }
    }

    /// The number of the first free slot.
    fn vacancy(&self) -> (r: usize)
        ensures
            r == first_free(self@),
            r <= self@.len(),
            forall|i: int| 0 <= i < r ==> #[trigger] occupied(self@, i),
            r < self@.len() ==> self@[r as int] is None,
    {
        let mut i: usize = 0;
        assert(self@.skip(0) =~= self@);
        while i < self.slots.len()
            invariant
                i <= self@.len(),
                first_free(self@) == i + first_free(self@.skip(i as int)),
                forall|k: int| 0 <= k < i ==> #[trigger] occupied(self@, k),
            decreases self@.len() - i,
        {
            assert(self@.skip(i as int).skip(1) =~= self@.skip(i + 1));
            if self.slots[i].is_none() {
                return i;
            }
            i = i + 1;
        }
        i
    }

    /// Puts a value into the first free slot, and returns its number.
    pub fn insert(&mut self, value: T) -> (r: Result<usize, Full>)
        requires
            old(self).inv(),
        ensures
            final(self).inv(),
            match r {
                Ok(i) => {
                    &&& i == first_free(old(self)@)
                    &&& i < N
                    &&& final(self)@ == added(old(self)@, value)
                },
                Err(_) => first_free(old(self)@) == N && final(self)@ == old(self)@,
            },
    {
        let i: usize = self.vacancy();
        if i == self.slots.len() {
            if i >= N {
                return Err(Full);
            }
            self.slots.push(Some(value));
        } else {
            self.slots[i] = Some(value);
        }
        Ok(i)
    }

    /// Frees a slot.
    pub fn remove(&mut self, index: usize)
        requires
            old(self).inv(),
            occupied(old(self)@, index as int),
        ensures
            final(self).inv(),
            final(self)@ == old(self)@.update(index as int, None),
    {
        self.slots[index] = None;
    }

    /// The number of slots that have been used.
    pub fn len(&self) -> (r: usize)
        ensures
            r == self@.len(),
    {
        self.slots.len()
    }

    pub fn is_occupied(&self, index: usize) -> (r: bool)
        ensures
            r == occupied(self@, index as int),
    {
        index < self.slots.len() && self.slots[index].is_some()
    }

    /// The value in a slot.
    pub fn get(&self, index: usize) -> (r: &T)
        requires
            occupied(self@, index as int),
        ensures
            *r == self@[index as int]->0,
    {
        match &self.slots[index] {
            Some(value) => value,
            None => vstd::pervasive::unreached(),
        }
    }

    /// The value in a slot, mutably.
    pub fn get_mut(&mut self, index: usize) -> (r: &mut T)
        requires
            occupied(old(self)@, index as int),
        ensures
            *r == old(self)@[index as int]->0,
            final(self)@ == old(self)@.update(index as int, Some(*final(r))),
    {
        match &mut self.slots[index] {
            Some(value) => value,
            None => vstd::pervasive::unreached(),
        }
    }

    /// The number of the first taken slot from `from` on.
    pub fn next_occupied(&self, from: usize) -> (r: Option<usize>)
        ensures
            match r {
                Some(i) => from <= i && occupied(self@, i as int) && forall|k: int|
                    from <= k < i ==> !#[trigger] occupied(self@, k),
                None => forall|k: int| from <= k ==> !#[trigger] occupied(self@, k),
            },
    {
        let mut i: usize = from;
        while i < self.slots.len()
            invariant
                from <= i,
                from <= self@.len() ==> i <= self@.len(),
                forall|k: int| from <= k < i ==> !#[trigger] occupied(self@, k),
            decreases self@.len() - i,
        {
            if self.slots[i].is_some() {
                return Some(i);
            }
            i = i + 1;
        }
        None
    }
}

/// What is put into a slot is found there, and the other slots keep what they
/// hold.
pub proof fn law_slot_is_found_again<T>(slots: Seq<Option<T>>, value: T, i: int)
    ensures
        occupied(added(slots, value), first_free(slots)),
        added(slots, value)[first_free(slots)] == Some(value),
        0 <= i < slots.len() && i != first_free(slots) ==> added(slots, value)[i] == slots[i],
{
    lemma_first_free(slots);
}

/// The slot freed last is used again before any behind it.
pub proof fn law_freed_slot_is_reused<T>(slots: Seq<Option<T>>, i: int)
    requires
        occupied(slots, i),
        first_free(slots) >= i,
    ensures
        first_free(slots.update(i, None)) == i,
    decreases slots.len(),
{
    let s = slots.update(i, None);
    if i > 0 {
        assert(s.skip(1) =~= slots.skip(1).update(i - 1, None));
        law_freed_slot_is_reused(slots.skip(1), i - 1);
    }
}

proof fn lemma_first_free<T>(slots: Seq<Option<T>>)
    ensures
        0 <= first_free(slots) <= slots.len(),
        first_free(slots) < slots.len() ==> slots[first_free(slots)] is None,
    decreases slots.len(),
{
    if slots.len() > 0 && slots[0] is Some {
        lemma_first_free(slots.skip(1));
    }
}

/// What is put into a slot takes the place of nothing: the first slot that is free, or a new
/// one behind the others if all are taken.
pub proof fn law_first_free_slot_is_used<T>(slots: Seq<Option<T>>, value: T, i: int)
    requires
        0 <= i < slots.len(),
    ensures
        slots[i] is Some ==> added(slots, value)[i] == slots[i],
        slots[i] is None ==> first_free(slots) <= i && added(slots, value).len() == slots.len(),
        first_free(slots) == slots.len() ==> added(slots, value) == slots.push(Some(value)),
{
    lemma_first_free(slots);
    if slots[i] is None {
        lemma_taken_before(slots, i);
    }
}

proof fn lemma_taken_before<T>(slots: Seq<Option<T>>, i: int)
    requires
        0 <= i < slots.len(),
        slots[i] is None,
    ensures
        first_free(slots) <= i,
    decreases slots.len(),
{
    if i > 0 && slots[0] is Some {
        lemma_taken_before(slots.skip(1), i - 1);
    }
}

/// A change of one slot leaves every other slot as it was, taken or not.
pub proof fn law_change_stays_in_its_slot<T>(
    a: Seq<Option<T>>,
    b: Seq<Option<T>>,
    i: usize,
    k: int,
)
    requires
        only_changed(a, b, i),
        0 <= k < a.len(),
        k != i,
    ensures
        b[k] == a[k],
        b.len() == a.len(),
        i < a.len(),
{
}

} // verus!
