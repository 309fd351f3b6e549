//! Slices that are either borrowed or owned, and operations on parts of slices.
use managed::ManagedSlice;
use vstd::prelude::*;

verus! {

/// `managed::ManagedSlice`, with its two variants in the open: a borrowed slice
/// or an owned vector. Nothing further is claimed of it.
#[verifier::external_type_specification]
#[verifier::reject_recursive_types(T)]
pub struct ExManagedSlice<'a, T: 'a>(ManagedSlice<'a, T>);

/// The elements of a managed slice, whoever owns them.
pub open spec fn contents<'a, T>(s: ManagedSlice<'a, T>) -> Seq<T> {
    match s {
        ManagedSlice::Borrowed(b) => b@,
        ManagedSlice::Owned(v) => v@,
    }
}

/// `s` with `d` written over the elements from position `at` on.
pub open spec fn splice<T>(s: Seq<T>, at: int, d: Seq<T>) -> Seq<T> {
    Seq::new(s.len(), |k: int| if at <= k < at + d.len() { d[k - at] } else { s[k] })
}

/// A managed slice as a plain slice.
pub fn managed_ref<'b, 'a, T>(m: &'b ManagedSlice<'a, T>) -> (r: &'b [T])
    ensures
        r@ == contents(*m),
{
    match m {
        ManagedSlice::Borrowed(b) => &**b,
        ManagedSlice::Owned(v) => v.as_slice(),
    }
}

/// A managed slice as a plain mutable slice.
pub fn managed_mut<'b, 'a, T>(m: &'b mut ManagedSlice<'a, T>) -> (r: &'b mut [T])
    ensures
        r@ == contents(*old(m)),
        contents(*final(m)) == final(r)@,
{
    match m {
        ManagedSlice::Borrowed(b) => &mut **b,
        ManagedSlice::Owned(v) => v.as_mut_slice(),
    }
}

/// The part of `s` from position `a` up to position `b`, mutably.
pub fn part_mut<'b, T>(s: &'b mut [T], a: usize, b: usize) -> (r: &'b mut [T])
    requires
        a <= b <= old(s)@.len(),
    ensures
        r@ == old(s)@.subrange(a as int, b as int),
        final(r)@.len() == b - a ==> final(s)@ == splice(old(s)@, a as int, final(r)@),
{
    let (x, y) = s.split_at_mut(a);
    let (z, w) = y.split_at_mut(b - a);
    assert(z@ =~= old(s)@.subrange(a as int, b as int));
    z
}

/// Copies `src` over the elements of `dst`; both have the same length.
pub fn copy_slice<T: Copy>(dst: &mut [T], src: &[T])
    requires
        old(dst)@.len() == src@.len(),
    ensures
        final(dst)@ == src@,
{
    let n: usize = src.len();
    let mut i: usize = 0;
    while i < n
        invariant
            i <= n == src@.len() == dst@.len(),
            forall|k: int| 0 <= k < i ==> dst@[k] == src@[k],
        decreases n - i,
    {
        dst[i] = src[i];
        i = i + 1;
    }
}

/// Writing over part of a sequence replaces just that part.
pub proof fn law_written_part_is_replaced<T>(s: Seq<T>, at: int, d: Seq<T>)
    requires
        0 <= at,
        at + d.len() <= s.len(),
    ensures
        splice(s, at, d).len() == s.len(),
        splice(s, at, d).subrange(at, at + d.len()) == d,
        splice(s, at, d).take(at) == s.take(at),
        splice(s, at, d).skip(at + d.len()) == s.skip(at + d.len()),
{
    let r = splice(s, at, d);
    assert(r.subrange(at, at + d.len()) =~= d);
    assert(r.take(at) =~= s.take(at));
    assert(r.skip(at + d.len()) =~= s.skip(at + d.len()));
}

} // verus!
