//! Tracking of the parts of a stream that have arrived out of order.
use vstd::prelude::*;

verus! {

/// The number of separate parts that an [`Assembler`] can hold.
pub const ASSEMBLER_MAX_SEGMENT_COUNT: usize = 4;

/// Error returned when the parts that would have to be held apart are too many.
#[derive(Debug, Clone, Copy, PartialEq, Eq, Structural)]
pub struct TooManyHolesError;

/// The parts of a stream that have arrived behind a hole, as ranges of offsets
/// from the end of what has arrived without a hole.
#[derive(Debug)]
pub struct Assembler {
    pub ranges: Vec<(usize, usize)>,
}

/// A range covers the offset `x`.
pub open spec fn covers(r: Seq<(usize, usize)>, x: int) -> bool {
    exists|i: int| 0 <= i < r.len() && (#[trigger] r[i]).0 <= x < r[i].1
}

/// The ranges are not empty, go upwards, and do not touch.
pub open spec fn ordered(r: Seq<(usize, usize)>) -> bool {
    &&& forall|i: int| 0 <= i < r.len() ==> (#[trigger] r[i]).0 < r[i].1
    &&& forall|i: int, j: int| 0 <= i < j < r.len() ==> (#[trigger] r[i]).1 < (#[trigger] r[j]).0
}

/// The ranges with `a..b` added: what overlaps or touches becomes one range.
pub open spec fn insert_range(r: Seq<(usize, usize)>, a: usize, b: usize) -> Seq<(usize, usize)>
    decreases r.len(),
{
    if r.len() == 0 {
        seq![(a, b)]
    } else if b < r[0].0 {
        seq![(a, b)] + r
    } else if r[0].1 < a {
        seq![r[0]] + insert_range(r.skip(1), a, b)
    } else {
        insert_range(
            r.skip(1),
            if a < r[0].0 {
                a
            } else {
                r[0].0
            },
            if b > r[0].1 {
                b
            } else {
                r[0].1
            },
        )
    }
}

/// The length of the range that starts at offset zero, if there is one.
pub open spec fn front_len(r: Seq<(usize, usize)>) -> usize {
    if r.len() > 0 && r[0].0 == 0 {
        r[0].1
    } else {
        0
    }
}

/// The ranges without the one that starts at offset zero, counted from its end.
pub open spec fn without_front(r: Seq<(usize, usize)>) -> Seq<(usize, usize)> {
    if r.len() > 0 && r[0].0 == 0 {
        Seq::new(
            (r.len() - 1) as nat,
            |i: int| ((r[i + 1].0 - r[0].1) as usize, (r[i + 1].1 - r[0].1) as usize),
        )
    } else {
        r
    }
}

/// What [`Assembler::add_then_remove_front`] makes of the ranges and returns.
pub open spec fn assemble(r: Seq<(usize, usize)>, offset: usize, size: usize) -> (
    Seq<(usize, usize)>,
    Result<usize, TooManyHolesError>,
) {
    if size == 0 {
        (r, Ok(0))
    } else {
        let merged = insert_range(r, offset, (offset + size) as usize);
        let rest = without_front(merged);
        if rest.len() > ASSEMBLER_MAX_SEGMENT_COUNT {
            (r, Err(TooManyHolesError))
        } else {
            (rest, Ok(front_len(merged)))
        }
    }
}

/// No range starts at offset zero, and there are not too many.
pub open spec fn assembler_inv(r: Seq<(usize, usize)>) -> bool {
    &&& ordered(r)
    &&& r.len() <= ASSEMBLER_MAX_SEGMENT_COUNT
    &&& r.len() > 0 ==> r[0].0 > 0
}

proof fn lemma_covers_split(r: Seq<(usize, usize)>, x: int)
    requires
        r.len() > 0,
    ensures
        covers(r, x) <==> (r[0].0 <= x < r[0].1 || covers(r.skip(1), x)),
{
    if covers(r, x) {
        let i = choose|i: int| 0 <= i < r.len() && (#[trigger] r[i]).0 <= x < r[i].1;
        if i > 0 {
            assert(r.skip(1)[i - 1] == r[i]);
        }
    }
    if covers(r.skip(1), x) {
        let s = r.skip(1);
        let i = choose|i: int| 0 <= i < s.len() && (#[trigger] s[i]).0 <= x < s[i].1;
        assert(r[i + 1] == s[i]);
    }
}

/// Adding a range keeps the ranges in order, adds just the offsets of the range
/// to those that are covered, and adds at most one range.
pub proof fn law_insert_range(r: Seq<(usize, usize)>, a: usize, b: usize)
    requires
        ordered(r),
        a < b,
    ensures
        ordered(insert_range(r, a, b)),
        insert_range(r, a, b).len() > 0,
        insert_range(r, a, b).len() <= r.len() + 1,
        insert_range(r, a, b)[0].0 == if r.len() > 0 && r[0].0 < a { r[0].0 } else { a },
        forall|x: int| #[trigger]
            covers(insert_range(r, a, b), x) <==> (covers(r, x) || a <= x < b),
    decreases r.len(),
{
    let q = insert_range(r, a, b);
    if r.len() == 0 {
        assert forall|x: int| #[trigger] covers(q, x) <==> (covers(r, x) || a <= x < b) by {
            lemma_covers_split(q, x);
            assert(q.skip(1) =~= r);
        }
    } else if b < r[0].0 {
        assert forall|i: int, j: int| 0 <= i < j < q.len() implies (#[trigger] q[i]).1 < (
        #[trigger] q[j]).0 by {
            assert(q[j] == r[j - 1]);
            assert(r[0].0 <= r[j - 1].0) by {
                if j > 1 {
                    assert(r[0].1 < r[j - 1].0);
                }
            }
            if i > 0 {
                assert(q[i] == r[i - 1]);
            }
        }
        assert forall|i: int| 0 <= i < q.len() implies (#[trigger] q[i]).0 < q[i].1 by {
            if i > 0 {
                assert(q[i] == r[i - 1]);
            }
        }
        assert forall|x: int| #[trigger] covers(q, x) <==> (covers(r, x) || a <= x < b) by {
            lemma_covers_split(q, x);
            assert(q.skip(1) =~= r);
        }
    } else {
        let (a1, b1) = if r[0].1 < a {
            (a, b)
        } else {
            (
                if a < r[0].0 {
                    a
                } else {
                    r[0].0
                },
                if b > r[0].1 {
                    b
                } else {
                    r[0].1
                },
            )
        };
        let s = r.skip(1);
        assert(ordered(s)) by {
            assert forall|i: int| 0 <= i < s.len() implies (#[trigger] s[i]).0 < s[i].1 by {
                assert(s[i] == r[i + 1]);
            }
            assert forall|i: int, j: int| 0 <= i < j < s.len() implies (#[trigger] s[i]).1 < (
            #[trigger] s[j]).0 by {
                assert(s[i] == r[i + 1] && s[j] == r[j + 1]);
            }
        }
        law_insert_range(s, a1, b1);
        let t = insert_range(s, a1, b1);
        if s.len() > 0 {
            assert(s[0] == r[1]);
            assert(r[0].1 < r[1].0);
        }
        if r[0].1 < a {
            assert(q =~= seq![r[0]] + t);
            assert forall|i: int, j: int| 0 <= i < j < q.len() implies (#[trigger] q[i]).1 < (
            #[trigger] q[j]).0 by {
                assert(q[j] == t[j - 1]);
                assert(t[0].0 <= t[j - 1].0) by {
                    if j > 1 {
                        assert(t[0].1 < t[j - 1].0);
                        assert(t[0].0 < t[0].1);
                    }
                }
                if i > 0 {
                    assert(q[i] == t[i - 1]);
                }
            }
            assert forall|i: int| 0 <= i < q.len() implies (#[trigger] q[i]).0 < q[i].1 by {
                if i > 0 {
                    assert(q[i] == t[i - 1]);
                }
            }
            assert forall|x: int| #[trigger] covers(q, x) <==> (covers(r, x) || a <= x < b) by {
                lemma_covers_split(q, x);
                assert(q.skip(1) =~= t);
                lemma_covers_split(r, x);
            }
        } else {
            assert forall|x: int| #[trigger] covers(q, x) <==> (covers(r, x) || a <= x < b) by {
                lemma_covers_split(r, x);
                assert(covers(t, x) <==> (covers(s, x) || a1 <= x < b1));
            }
        }
    }
}

/// What the assembler holds and returns, offset by offset: the range is added,
/// what then reaches from offset zero without a hole is taken off the front and
/// its length returned, and the rest is counted from there. If the rest is too
/// many ranges, nothing changes.
pub proof fn law_assemble(r: Seq<(usize, usize)>, offset: usize, size: usize)
    requires
        assembler_inv(r),
        offset + size <= usize::MAX,
    ensures
        assembler_inv(assemble(r, offset, size).0),
        match assemble(r, offset, size).1 {
            Err(_) => assemble(r, offset, size).0 == r && offset > 0 && r.len()
                == ASSEMBLER_MAX_SEGMENT_COUNT,
            Ok(n) => {
                &&& forall|x: int|
                    0 <= x < n ==> (#[trigger] covers(r, x) || offset <= x < offset + size)
                &&& !(covers(r, n as int) || offset <= n < offset + size)
                &&& forall|x: int|
                    x >= n ==> (#[trigger] covers(assemble(r, offset, size).0, x - n) <==> (covers(
                        r,
                        x,
                    ) || offset <= x < offset + size))
            },
        },
{
    if size == 0 {
        assert forall|x: int| 0 <= x <= 0 implies !#[trigger] covers(r, x) by {
            lemma_not_covered_at_zero(r);
        }
        assert forall|x: int| x >= 0 implies (#[trigger] covers(
            assemble(r, offset, size).0,
            x - 0,
        ) <==> (covers(r, x) || offset <= x < offset + size)) by {}
    } else {
        let b = (offset + size) as usize;
        law_insert_range(r, offset, b);
        let q = insert_range(r, offset, b);
        let rest = without_front(q);
        let n = front_len(q);
        assert(q[0].0 < q[0].1);
        if q[0].0 == 0 {
            assert forall|i: int| 0 <= i < rest.len() implies (#[trigger] rest[i]).0 < rest[i].1
                && rest[i].0 > 0 && rest[i].0 + n == q[i + 1].0 && rest[i].1 + n == q[i
                + 1].1 by {
                assert(q[0].1 < q[i + 1].0);
                assert(q[i + 1].0 < q[i + 1].1);
            }
            assert forall|i: int, j: int| 0 <= i < j < rest.len() implies (#[trigger] rest[i]).1
                < (#[trigger] rest[j]).0 by {
                assert(q[i + 1].1 < q[j + 1].0);
            }
            assert forall|x: int| x >= n implies (#[trigger] covers(rest, x - n) <==> covers(q, x)) by {
                if covers(rest, x - n) {
                    let i = choose|i: int|
                        0 <= i < rest.len() && (#[trigger] rest[i]).0 <= x - n < rest[i].1;
                    assert(q[i + 1].0 <= x < q[i + 1].1);
                }
                if covers(q, x) {
                    let i = choose|i: int| 0 <= i < q.len() && (#[trigger] q[i]).0 <= x < q[i].1;
                    assert(i > 0);
                    assert(rest[i - 1].0 <= x - n < rest[i - 1].1);
                }
            }
            assert forall|x: int| 0 <= x < n implies (#[trigger] covers(r, x) || offset <= x
                < offset + size) by {
                assert(q[0].0 <= x < q[0].1);
                assert(covers(q, x));
            }
            assert(!covers(q, n as int)) by {
                if covers(q, n as int) {
                    let i = choose|i: int| 0 <= i < q.len() && (#[trigger] q[i]).0 <= n < q[i].1;
                    if i > 0 {
                        assert(q[0].1 < q[i].0);
                    }
                }
            }
        } else {
            lemma_not_covered_at_zero(q);
            assert(!covers(q, 0));
            assert forall|x: int| x >= 0 implies (#[trigger] covers(rest, x - 0) <==> covers(q, x)) by {}
        }
    }
}

proof fn lemma_not_covered_at_zero(r: Seq<(usize, usize)>)
    requires
        ordered(r),
        r.len() > 0 ==> r[0].0 > 0,
    ensures
        !covers(r, 0),
{
    if covers(r, 0) {
        let i = choose|i: int| 0 <= i < r.len() && (#[trigger] r[i]).0 <= 0 < r[i].1;
        if i > 0 {
            assert(r[0].1 < r[i].0);
        }
    }
}

impl View for Assembler {
    type V = Seq<(usize, usize)>;

    open spec fn view(&self) -> Seq<(usize, usize)> {
        self.ranges@
    }
}

impl Assembler {
    pub open spec fn inv(&self) -> bool {
        assembler_inv(self@)
    }

    /// An assembler that holds nothing.
    pub fn new() -> (r: Assembler)
        ensures
            r@ == Seq::<(usize, usize)>::empty(),
            r.inv(),
    {
        Assembler { ranges: Vec::new() }
    }

    pub fn is_empty(&self) -> (r: bool)
        ensures
            r == (self@.len() == 0),
    {
        self.ranges.len() == 0
    }

    /// The number of ranges held.
    pub fn count(&self) -> (r: usize)
        ensures
            r == self@.len(),
    {
        self.ranges.len()
    }

    /// The range number `i`, lowest first.
    pub fn range(&self, i: usize) -> (r: (usize, usize))
        requires
            i < self@.len(),
        ensures
            r == self@[i as int],
    {
        self.ranges[i]
    }

    /// Adds the `size` offsets from `offset` on, then takes off the front what
    /// has arrived without a hole, and returns its length.
    pub fn add_then_remove_front(&mut self, offset: usize, size: usize) -> (ret: Result<
        usize,
        TooManyHolesError,
    >)
        requires
            old(self).inv(),
            offset + size <= usize::MAX,
        ensures
            final(self).inv(),
            (final(self)@, ret) == assemble(old(self)@, offset, size),
    {
        if size == 0 {
            return Ok(0);
        }
        proof {
            law_assemble(self@, offset, size);
            law_insert_range(self@, offset, (offset + size) as usize);
        }
        let merged = self.merged(offset, offset + size);
        let front: usize = if merged[0].0 == 0 {
            merged[0].1
        } else {
            0
        };
        let skip: usize = if merged[0].0 == 0 {
            1
        } else {
            0
        };
        if merged.len() - skip > ASSEMBLER_MAX_SEGMENT_COUNT {
            return Err(TooManyHolesError);
        }
        let mut rest: Vec<(usize, usize)> = Vec::new();
        let mut i: usize = skip;
        while i < merged.len()
            invariant
                skip <= i <= merged@.len(),
                rest@.len() == i - skip,
                ordered(merged@),
                merged@.len() > 0,
                skip == if merged@[0].0 == 0 { 1int } else { 0 },
                front == front_len(merged@),
                forall|k: int| 0 <= k < rest@.len() ==> #[trigger] rest@[k] == without_front(merged@)[k],
            decreases merged@.len() - i,
        {
            let (l, h) = merged[i];
            assert(merged@[i as int].0 < merged@[i as int].1);
            assert(skip == 1 ==> merged@[0].1 < merged@[i as int].0);
            rest.push((l - front, h - front));
            i = i + 1;
        }
        assert(rest@ =~= without_front(merged@));
        self.ranges = rest;
        Ok(front)
    }

    fn merged(&self, from: usize, to: usize) -> (out: Vec<(usize, usize)>)
        ensures
            out@ == insert_range(self@, from, to),
    {
        let mut out: Vec<(usize, usize)> = Vec::new();
        let mut placed: bool = false;
        let mut a: usize = from;
        let mut b: usize = to;
        let mut i: usize = 0;
        proof {
            assert(self@.skip(0) =~= self@);
            assert(out@ + insert_range(self@, from, to) =~= insert_range(self@, from, to));
        }
        while i < self.ranges.len()
            invariant
                i <= self@.len(),
                insert_range(self@, from, to) =~= out@ + (if placed {
                    self@.skip(i as int)
                } else {
                    insert_range(self@.skip(i as int), a, b)
                }),
            decreases self@.len() - i,
        {
            let (l, h) = self.ranges[i];
            let ghost rest = self@.skip(i as int);
            assert(rest[0] == (l, h));
            assert(rest.skip(1) =~= self@.skip(i + 1));
            assert(rest =~= seq![(l, h)] + self@.skip(i + 1));
            if placed {
                out.push((l, h));
            } else if b < l {
                out.push((a, b));
                out.push((l, h));
                placed = true;
            } else if h < a {
                out.push((l, h));
            } else {
                if l < a {
                    a = l;
                }
                if h > b {
                    b = h;
                }
            }
            i = i + 1;
        }
        if !placed {
            assert(self@.skip(i as int) =~= Seq::<(usize, usize)>::empty());
            out.push((a, b));
        }
        out
    }
}

} // verus!
