//! Numbers in network byte order.
use crate::storage::slices;
use vstd::prelude::*;

verus! {

/// The number whose octets are `s`, the most significant one first.
pub open spec fn number(s: Seq<u8>) -> int
    decreases s.len(),
{
    if s.len() == 0 {
        0
    } else {
        number(s.drop_last()) * 256 + s.last()
    }
}

/// The last `n` octets of a number, the most significant one first.
pub open spec fn octets(v: int, n: nat) -> Seq<u8>
    decreases n,
{
    if n == 0 {
        Seq::empty()
    } else {
        octets(v / 256, (n - 1) as nat).push((v % 256) as u8)
    }
}

/// One more than the largest number of `n` octets.
pub open spec fn limit(n: nat) -> int
    decreases n,
{
    if n == 0 {
        1
    } else {
        256 * limit((n - 1) as nat)
    }
}

/// The number in the `n` octets from position `at` on.
pub open spec fn field(s: Seq<u8>, at: int, n: int) -> int {
    number(s.subrange(at, at + n))
}

/// `s` with a number written to the `n` octets from position `at` on.
pub open spec fn with_field(s: Seq<u8>, at: int, n: nat, v: int) -> Seq<u8> {
    slices::splice(s, at, octets(v, n))
}

pub proof fn lemma_number_bound(s: Seq<u8>)
    ensures
        0 <= number(s) < limit(s.len()),
    decreases s.len(),
{
    if s.len() > 0 {
        lemma_number_bound(s.drop_last());
    }
}

pub proof fn lemma_octets_len(v: int, n: nat)
    ensures
        octets(v, n).len() == n,
    decreases n,
{
    if n > 0 {
        lemma_octets_len(v / 256, (n - 1) as nat);
    }
}

pub proof fn lemma_limits()
    ensures
        limit(1) == 0x100,
        limit(2) == 0x1_0000,
        limit(4) == 0x1_0000_0000,
        limit(16) == 0x1_0000_0000_0000_0000_0000_0000_0000_0000,
        forall|n: nat| n <= 16 ==> #[trigger] limit(n) <= limit(16),
{
    reveal_with_fuel(limit, 18);
    assert forall|n: nat| n <= 16 implies #[trigger] limit(n) <= limit(16) by {
        lemma_limit_grows(n, 16);
    }
}

proof fn lemma_limit_grows(m: nat, n: nat)
    requires
        m <= n,
    ensures
        0 < limit(m) <= limit(n),
    decreases n,
{
    if m < n {
        lemma_limit_grows(m, (n - 1) as nat);
    } else if n > 0 {
        lemma_limit_grows((m - 1) as nat, (n - 1) as nat);
    }
}

/// The octets of a number are read back as that number.
pub proof fn law_number_of_octets(v: int, n: nat)
    requires
        0 <= v < limit(n),
    ensures
        number(octets(v, n)) == v,
    decreases n,
{
    if n > 0 {
        law_number_of_octets(v / 256, (n - 1) as nat);
        let s = octets(v, n);
        assert(s.drop_last() =~= octets(v / 256, (n - 1) as nat));
    }
}

/// A number that is read has those octets.
pub proof fn law_octets_of_number(s: Seq<u8>)
    ensures
        octets(number(s), s.len()) == s,
    decreases s.len(),
{
    if s.len() > 0 {
        let t = s.drop_last();
        law_octets_of_number(t);
        assert(number(s) / 256 == number(t));
        assert(number(s) % 256 == s.last());
        assert(octets(number(s), s.len()) =~= s);
    } else {
        assert(octets(number(s), 0) =~= s);
    }
}

/// What is written to a field is read back from it.
pub proof fn law_field_is_read_back(s: Seq<u8>, at: int, n: nat, v: int)
    requires
        0 <= at,
        at + n <= s.len(),
        0 <= v < limit(n),
    ensures
        field(with_field(s, at, n, v), at, n as int) == v,
        with_field(s, at, n, v).len() == s.len(),
{
    lemma_octets_len(v, n);
    law_number_of_octets(v, n);
    assert(with_field(s, at, n, v).subrange(at, at + n) =~= octets(v, n));
}

/// Writing to a field leaves the others as they are.
pub proof fn law_other_fields_stay(s: Seq<u8>, at: int, n: nat, v: int, from: int, m: int)
    requires
        0 <= at,
        at + n <= s.len(),
        0 <= from,
        0 <= m,
        from + m <= s.len(),
        from + m <= at || at + n <= from,
    ensures
        field(with_field(s, at, n, v), from, m) == field(s, from, m),
{
    lemma_octets_len(v, n);
    assert(with_field(s, at, n, v).subrange(from, from + m) =~= s.subrange(from, from + m));
}

/// A number of two octets, octet by octet.
pub proof fn lemma_pair(t: Seq<u8>)
    requires
        t.len() == 2,
    ensures
        number(t) == t[0] * 256 + t[1],
{
    let u = t.drop_last();
    assert(u.drop_last() =~= Seq::empty());
    assert(number(u.drop_last()) == 0);
    assert(number(u) == u.last());
}

/// The two octets of a number.
pub proof fn lemma_two_octets(v: int)
    requires
        0 <= v < 0x1_0000,
    ensures
        octets(v, 2) == seq![(v / 256) as u8, (v % 256) as u8],
{
    reveal_with_fuel(octets, 3);
    assert(octets(v, 2) =~= seq![(v / 256) as u8, (v % 256) as u8]);
}

/// The number in octets is made up of them, the most significant one first.
pub proof fn law_number_by_octet(a: u8, b: u8, c: u8, d: u8)
    ensures
        number(seq![a]) == a,
        number(seq![a, b]) == a * 0x100 + b,
        number(seq![a, b, c, d]) == a * 0x100_0000 + b * 0x1_0000 + c * 0x100 + d,
{
    reveal_with_fuel(number, 5);
    assert(seq![a].drop_last() =~= Seq::empty());
    assert(seq![a, b].drop_last() =~= seq![a]);
    assert(seq![a, b, c].drop_last() =~= seq![a, b]);
    assert(seq![a, b, c, d].drop_last() =~= seq![a, b, c]);
}

/// The number in octets `at` up to `at + n`, of which there are at most sixteen.
pub fn read(s: &[u8], at: usize, n: usize) -> (r: u128)
    requires
        at + n <= s@.len(),
        n <= 16,
    ensures
        r == field(s@, at as int, n as int),
        r < limit(n as nat),
{
    let length: usize = s.len();
    let mut v: u128 = 0;
    let mut i: usize = 0;
    proof {
        assert(s@.subrange(at as int, at as int) =~= Seq::empty());
        lemma_limits();
    }
    while i < n
        invariant
            i <= n <= 16,
            at + n <= s@.len() == length,
            v == field(s@, at as int, i as int),
            v < limit(i as nat),
            limit(16) == 0x1_0000_0000_0000_0000_0000_0000_0000_0000,
            forall|n: nat| n <= 16 ==> #[trigger] limit(n) <= limit(16),
        decreases n - i,
    {
        proof {
            let t = s@.subrange(at as int, at + i + 1);
            assert(t.drop_last() =~= s@.subrange(at as int, at + i));
            assert(limit((i + 1) as nat) == 256 * limit(i as nat));
            assert(limit((i + 1) as nat) <= limit(16));
        }
        v = v * 256 + s[at + i] as u128;
        i = i + 1;
    }
    v
}

/// Writes a number to octets `at` up to `at + n`.
pub fn write(s: &mut [u8], at: usize, n: usize, v: u128)
    requires
        at + n <= old(s)@.len(),
    ensures
        final(s)@ == with_field(old(s)@, at as int, n as nat, v as int),
        final(s)@.len() == old(s)@.len(),
{
    let length: usize = s.len();
    let mut left: u128 = v;
    let mut i: usize = n;
    let ghost before = s@;
    proof {
        lemma_octets_len(v as int, n as nat);
        assert(octets(v as int, n as nat).skip(n as int) =~= Seq::empty());
    }
    while i > 0
        invariant
            i <= n,
            at + n <= s@.len() == length,
            before.len() == s@.len(),
            octets(v as int, n as nat).len() == n,
            octets(v as int, n as nat).take(i as int) =~= octets(left as int, i as nat),
            octets(left as int, i as nat).len() == i,
            forall|k: int|
                0 <= k < before.len() ==> #[trigger] s@[k] == if at + i <= k < at + n {
                    octets(v as int, n as nat)[k - at]
                } else {
                    before[k]
                },
        decreases i,
    {
        let ghost o = octets(left as int, i as nat);
        proof {
            lemma_octets_len(left as int / 256, (i - 1) as nat);
            assert(o.last() == (left % 256) as u8);
            assert(octets(v as int, n as nat)[i - 1] == o[i - 1]);
            assert(octets(v as int, n as nat).take(i - 1) =~= o.drop_last());
            assert(o.drop_last() =~= octets(left as int / 256, (i - 1) as nat));
        }
        i = i - 1;
        s[at + i] = (left % 256) as u8;
        left = left / 256;
    }
    assert(s@ =~= with_field(before, at as int, n as nat, v as int));
}

/// The two octets from position `at` on.
pub fn read_u16(s: &[u8], at: usize) -> (r: u16)
    requires
        at + 2 <= s@.len(),
    ensures
        r == field(s@, at as int, 2),
{
    proof {
        lemma_limits();
    }
    read(s, at, 2) as u16
}

/// The four octets from position `at` on.
pub fn read_u32(s: &[u8], at: usize) -> (r: u32)
    requires
        at + 4 <= s@.len(),
    ensures
        r == field(s@, at as int, 4),
{
    proof {
        lemma_limits();
    }
    read(s, at, 4) as u32
}

} // verus!
