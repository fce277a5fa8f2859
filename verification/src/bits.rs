use vstd::prelude::*;
use vstd::std_specs::bits::{u64_trailing_zeros, axiom_u64_trailing_zeros};

verus! {

/// A bitboard: bit `i` stands for square `i` (rank `i / 8`, file `i % 8`).
pub type Bitboard = u64;

/// Number of set bits.
pub open spec fn pop(x: u64) -> nat
    decreases x,
{
    if x == 0 {
        0
    } else {
        (x % 2) as nat + pop(x / 2)
    }
}

/// `u64::count_ones` counts the set bits of its argument.
pub assume_specification[ u64::count_ones ](x: u64) -> (r: u32)
    ensures
        r == pop(x),
;

/// Exactly one bit is set.
pub open spec fn single_bit(x: u64) -> bool {
    x != 0 && x & ((x - 1) as u64) == 0
}

/// Bit `i` of `x` is set.
pub open spec fn has_bit(x: u64, i: u64) -> bool {
    i < 64 && (x >> i) & 1 == 1
}

/// Index of the lowest set bit (64 for zero).
pub open spec fn low_index(x: u64) -> u64 {
    u64_trailing_zeros(x) as u64
}

/// The lowest set bit of a nonzero word, alone.
pub open spec fn low_bit(x: u64) -> u64 {
    1u64 << low_index(x)
}

/// The word without its lowest set bit.
pub open spec fn drop_low(x: u64) -> u64 {
    if x == 0 {
        0
    } else {
        x & ((x - 1) as u64)
    }
}

/// Indices of the set bits, lowest first.
pub open spec fn bit_indices(x: u64) -> Seq<u64>
    decreases x,
{
    if x == 0 {
        seq![]
    } else {
        proof {
            lemma_drop_low_smaller(x);
        }
        seq![low_index(x)] + bit_indices(drop_low(x))
    }
}

pub proof fn lemma_drop_low_smaller(x: u64)
    requires
        x != 0,
    ensures
        drop_low(x) < x,
{
    assert(x != 0 ==> x & ((x - 1) as u64) < x) by (bit_vector);
}

/// What the lowest set bit of a nonzero word is, and what removing it leaves.
pub proof fn lemma_low_bit(x: u64)
    requires
        x != 0,
    ensures
        low_index(x) < 64,
        single_bit(low_bit(x)),
        low_bit(x) & x == low_bit(x),
        low_bit(x) & x != 0,
        drop_low(x) == x & !low_bit(x),
        drop_low(x) < x,
        has_bit(x, low_index(x)),
{
    axiom_u64_trailing_zeros(x);
    let k = low_index(x);
    assert(k < 64);
    assert((x >> k) & 1u64 == 1u64);
    assert(x << ((64 - k) as u64) == 0);
    assert(k < 64 && (x >> k) & 1u64 == 1u64 && x << ((64 - k) as u64) == 0 ==> {
        &&& (1u64 << k) != 0
        &&& (1u64 << k) & (((1u64 << k) - 1) as u64) == 0
        &&& (1u64 << k) & x == (1u64 << k)
        &&& (1u64 << k) & x != 0
        &&& x & ((x - 1) as u64) == x & !(1u64 << k)
    }) by (bit_vector);
    lemma_drop_low_smaller(x);
}

/// Removing the lowest bit leaves a part of the word.
pub proof fn lemma_drop_low_subset(x: u64)
    by (bit_vector)
    ensures
        drop_low(x) & !x == 0,
{
}

/// Small facts about words.
pub proof fn lemma_word_facts(x: u64, y: u64, z: u64)
    by (bit_vector)
    ensures
        x & !0u64 == x,
        x | 0u64 == x,
        0u64 & x == 0,
        0u64 & !x == 0,
        x & !x == 0,
        x & y == y & x,
        x >> 0u64 == x,
        x >> 64u64 == 0,
        x & !y == 0 ==> y & x == x,
        x & y != 0 ==> x & (y | z) != 0 && x & (z | y) != 0,
        x & (y | z) == 0 ==> x & y == 0 && x & z == 0,
        x & !y == 0 && y & !z == 0 ==> x & !z == 0,
        x != 0 && x & ((x - 1) as u64) == 0 ==> x & (y | x) != 0,
        x != 0 && x & ((x - 1) as u64) == 0 && x & y != 0 ==> y & x == x,
{
}

pub proof fn lemma_pop_zero()
    ensures
        pop(0) == 0,
{
}

pub proof fn lemma_pop_nonzero(x: u64)
    requires
        x != 0,
    ensures
        pop(x) >= 1,
    decreases x,
{
    if x % 2 == 0 {
        assert(x / 2 != 0);
        lemma_pop_nonzero(x / 2);
    }
}

/// Splitting a word by a mask splits its count.
pub proof fn lemma_pop_split(x: u64, m: u64)
    ensures
        pop(x) == pop(x & m) + pop(x & !m),
    decreases x,
{
    if x == 0 {
        lemma_word_facts(m, 0, 0);
    } else {
        lemma_pop_split(x / 2, m / 2);
        assert(((x & m) / 2) == (x / 2) & (m / 2) && ((x & !m) / 2) == (x / 2) & !(m / 2) && (x
            & m) % 2 + (x & !m) % 2 == x % 2) by (bit_vector);
        let a = x & m;
        let b = x & !m;
        if a == 0 {
            assert(a % 2 == 0 && a / 2 == 0);
        }
        if b == 0 {
            assert(b % 2 == 0 && b / 2 == 0);
        }
        assert(pop(a) == (a % 2) as nat + pop(a / 2));
        assert(pop(b) == (b % 2) as nat + pop(b / 2));
    }
}

/// The count of a union of disjoint words is the sum of their counts.
pub proof fn lemma_pop_union(a: u64, b: u64)
    requires
        a & b == 0,
    ensures
        pop(a | b) == pop(a) + pop(b),
{
    lemma_pop_split(a | b, a);
    assert(a & b == 0 ==> (a | b) & a == a && (a | b) & !a == b) by (bit_vector);
}

pub proof fn lemma_pop_single(b: u64)
    requires
        single_bit(b),
    ensures
        pop(b) == 1,
    decreases b,
{
    if b == 1 {
        assert(pop(0) == 0);
        assert(1u64 % 2 == 1 && 1u64 / 2 == 0);
    } else {
        assert(b != 0 && b & ((b - 1) as u64) == 0 && b != 1 ==> b % 2 == 0 && b / 2 != 0
            && (b / 2) & (((b / 2) - 1) as u64) == 0 && b / 2 < b) by (bit_vector);
        lemma_pop_single(b / 2);
    }
}

/// A word whose bits all lie below `n` has at most `n` bits set.
pub proof fn lemma_pop_bound_below(x: u64, n: u64)
    requires
        n <= 64,
        x >> n == 0,
    ensures
        pop(x) <= n,
    decreases n,
{
    if n == 0 {
        lemma_word_facts(x, 0, 0);
    } else {
        assert(x >> n == 0 && n > 0 && n <= 64 ==> (x / 2) >> ((n - 1) as u64) == 0) by (bit_vector);
        lemma_pop_bound_below(x / 2, (n - 1) as u64);
        if x == 0 {
        } else {
            assert(x % 2 <= 1);
        }
    }
}

pub proof fn lemma_pop_bound(x: u64)
    ensures
        pop(x) <= 64,
{
    lemma_word_facts(x, 0, 0);
    lemma_pop_bound_below(x, 64);
}

/// Count of a word with one of its bits removed.
pub proof fn lemma_pop_remove(x: u64, b: u64)
    requires
        single_bit(b),
        b & x != 0,
    ensures
        pop(x & !b) + 1 == pop(x),
{
    lemma_pop_split(x, b);
    lemma_word_facts(b, x, 0);
    lemma_pop_single(b);
}

/// Count of a word with an absent bit added.
pub proof fn lemma_pop_add(x: u64, b: u64)
    requires
        single_bit(b),
        x & b == 0,
    ensures
        pop(x | b) == pop(x) + 1,
{
    lemma_pop_union(x, b);
    lemma_pop_single(b);
}

/// Count of a word that is a subset of another.
pub proof fn lemma_pop_subset(x: u64, y: u64)
    requires
        x & !y == 0,
    ensures
        pop(x) <= pop(y),
        pop(y & !x) + pop(x) == pop(y),
{
    lemma_pop_split(y, x);
    lemma_word_facts(x, y, 0);
}

/// The set-bit indices are below 64 and as many as the set bits.
pub proof fn lemma_bit_indices(x: u64)
    ensures
        bit_indices(x).len() == pop(x),
        forall|i: int| 0 <= i < bit_indices(x).len() ==> #[trigger] bit_indices(x)[i] < 64,
    decreases x,
{
    if x != 0 {
        lemma_low_bit(x);
        lemma_bit_indices(drop_low(x));
        let lb = low_bit(x);
        lemma_pop_remove(x, lb);
        let rest = bit_indices(drop_low(x));
        assert forall|i: int| 0 <= i < bit_indices(x).len() implies #[trigger] bit_indices(x)[i]
            < 64 by {
            if i > 0 {
                assert(bit_indices(x)[i] == rest[i - 1]);
            }
        }
    }
}

} // verus!
