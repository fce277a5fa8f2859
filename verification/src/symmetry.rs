use vstd::prelude::*;
use crate::bits::{
    pop, has_bit, low_index, low_bit, drop_low, lemma_low_bit, lemma_drop_low_smaller,
    lemma_pop_remove,
};
use crate::eval::{
    coords, positions, chebyshev, nearest, closeness, ranks, white_runaway, black_runaway,
};
use crate::eval::{
    evaluation, material, trading, corners, pursuit, mobility, center, structure, white_total,
    black_total, lemma_positions,
};
use crate::board::{
    BitboardState, opposite, NOT_A_FILE, NOT_H_FILE, DARK_SQUARES, CENTER_MASK, WHITE_BRIDGE, BLACK_BRIDGE, DOG_HOLES,
    CORNER_TL, CORNER_BR,
};

verus! {

/// The word with its bits in reverse order: square `i` goes to square `63 - i`, which turns
/// the board half round.
pub open spec fn reverse_bits(x: u64) -> u64 {
    let a = ((x >> 1u64) & 0x5555555555555555u64) | ((x & 0x5555555555555555u64) << 1u64);
    let b = ((a >> 2u64) & 0x3333333333333333u64) | ((a & 0x3333333333333333u64) << 2u64);
    let c = ((b >> 4u64) & 0x0F0F0F0F0F0F0F0Fu64) | ((b & 0x0F0F0F0F0F0F0F0Fu64) << 4u64);
    let d = ((c >> 8u64) & 0x00FF00FF00FF00FFu64) | ((c & 0x00FF00FF00FF00FFu64) << 8u64);
    let e = ((d >> 16u64) & 0x0000FFFF0000FFFFu64) | ((d & 0x0000FFFF0000FFFFu64) << 16u64);
    (e >> 32u64) | (e << 32u64)
}

/// Reversal commutes with the bitwise operations and turns steps towards one side into steps
/// towards the other.
proof fn lemma_reverse_words(x: u64, y: u64)
    by (bit_vector)
    ensures
        reverse_bits(x & y) == reverse_bits(x) & reverse_bits(y),
        reverse_bits(x | y) == reverse_bits(x) | reverse_bits(y),
        reverse_bits(!x) == !reverse_bits(x),
        reverse_bits(x << 9u64) == reverse_bits(x) >> 9u64,
        reverse_bits(x << 7u64) == reverse_bits(x) >> 7u64,
        reverse_bits(x >> 9u64) == reverse_bits(x) << 9u64,
        reverse_bits(x >> 7u64) == reverse_bits(x) << 7u64,
        reverse_bits(reverse_bits(x)) == x,
        reverse_bits(x) == 0 <==> x == 0,
        x | y == y | x,
{
}

/// The masks of the board, turned half round.
proof fn lemma_reverse_masks()
    by (bit_vector)
    ensures
        reverse_bits(NOT_A_FILE) == NOT_H_FILE,
        reverse_bits(NOT_H_FILE) == NOT_A_FILE,
        reverse_bits(DARK_SQUARES) == DARK_SQUARES,
        reverse_bits(CENTER_MASK) == CENTER_MASK,
        reverse_bits(DOG_HOLES) == DOG_HOLES,
        reverse_bits(WHITE_BRIDGE) == BLACK_BRIDGE,
        reverse_bits(BLACK_BRIDGE) == WHITE_BRIDGE,
        reverse_bits(CORNER_TL) == CORNER_BR,
        reverse_bits(CORNER_BR) == CORNER_TL,
{
}

/// Square `i` of the reversed word is square `63 - i` of the word.
proof fn lemma_reverse_bit(x: u64, i: u64)
    by (bit_vector)
    requires
        i < 64,
    ensures
        (reverse_bits(x) >> i) & 1u64 == (x >> (63u64 - i) as u64) & 1u64,
{
}

/// `g(0) + g(1) + ... + g(n - 1)`.
pub open spec fn range_sum(g: spec_fn(int) -> int, n: int) -> int
    decreases n,
{
    if n <= 0 {
        0
    } else {
        range_sum(g, n - 1) + g(n - 1)
    }
}

/// `min(100, g(0), ..., g(n - 1))`.
pub open spec fn range_min(g: spec_fn(int) -> int, n: int) -> int
    decreases n,
{
    if n <= 0 {
        100
    } else {
        let m = range_min(g, n - 1);
        if g(n - 1) < m {
            g(n - 1)
        } else {
            m
        }
    }
}

proof fn lemma_range_pointwise(g: spec_fn(int) -> int, h: spec_fn(int) -> int, n: int)
    requires
        forall|i: int| 0 <= i < n ==> #[trigger] g(i) == h(i),
    ensures
        range_sum(g, n) == range_sum(h, n),
        range_min(g, n) == range_min(h, n),
    decreases n,
{
    if n > 0 {
        lemma_range_pointwise(g, h, n - 1);
    }
}

/// The terms of `g` from the second on.
pub open spec fn tail_fn(g: spec_fn(int) -> int) -> spec_fn(int) -> int {
    |i: int| g(i + 1)
}

/// The terms of `g` in the opposite order, over `0 .. n`.
pub open spec fn reversed_fn(g: spec_fn(int) -> int, n: int) -> spec_fn(int) -> int {
    |i: int| g(n - 1 - i)
}

proof fn lemma_range_front(g: spec_fn(int) -> int, n: int)
    requires
        n >= 1,
    ensures
        range_sum(g, n) == g(0) + range_sum(tail_fn(g), n - 1),
        range_min(g, n) == (if g(0) < range_min(tail_fn(g), n - 1) {
            g(0)
        } else {
            range_min(tail_fn(g), n - 1)
        }),
    decreases n,
{
    let s = tail_fn(g);
    if n > 1 {
        lemma_range_front(g, n - 1);
        assert(range_sum(s, n - 1) == range_sum(s, n - 2) + g(n - 1));
        assert(range_min(s, n - 1) == (if g(n - 1) < range_min(s, n - 2) {
            g(n - 1)
        } else {
            range_min(s, n - 2)
        }));
    } else {
        assert(range_sum(s, 0) == 0);
        assert(range_min(s, 0) == 100);
        assert(range_sum(g, 0) == 0);
        assert(range_min(g, 0) == 100);
    }
}

/// Summing, or taking the least of, the terms in the opposite order gives the same.
proof fn lemma_range_reverse(g: spec_fn(int) -> int, n: int)
    ensures
        range_sum(g, n) == range_sum(reversed_fn(g, n), n),
        range_min(g, n) == range_min(reversed_fn(g, n), n),
    decreases n,
{
    if n > 0 {
        lemma_range_reverse(g, n - 1);
        let r = reversed_fn(g, n);
        lemma_range_front(r, n);
        assert(tail_fn(r) =~= reversed_fn(g, n - 1));
    }
}

/// The terms of `g` over the squares of `x`, other squares counting 0 (for sums) or 100 (for
/// least values).
pub open spec fn on_bits(x: u64, g: spec_fn(int) -> int, absent: int) -> spec_fn(int) -> int {
    |i: int| if 0 <= i < 64 && has_bit(x, i as u64) {
        g(i)
    } else {
        absent
    }
}

/// Sum of `g` over the squares of `x`.
pub open spec fn bit_sum(x: u64, g: spec_fn(int) -> int) -> int {
    range_sum(on_bits(x, g, 0), 64)
}

/// The least of 100 and `g` over the squares of `x`.
pub open spec fn bit_min(x: u64, g: spec_fn(int) -> int) -> int {
    range_min(on_bits(x, g, 100), 64)
}

/// A sum over the squares of a reversed word is the sum over the word with the squares
/// renumbered.
proof fn lemma_bit_sum_reverse(x: u64, g: spec_fn(int) -> int)
    ensures
        bit_sum(reverse_bits(x), g) == bit_sum(x, |i: int| g(63 - i)),
        bit_min(reverse_bits(x), g) == bit_min(x, |i: int| g(63 - i)),
{
    let a = on_bits(reverse_bits(x), g, 0);
    let b = on_bits(x, |i: int| g(63 - i), 0);
    let ra = reversed_fn(a, 64);
    lemma_range_reverse(a, 64);
    assert forall|i: int| 0 <= i < 64 implies #[trigger] ra(i) == b(i) by {
        lemma_reverse_bit(x, (63 - i) as u64);
    }
    lemma_range_pointwise(ra, b, 64);
    let a2 = on_bits(reverse_bits(x), g, 100);
    let b2 = on_bits(x, |i: int| g(63 - i), 100);
    let ra2 = reversed_fn(a2, 64);
    lemma_range_reverse(a2, 64);
    assert forall|i: int| 0 <= i < 64 implies #[trigger] ra2(i) == b2(i) by {
        lemma_reverse_bit(x, (63 - i) as u64);
    }
    lemma_range_pointwise(ra2, b2, 64);
}

/// Bits of a word with one of its bits removed; no bit is set in zero.
proof fn lemma_bit_remove_words(x: u64, k: u64, i: u64)
    by (bit_vector)
    requires
        k < 64,
        i < 64,
    ensures
        (((x & !(1u64 << k)) >> i) & 1u64 == 1u64) == (((x >> i) & 1u64 == 1u64) && i != k),
        (0u64 >> i) & 1u64 == 0u64,
{
}

proof fn lemma_range_min_bound(g: spec_fn(int) -> int, n: int)
    ensures
        range_min(g, n) <= 100,
    decreases n,
{
    if n > 0 {
        lemma_range_min_bound(g, n - 1);
    }
}

/// Splitting off one square of a word splits sums and least values over its squares.
proof fn lemma_on_bits_split(x: u64, d: u64, k: int, g: spec_fn(int) -> int, n: int)
    requires
        0 <= k < 64,
        n <= 64,
        forall|i: int| 0 <= i < 64 ==> #[trigger] has_bit(x, i as u64) == (has_bit(d, i as u64) || i == k),
        !has_bit(d, k as u64),
    ensures
        range_sum(on_bits(x, g, 0), n) == range_sum(on_bits(d, g, 0), n) + if k < n {
            g(k)
        } else {
            0
        },
        range_min(on_bits(x, g, 100), n) == if k < n {
            let m = range_min(on_bits(d, g, 100), n);
            if g(k) < m {
                g(k)
            } else {
                m
            }
        } else {
            range_min(on_bits(d, g, 100), n)
        },
    decreases n,
{
    if n > 0 {
        lemma_on_bits_split(x, d, k, g, n - 1);
        lemma_range_min_bound(on_bits(d, g, 100), n - 1);
        assert(has_bit(x, (n - 1) as u64) == (has_bit(d, (n - 1) as u64) || n - 1 == k));
    }
}

/// Sum of `g` over the squares of `x`, lowest square first.
pub open spec fn low_sum(x: u64, g: spec_fn(int) -> int) -> int
    decreases x,
{
    if x == 0 {
        0
    } else {
        proof {
            lemma_drop_low_smaller(x);
        }
        g(low_index(x) as int) + low_sum(drop_low(x), g)
    }
}

/// The least of 100 and `g` over the squares of `x`, lowest square first.
pub open spec fn low_min(x: u64, g: spec_fn(int) -> int) -> int
    decreases x,
{
    if x == 0 {
        100
    } else {
        proof {
            lemma_drop_low_smaller(x);
        }
        let m = low_min(drop_low(x), g);
        let v = g(low_index(x) as int);
        if v < m {
            v
        } else {
            m
        }
    }
}

proof fn lemma_empty_range(g: spec_fn(int) -> int, n: int)
    requires
        n <= 64,
    ensures
        range_sum(on_bits(0, g, 0), n) == 0,
        range_min(on_bits(0, g, 100), n) == 100,
    decreases n,
{
    if n > 0 {
        lemma_empty_range(g, n - 1);
        lemma_bit_remove_words(0, 0, (n - 1) as u64);
    }
}

/// Going through the squares lowest first gives the sum and the least value over them.
proof fn lemma_low_sum(x: u64, g: spec_fn(int) -> int)
    ensures
        low_sum(x, g) == bit_sum(x, g),
        low_min(x, g) == bit_min(x, g),
    decreases x,
{
    if x == 0 {
        lemma_empty_range(g, 64);
    } else {
        lemma_low_bit(x);
        let d = drop_low(x);
        let k = low_index(x);
        lemma_low_sum(d, g);
        assert forall|i: int| 0 <= i < 64 implies #[trigger] has_bit(x, i as u64) == (has_bit(
            d,
            i as u64,
        ) || i == k) by {
            lemma_bit_remove_words(x, k, i as u64);
            if i == k {
                assert(has_bit(x, k));
            }
        }
        lemma_bit_remove_words(x, k, k);
        lemma_on_bits_split(x, d, k as int, g, 64);
    }
}

/// One for every square.
pub open spec fn one() -> spec_fn(int) -> int {
    |i: int| 1int
}

/// The count of set bits is the sum of one over the squares.
proof fn lemma_pop_low_sum(x: u64)
    ensures
        pop(x) == low_sum(x, one()),
    decreases x,
{
    if x != 0 {
        lemma_low_bit(x);
        lemma_pop_low_sum(drop_low(x));
        lemma_pop_remove(x, low_bit(x));
    }
}

/// The runaway bonus of a white man on square `i`, with Black's pieces `black`.
pub open spec fn white_runaway_term(black: u64) -> spec_fn(int) -> int {
    |i: int|
        {
            let r = i / 8;
            r * 4 + if r >= 4 && black & ranks(r + 1, 8) == 0 {
                100int
            } else {
                0
            }
        }
}

/// The runaway bonus of a black man on square `i`, with White's pieces `white`.
pub open spec fn black_runaway_term(white: u64) -> spec_fn(int) -> int {
    |i: int|
        {
            let r = 7 - i / 8;
            r * 4 + if r >= 4 && white & ranks(0, 7 - r) == 0 {
                100int
            } else {
                0
            }
        }
}

/// The runaway bonuses, as sums over the men.
proof fn lemma_runaway_low_sum(x: u64, other: u64)
    ensures
        white_runaway(x, other) == low_sum(x, white_runaway_term(other)),
        black_runaway(x, other) == low_sum(x, black_runaway_term(other)),
    decreases x,
{
    if x != 0 {
        lemma_low_bit(x);
        lemma_runaway_low_sum(drop_low(x), other);
    }
}

/// The closing-in bonus of one square.
pub open spec fn closeness_term(p: (i32, i32), qs: Seq<(i32, i32)>) -> int {
    let m = nearest(p, qs);
    if m < 10 {
        (10 - m) * 10
    } else {
        0
    }
}

proof fn lemma_closeness_front(a: (i32, i32), rest: Seq<(i32, i32)>, qs: Seq<(i32, i32)>)
    ensures
        closeness(seq![a] + rest, qs) == closeness_term(a, qs) + closeness(rest, qs),
    decreases rest.len(),
{
    let t = seq![a] + rest;
    if rest.len() == 0 {
        assert(t.drop_last() =~= Seq::<(i32, i32)>::empty());
        assert(closeness(Seq::<(i32, i32)>::empty(), qs) == 0);
    } else {
        assert(t.drop_last() =~= seq![a] + rest.drop_last());
        lemma_closeness_front(a, rest.drop_last(), qs);
    }
}

proof fn lemma_nearest_front(p: (i32, i32), a: (i32, i32), rest: Seq<(i32, i32)>)
    ensures
        nearest(p, seq![a] + rest) == (if chebyshev(p, a) < nearest(p, rest) {
            chebyshev(p, a)
        } else {
            nearest(p, rest)
        }),
    decreases rest.len(),
{
    let t = seq![a] + rest;
    if rest.len() == 0 {
        assert(t.drop_last() =~= Seq::<(i32, i32)>::empty());
        assert(nearest(p, Seq::<(i32, i32)>::empty()) == 100);
    } else {
        assert(t.drop_last() =~= seq![a] + rest.drop_last());
        lemma_nearest_front(p, a, rest.drop_last());
    }
}

proof fn lemma_positions_front(x: u64)
    requires
        x != 0,
    ensures
        positions(x) == seq![coords(low_index(x))] + positions(drop_low(x)),
{
    assert(positions(x) =~= seq![coords(low_index(x))] + positions(drop_low(x)));
}

/// King-move distances from `p` to the squares.
pub open spec fn distances_from(p: (i32, i32)) -> spec_fn(int) -> int {
    |j: int| chebyshev(p, coords(j as u64))
}

/// Closing-in bonuses of the squares towards `qs`.
pub open spec fn closeness_terms(qs: Seq<(i32, i32)>) -> spec_fn(int) -> int {
    |i: int| closeness_term(coords(i as u64), qs)
}

/// The nearest distance, as a least value over the squares.
proof fn lemma_nearest_low_min(p: (i32, i32), y: u64)
    ensures
        nearest(p, positions(y)) == low_min(y, distances_from(p)),
    decreases y,
{
    if y == 0 {
        assert(positions(0) =~= Seq::<(i32, i32)>::empty());
    } else {
        lemma_low_bit(y);
        lemma_positions_front(y);
        lemma_nearest_low_min(p, drop_low(y));
        lemma_nearest_front(p, coords(low_index(y)), positions(drop_low(y)));
    }
}

/// The closing-in bonus, as a sum over the squares.
proof fn lemma_closeness_low_sum(x: u64, qs: Seq<(i32, i32)>)
    ensures
        closeness(positions(x), qs) == low_sum(x, closeness_terms(qs)),
    decreases x,
{
    if x == 0 {
        assert(positions(0) =~= Seq::<(i32, i32)>::empty());
    } else {
        lemma_low_bit(x);
        lemma_positions_front(x);
        lemma_closeness_low_sum(drop_low(x), qs);
        lemma_closeness_front(coords(low_index(x)), positions(drop_low(x)), qs);
    }
}

/// The squares of the ranks `lo .. hi`, in closed form.
pub open spec fn rank_span(lo: u64, hi: u64) -> u64 {
    if lo >= hi {
        0
    } else {
        (0xFFFFFFFFFFFFFFFFu64 >> ((8 - (hi - lo)) * 8) as u64) << (lo * 8) as u64
    }
}

proof fn lemma_rank_span_step(lo: u64, hi: u64)
    by (bit_vector)
    requires
        lo < hi,
        hi <= 8,
    ensures
        rank_span(lo, (hi - 1) as u64) | (0xFFu64 << ((hi - 1) * 8) as u64) == rank_span(lo, hi),
{
}

proof fn lemma_ranks_closed(lo: int, hi: int)
    requires
        0 <= lo <= 8,
        0 <= hi <= 8,
    ensures
        ranks(lo, hi) == rank_span(lo as u64, hi as u64),
    decreases hi - lo,
{
    if lo < hi {
        lemma_ranks_closed(lo, hi - 1);
        lemma_rank_span_step(lo as u64, hi as u64);
        assert(ranks(lo, hi) == ranks(lo, hi - 1) | (0xFFu64 << ((hi - 1) * 8) as u64));
    }
}

/// Turned half round, the ranks above rank `r` are the ranks below rank `7 - r`.
proof fn lemma_reverse_rank_span(r: u64)
    by (bit_vector)
    requires
        r < 8,
    ensures
        reverse_bits(rank_span((r + 1) as u64, 8)) == rank_span(0, (7 - r) as u64),
        reverse_bits(rank_span(0, (7 - r) as u64)) == rank_span((r + 1) as u64, 8),
{
}

/// The position turned half round with the sides swapped: every white piece becomes a black
/// piece of the same kind on the opposite square, every black piece a white one, and the other
/// side is to move.
pub open spec fn mirror(s: BitboardState) -> BitboardState {
    BitboardState {
        white_men: reverse_bits(s.black_men),
        black_men: reverse_bits(s.white_men),
        white_kings: reverse_bits(s.black_kings),
        black_kings: reverse_bits(s.white_kings),
        turn: opposite(s.turn),
    }
}

/// Two term functions that agree on the board give the same sums and least values.
proof fn lemma_bit_agree(x: u64, f: spec_fn(int) -> int, g: spec_fn(int) -> int)
    requires
        forall|i: int| 0 <= i < 64 ==> #[trigger] f(i) == g(i),
    ensures
        bit_sum(x, f) == bit_sum(x, g),
        bit_min(x, f) == bit_min(x, g),
{
    assert(on_bits(x, f, 0) =~= on_bits(x, g, 0));
    assert(on_bits(x, f, 100) =~= on_bits(x, g, 100));
}

/// Turning the board round keeps the number of pieces.
pub proof fn lemma_pop_reverse(x: u64)
    ensures
        pop(reverse_bits(x)) == pop(x),
{
    lemma_pop_low_sum(x);
    lemma_pop_low_sum(reverse_bits(x));
    lemma_low_sum(x, one());
    lemma_low_sum(reverse_bits(x), one());
    lemma_bit_sum_reverse(x, one());
    lemma_bit_agree(x, |i: int| one()(63 - i), one());
}

proof fn lemma_mirror_sides(s: BitboardState)
    ensures
        mirror(s).white_pieces() == reverse_bits(s.black_pieces()),
        mirror(s).black_pieces() == reverse_bits(s.white_pieces()),
        mirror(s).all_pieces() == reverse_bits(s.all_pieces()),
        pop(mirror(s).white_men) == pop(s.black_men),
        pop(mirror(s).black_men) == pop(s.white_men),
        pop(mirror(s).white_kings) == pop(s.black_kings),
        pop(mirror(s).black_kings) == pop(s.white_kings),
        white_total(mirror(s)) == black_total(s),
        black_total(mirror(s)) == white_total(s),
{
    lemma_reverse_words(s.black_men, s.black_kings);
    lemma_reverse_words(s.white_men, s.white_kings);
    lemma_reverse_words(s.white_pieces(), s.black_pieces());
    lemma_reverse_words(reverse_bits(s.black_pieces()), reverse_bits(s.white_pieces()));
    lemma_pop_reverse(s.white_men);
    lemma_pop_reverse(s.black_men);
    lemma_pop_reverse(s.white_kings);
    lemma_pop_reverse(s.black_kings);
}

/// `x` meets the mask `a` exactly where the turned word meets the turned mask.
proof fn lemma_reverse_meets(x: u64, a: u64)
    ensures
        (reverse_bits(x) & reverse_bits(a) == 0) == (x & a == 0),
        (reverse_bits(x) & reverse_bits(a) == reverse_bits(a)) == (x & a == a),
        pop(reverse_bits(x) & reverse_bits(a)) == pop(x & a),
{
    lemma_reverse_words(x, a);
    lemma_reverse_words(x & a, 0);
    lemma_reverse_words(a, 0);
    lemma_pop_reverse(x & a);
}

proof fn lemma_material_mirror(s: BitboardState)
    ensures
        material(mirror(s)) == -material(s),
        trading(mirror(s)) == -trading(s),
        corners(mirror(s)) == -corners(s),
{
    lemma_mirror_sides(s);
    lemma_reverse_masks();
    lemma_reverse_meets(s.black_kings, CORNER_BR);
    lemma_reverse_meets(s.black_kings, CORNER_TL);
    lemma_reverse_meets(s.white_kings, CORNER_BR);
    lemma_reverse_meets(s.white_kings, CORNER_TL);
}

/// A step of the men, turned round, is a step of the men of the other side.
proof fn lemma_step_mirror(x: u64, e: u64)
    ensures
        pop((reverse_bits(x) << 9u64) & reverse_bits(e) & NOT_A_FILE) == pop((x >> 9u64) & e
            & NOT_H_FILE),
        pop((reverse_bits(x) << 7u64) & reverse_bits(e) & NOT_H_FILE) == pop((x >> 7u64) & e
            & NOT_A_FILE),
        pop((reverse_bits(x) >> 9u64) & reverse_bits(e) & NOT_H_FILE) == pop((x << 9u64) & e
            & NOT_A_FILE),
        pop((reverse_bits(x) >> 7u64) & reverse_bits(e) & NOT_A_FILE) == pop((x << 7u64) & e
            & NOT_H_FILE),
{
    lemma_reverse_masks();
    lemma_reverse_words(x, e);
    assert(pop((reverse_bits(x) << 9u64) & reverse_bits(e) & NOT_A_FILE) == pop((x >> 9u64) & e
        & NOT_H_FILE)) by {
        lemma_reverse_words(x >> 9u64, e);
        lemma_reverse_words((x >> 9u64) & e, NOT_H_FILE);
        lemma_pop_reverse((x >> 9u64) & e & NOT_H_FILE);
    }
    assert(pop((reverse_bits(x) << 7u64) & reverse_bits(e) & NOT_H_FILE) == pop((x >> 7u64) & e
        & NOT_A_FILE)) by {
        lemma_reverse_words(x >> 7u64, e);
        lemma_reverse_words((x >> 7u64) & e, NOT_A_FILE);
        lemma_pop_reverse((x >> 7u64) & e & NOT_A_FILE);
    }
    assert(pop((reverse_bits(x) >> 9u64) & reverse_bits(e) & NOT_H_FILE) == pop((x << 9u64) & e
        & NOT_A_FILE)) by {
        lemma_reverse_words(x << 9u64, e);
        lemma_reverse_words((x << 9u64) & e, NOT_A_FILE);
        lemma_pop_reverse((x << 9u64) & e & NOT_A_FILE);
    }
    assert(pop((reverse_bits(x) >> 7u64) & reverse_bits(e) & NOT_A_FILE) == pop((x << 7u64) & e
        & NOT_H_FILE)) by {
        lemma_reverse_words(x << 7u64, e);
        lemma_reverse_words((x << 7u64) & e, NOT_H_FILE);
        lemma_pop_reverse((x << 7u64) & e & NOT_H_FILE);
    }
}

proof fn lemma_positional_mirror(s: BitboardState)
    ensures
        mobility(mirror(s)) == -mobility(s),
        center(mirror(s)) == -center(s),
        structure(mirror(s)) == -structure(s),
{
    let m = mirror(s);
    lemma_mirror_sides(s);
    lemma_reverse_masks();
    let empty = !s.all_pieces() & DARK_SQUARES;
    assert(!m.all_pieces() & DARK_SQUARES == reverse_bits(empty)) by {
        lemma_reverse_words(!s.all_pieces(), DARK_SQUARES);
        lemma_reverse_words(s.all_pieces(), 0);
    }
    lemma_step_mirror(s.black_men, empty);
    lemma_step_mirror(s.white_men, empty);
    lemma_reverse_meets(s.black_pieces(), CENTER_MASK);
    lemma_reverse_meets(s.white_pieces(), CENTER_MASK);
    lemma_reverse_meets(s.black_men, BLACK_BRIDGE);
    lemma_reverse_meets(s.white_men, WHITE_BRIDGE);
    lemma_reverse_meets(s.black_men, DOG_HOLES);
    lemma_reverse_meets(s.white_men, DOG_HOLES);
}

/// Square `63 - i` lies on the row and column opposite to those of square `i`.
proof fn lemma_coords_turn(i: int)
    requires
        0 <= i < 64,
    ensures
        (63 - i) / 8 == 7 - i / 8,
        coords((63 - i) as u64).0 == 7 - coords(i as u64).0,
        coords((63 - i) as u64).1 == 7 - coords(i as u64).1,
{
    assert((63 - i) / 8 == 7 - i / 8 && (63 - i) % 8 == 7 - i % 8) by (nonlinear_arith)
        requires
            0 <= i < 64,
    ;
}

proof fn lemma_runaway_mirror(x: u64, other: u64)
    ensures
        white_runaway(reverse_bits(x), reverse_bits(other)) == black_runaway(x, other),
        black_runaway(reverse_bits(x), reverse_bits(other)) == white_runaway(x, other),
{
    let rx = reverse_bits(x);
    let ro = reverse_bits(other);
    lemma_runaway_low_sum(rx, ro);
    lemma_runaway_low_sum(x, other);
    let w = white_runaway_term(ro);
    let b = black_runaway_term(other);
    lemma_low_sum(rx, w);
    lemma_low_sum(x, b);
    lemma_bit_sum_reverse(x, w);
    let f = |i: int| w(63 - i);
    assert forall|i: int| 0 <= i < 64 implies #[trigger] f(i) == b(i) by {
        lemma_coords_turn(i);
        let r = 7 - i / 8;
        if r >= 4 {
            lemma_ranks_closed(r + 1, 8);
            lemma_ranks_closed(0, 7 - r);
            lemma_reverse_rank_span(r as u64);
            lemma_reverse_meets(other, ranks(0, 7 - r));
        }
    }
    lemma_bit_agree(x, f, b);
    let w2 = white_runaway_term(other);
    let b2 = black_runaway_term(ro);
    lemma_low_sum(rx, b2);
    lemma_low_sum(x, w2);
    lemma_bit_sum_reverse(x, b2);
    let f2 = |i: int| b2(63 - i);
    assert forall|i: int| 0 <= i < 64 implies #[trigger] f2(i) == w2(i) by {
        lemma_coords_turn(i);
        let r = i / 8;
        if r >= 4 {
            lemma_ranks_closed(r + 1, 8);
            lemma_ranks_closed(0, 7 - r);
            lemma_reverse_rank_span(r as u64);
            lemma_reverse_meets(other, ranks(r + 1, 8));
        }
    }
    lemma_bit_agree(x, f2, w2);
}

proof fn lemma_nearest_mirror(i: int, y: u64)
    requires
        0 <= i < 64,
    ensures
        nearest(coords((63 - i) as u64), positions(reverse_bits(y))) == nearest(
            coords(i as u64),
            positions(y),
        ),
{
    let c = coords((63 - i) as u64);
    let d = coords(i as u64);
    lemma_nearest_low_min(c, reverse_bits(y));
    lemma_low_sum(reverse_bits(y), distances_from(c));
    lemma_bit_sum_reverse(y, distances_from(c));
    let f = |j: int| distances_from(c)(63 - j);
    assert forall|j: int| 0 <= j < 64 implies #[trigger] f(j) == distances_from(d)(j) by {
        lemma_coords_turn(i);
        lemma_coords_turn(j);
    }
    lemma_bit_agree(y, f, distances_from(d));
    lemma_nearest_low_min(d, y);
    lemma_low_sum(y, distances_from(d));
}

proof fn lemma_closeness_mirror(x: u64, y: u64)
    ensures
        closeness(positions(reverse_bits(x)), positions(reverse_bits(y))) == closeness(
            positions(x),
            positions(y),
        ),
{
    let q2 = positions(reverse_bits(y));
    let q = positions(y);
    lemma_closeness_low_sum(reverse_bits(x), q2);
    lemma_low_sum(reverse_bits(x), closeness_terms(q2));
    lemma_bit_sum_reverse(x, closeness_terms(q2));
    let f = |i: int| closeness_terms(q2)(63 - i);
    assert forall|i: int| 0 <= i < 64 implies #[trigger] f(i) == closeness_terms(q)(i) by {
        lemma_nearest_mirror(i, y);
    }
    lemma_bit_agree(x, f, closeness_terms(q));
    lemma_closeness_low_sum(x, q);
    lemma_low_sum(x, closeness_terms(q));
}

proof fn lemma_pursuit_mirror(s: BitboardState)
    ensures
        pursuit(mirror(s)) == -pursuit(s),
{
    lemma_mirror_sides(s);
    lemma_positions(s.white_pieces());
    lemma_positions(s.black_pieces());
    lemma_positions(reverse_bits(s.white_pieces()));
    lemma_positions(reverse_bits(s.black_pieces()));
    lemma_pop_reverse(s.white_pieces());
    lemma_pop_reverse(s.black_pieces());
    lemma_closeness_mirror(s.white_pieces(), s.black_pieces());
    lemma_closeness_mirror(s.black_pieces(), s.white_pieces());
}

/// Turning the board round and swapping the sides negates the score: a position is exactly as
/// good for White as its mirror image is for Black. Mirroring twice gives the position back.
pub proof fn lemma_evaluation_mirror(s: BitboardState)
    ensures
        evaluation(mirror(s)) == -evaluation(s),
        mirror(mirror(s)) == s,
{
    lemma_material_mirror(s);
    lemma_positional_mirror(s);
    lemma_pursuit_mirror(s);
    lemma_mirror_sides(s);
    lemma_runaway_mirror(s.black_men, s.white_pieces());
    lemma_runaway_mirror(s.white_men, s.black_pieces());
    lemma_reverse_words(s.white_men, 0);
    lemma_reverse_words(s.black_men, 0);
    lemma_reverse_words(s.white_kings, 0);
    lemma_reverse_words(s.black_kings, 0);
}

} // verus!
