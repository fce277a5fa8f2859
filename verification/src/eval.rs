use vstd::prelude::*;
use vstd::std_specs::bits::axiom_u64_trailing_zeros;
use crate::bits::{
    pop, bit_indices, low_bit, low_index, drop_low, lemma_low_bit, lemma_pop_bound,
    lemma_pop_remove, lemma_bit_indices, single_bit,
};
use crate::board::{
    BitboardState, CORNER_TL, CORNER_BR, NOT_A_FILE, NOT_H_FILE, DARK_SQUARES, CENTER_MASK,
    WHITE_BRIDGE, BLACK_BRIDGE, DOG_HOLES,
};

verus! {

/// (row from the top, column) of square `idx`.
pub open spec fn coords(idx: u64) -> (i32, i32) {
    ((7 - idx / 8) as i32, (idx % 8) as i32)
}

/// Coordinates of the set bits of `x`, lowest square first.
pub open spec fn positions(x: u64) -> Seq<(i32, i32)> {
    bit_indices(x).map_values(|idx: u64| coords(idx))
}

pub open spec fn abs_int(x: int) -> int {
    if x < 0 {
        -x
    } else {
        x
    }
}

/// King-move distance between two squares.
pub open spec fn chebyshev(a: (i32, i32), b: (i32, i32)) -> int {
    let dr = abs_int(a.0 - b.0);
    let dc = abs_int(a.1 - b.1);
    if dr >= dc {
        dr
    } else {
        dc
    }
}

/// The distance from `p` to the nearest square of `qs`, at most 100.
pub open spec fn nearest(p: (i32, i32), qs: Seq<(i32, i32)>) -> int
    decreases qs.len(),
{
    if qs.len() == 0 {
        100
    } else {
        let m = nearest(p, qs.drop_last());
        let d = chebyshev(p, qs.last());
        if d < m {
            d
        } else {
            m
        }
    }
}

/// For each square of `ps`, ten points for each step that its nearest square of `qs` is
/// closer than ten.
pub open spec fn closeness(ps: Seq<(i32, i32)>, qs: Seq<(i32, i32)>) -> int
    decreases ps.len(),
{
    if ps.len() == 0 {
        0
    } else {
        let m = nearest(ps.last(), qs);
        closeness(ps.drop_last(), qs) + if m < 10 {
            (10 - m) * 10
        } else {
            0
        }
    }
}

/// All squares on the ranks `lo .. hi` (counted from White's side).
pub open spec fn ranks(lo: int, hi: int) -> u64
    decreases hi - lo,
{
    if lo >= hi {
        0
    } else {
        ranks(lo, hi - 1) | (0xFFu64 << ((hi - 1) * 8) as u64)
    }
}

/// Bonus for White's men: four points per rank advanced, and a hundred for a man on the far
/// half with no black piece on any rank ahead of it.
pub open spec fn white_runaway(x: u64, black: u64) -> int
    decreases x,
{
    if x == 0 {
        0
    } else {
        proof {
            crate::bits::lemma_drop_low_smaller(x);
        }
        let rank = low_index(x) / 8;
        let free = rank >= 4 && black & ranks(rank + 1, 8) == 0;
        rank * 4 + (if free {
            100int
        } else {
            0
        }) + white_runaway(drop_low(x), black)
    }
}

/// Bonus for Black's men, counted from Black's side.
pub open spec fn black_runaway(x: u64, white: u64) -> int
    decreases x,
{
    if x == 0 {
        0
    } else {
        proof {
            crate::bits::lemma_drop_low_smaller(x);
        }
        let rank = 7 - low_index(x) / 8;
        let free = rank >= 4 && white & ranks(0, 7 - rank) == 0;
        rank * 4 + (if free {
            100int
        } else {
            0
        }) + black_runaway(drop_low(x), white)
    }
}

pub open spec fn material(s: BitboardState) -> int {
    100 * (pop(s.white_men) - pop(s.black_men)) + 350 * (pop(s.white_kings) - pop(s.black_kings))
}

pub open spec fn white_total(s: BitboardState) -> int {
    (pop(s.white_men) + pop(s.white_kings)) as int
}

pub open spec fn black_total(s: BitboardState) -> int {
    (pop(s.black_men) + pop(s.black_kings)) as int
}

/// Reward for trading down when ahead.
pub open spec fn trading(s: BitboardState) -> int {
    if white_total(s) > black_total(s) {
        (24 - black_total(s)) * 10
    } else if black_total(s) > white_total(s) {
        -((24 - white_total(s)) * 10)
    } else {
        0
    }
}

/// With five pieces or fewer left, thirty points for each king in a double corner.
pub open spec fn corners(s: BitboardState) -> int {
    if white_total(s) + black_total(s) <= 5 {
        (if s.white_kings & CORNER_TL != 0 {
            30int
        } else {
            0
        }) + (if s.white_kings & CORNER_BR != 0 {
            30int
        } else {
            0
        }) - (if s.black_kings & CORNER_TL != 0 {
            30int
        } else {
            0
        }) - (if s.black_kings & CORNER_BR != 0 {
            30int
        } else {
            0
        })
    } else {
        0
    }
}

/// In king endgames the stronger side is rewarded for closing in on the weaker.
pub open spec fn pursuit(s: BitboardState) -> int {
    let wt = white_total(s);
    let bt = black_total(s);
    let endgame = (pop(s.white_men) == 0 && pop(s.black_men) == 0) || wt + bt <= 6;
    let wp = positions(s.white_pieces());
    let bp = positions(s.black_pieces());
    if endgame && wt != bt {
        if wt > bt && bp.len() > 0 {
            closeness(wp, bp)
        } else if bt > wt && wp.len() > 0 {
            -closeness(bp, wp)
        } else {
            0
        }
    } else {
        0
    }
}

/// Five points per forward step a man could make.
pub open spec fn mobility(s: BitboardState) -> int {
    let empty = !s.all_pieces() & DARK_SQUARES;
    let w = pop((s.white_men << 9u64) & empty & NOT_A_FILE) + pop(
        (s.white_men << 7u64) & empty & NOT_H_FILE,
    );
    let b = pop((s.black_men >> 9u64) & empty & NOT_H_FILE) + pop(
        (s.black_men >> 7u64) & empty & NOT_A_FILE,
    );
    5 * (w - b)
}

/// Eight points per piece on the central squares.
pub open spec fn center(s: BitboardState) -> int {
    8 * (pop(s.white_pieces() & CENTER_MASK) - pop(s.black_pieces() & CENTER_MASK))
}

/// Thirty points for a complete back-rank bridge, twenty-five off for each man in a corner.
pub open spec fn structure(s: BitboardState) -> int {
    (if s.white_men & WHITE_BRIDGE == WHITE_BRIDGE {
        30int
    } else {
        0
    }) - (if s.black_men & BLACK_BRIDGE == BLACK_BRIDGE {
        30int
    } else {
        0
    }) - 25 * (pop(s.white_men & DOG_HOLES) - pop(s.black_men & DOG_HOLES))
}

/// Score of a position from White's point of view: the sum of the terms above.
pub open spec fn evaluation(s: BitboardState) -> int {
    material(s) + trading(s) + corners(s) + pursuit(s) + mobility(s) + center(s) + structure(s)
        + white_runaway(s.white_men, s.black_pieces()) - black_runaway(s.black_men, s.white_pieces())
}

/// Coordinates on the board lie in 0..=7.
pub open spec fn on_board(ps: Seq<(i32, i32)>) -> bool {
    forall|i: int| 0 <= i < ps.len() ==> 0 <= (#[trigger] ps[i]).0 <= 7 && 0 <= ps[i].1 <= 7
}

/// There is one coordinate pair per piece, and each lies on the board.
pub proof fn lemma_positions(x: u64)
    ensures
        positions(x).len() == pop(x),
        on_board(positions(x)),
{
    lemma_bit_indices(x);
    let p = positions(x);
    assert forall|i: int| 0 <= i < p.len() implies 0 <= (#[trigger] p[i]).0 <= 7 && 0 <= p[i].1
        <= 7 by {
        assert(bit_indices(x)[i] < 64);
    }
}

/// Coordinates of the pieces on `x`, lowest square first.
fn collect_positions(x: u64) -> (r: Vec<(i32, i32)>)
    ensures
        r@ == positions(x),
{
    let mut r: Vec<(i32, i32)> = Vec::with_capacity(12);
    let mut wp = x;
    while wp != 0
        invariant
            r@ + positions(wp) == positions(x),
        decreases wp,
    {
        proof {
            lemma_low_bit(wp);
            axiom_u64_trailing_zeros(wp);
            assert(positions(wp) =~= seq![coords(low_index(wp))] + positions(drop_low(wp)));
        }
        let idx = wp.trailing_zeros();
        let ghost before = r@;
        r.push((7 - (idx as i32 / 8), idx as i32 % 8));
        assert(before + positions(wp) =~= r@ + positions(drop_low(wp)));
        wp = wp & (wp - 1);
    }
    assert(r@ =~= positions(x));
    r
}

fn abs_i32(x: i32) -> (r: i32)
    requires
        x > i32::MIN,
    ensures
        r == abs_int(x as int),
{
    if x < 0 {
        -x
    } else {
        x
    }
}

proof fn lemma_nearest_range(p: (i32, i32), qs: Seq<(i32, i32)>)
    ensures
        0 <= nearest(p, qs) <= 100,
    decreases qs.len(),
{
    if qs.len() > 0 {
        lemma_nearest_range(p, qs.drop_last());
    }
}

proof fn lemma_closeness_range(ps: Seq<(i32, i32)>, qs: Seq<(i32, i32)>)
    ensures
        0 <= closeness(ps, qs) <= 100 * ps.len(),
    decreases ps.len(),
{
    if ps.len() > 0 {
        lemma_closeness_range(ps.drop_last(), qs);
        lemma_nearest_range(ps.last(), qs);
    }
}

/// King-move distance from `p` to the nearest square of `qs` (100 when there is none).
fn nearest_distance(p: (i32, i32), qs: &Vec<(i32, i32)>) -> (r: i32)
    requires
        0 <= p.0 <= 7,
        0 <= p.1 <= 7,
        on_board(qs@),
    ensures
        r == nearest(p, qs@),
{
    let (wr, wc) = p;
    let mut min_dist: i32 = 100;
    let mut j: usize = 0;
    while j < qs.len()
        invariant
            0 <= j <= qs.len(),
            (wr, wc) == p,
            0 <= wr <= 7,
            0 <= wc <= 7,
            on_board(qs@),
            min_dist == nearest(p, qs@.take(j as int)),
        decreases qs.len() - j,
    {
        let (br, bc) = qs[j];
        assert(0 <= qs@[j as int].0 <= 7 && 0 <= qs@[j as int].1 <= 7);
        let dr = abs_i32(wr - br);
        let dc = abs_i32(wc - bc);
        let dist = if dr >= dc {
            dr
        } else {
            dc
        };
        assert(qs@.take(j + 1).drop_last() =~= qs@.take(j as int));
        if dist < min_dist {
            min_dist = dist;
        }
        j = j + 1;
    }
    assert(qs@.take(qs.len() as int) =~= qs@);
    min_dist
}

/// The closing-in bonus of the squares `ps` towards the squares `qs` (see `closeness`).
fn closeness_score(ps: &Vec<(i32, i32)>, qs: &Vec<(i32, i32)>) -> (r: i32)
    requires
        ps.len() <= 64,
        on_board(ps@),
        on_board(qs@),
    ensures
        r == closeness(ps@, qs@),
{
    let mut total: i32 = 0;
    let mut i: usize = 0;
    while i < ps.len()
        invariant
            0 <= i <= ps.len(),
            ps.len() <= 64,
            on_board(ps@),
            on_board(qs@),
            total == closeness(ps@.take(i as int), qs@),
        decreases ps.len() - i,
    {
        proof {
            lemma_closeness_range(ps@.take(i as int), qs@);
            lemma_nearest_range(ps@[i as int], qs@);
        }
        assert(0 <= ps@[i as int].0 <= 7 && 0 <= ps@[i as int].1 <= 7);
        let min_dist = nearest_distance(ps[i], qs);
        assert(ps@.take(i + 1).drop_last() =~= ps@.take(i as int));
        if min_dist < 10 {
            total = total + (10 - min_dist) * 10;
        }
        i = i + 1;
    }
    assert(ps@.take(ps.len() as int) =~= ps@);
    total
}

/// The squares of the ranks `lo .. hi`.
fn rank_mask(lo: u32, hi: u32) -> (mask: u64)
    requires
        hi <= 8,
    ensures
        mask == ranks(lo as int, hi as int),
{
    let mut mask = 0u64;
    let mut r = lo;
    if lo >= hi {
        return mask;
    }
    while r < hi
        invariant
            lo <= r <= hi,
            hi <= 8,
            mask == ranks(lo as int, r as int),
        decreases hi - r,
    {
        mask = mask | (0xFFu64 << ((r * 8) as u64));
        r = r + 1;
    }
    mask
}

proof fn lemma_runaway_range(x: u64, other: u64)
    ensures
        0 <= white_runaway(x, other) <= 128 * pop(x),
        0 <= black_runaway(x, other) <= 128 * pop(x),
    decreases x,
{
    if x != 0 {
        lemma_low_bit(x);
        lemma_runaway_range(drop_low(x), other);
        let lb = low_bit(x);
        lemma_pop_remove(x, lb);
    }
}

/// The runaway bonus of White's men (see `white_runaway`).
fn white_runaway_score(men: u64, black: u64) -> (r: i32)
    ensures
        r == white_runaway(men, black),
{
    let mut total: i32 = 0;
    let mut w_men = men;
    proof {
        lemma_runaway_range(men, black);
        lemma_pop_bound(men);
    }
    while w_men != 0
        invariant
            total + white_runaway(w_men, black) == white_runaway(men, black),
            0 <= white_runaway(men, black) <= 8192,
        decreases w_men,
    {
        proof {
            lemma_low_bit(w_men);
            axiom_u64_trailing_zeros(w_men);
            lemma_runaway_range(w_men, black);
            lemma_runaway_range(drop_low(w_men), black);
        }
        let idx = w_men.trailing_zeros();
        let rank = idx / 8;
        total = total + rank as i32 * 4;
        if rank >= 4 {
            let mask = rank_mask(rank + 1, 8);
            if (black & mask) == 0 {
                total = total + 100;
            }
        }
        w_men = w_men & (w_men - 1);
    }
    total
}

/// The runaway bonus of Black's men (see `black_runaway`).
fn black_runaway_score(men: u64, white: u64) -> (r: i32)
    ensures
        r == black_runaway(men, white),
{
    let mut total: i32 = 0;
    let mut b_men = men;
    proof {
        lemma_runaway_range(men, white);
        lemma_pop_bound(men);
    }
    while b_men != 0
        invariant
            total + black_runaway(b_men, white) == black_runaway(men, white),
            0 <= black_runaway(men, white) <= 8192,
        decreases b_men,
    {
        proof {
            lemma_low_bit(b_men);
            axiom_u64_trailing_zeros(b_men);
            lemma_runaway_range(b_men, white);
            lemma_runaway_range(drop_low(b_men), white);
        }
        let idx = b_men.trailing_zeros();
        let rank = 7 - (idx / 8);
        total = total + rank as i32 * 4;
        if rank >= 4 {
            let mask = rank_mask(0, 7 - rank);
            if (white & mask) == 0 {
                total = total + 100;
            }
        }
        b_men = b_men & (b_men - 1);
    }
    total
}

/// Material, trading and corner terms.
fn material_score(state: &BitboardState) -> (score: i32)
    ensures
        score == material(*state) + trading(*state) + corners(*state),
{
    proof {
        lemma_pop_bound(state.white_men);
        lemma_pop_bound(state.black_men);
        lemma_pop_bound(state.white_kings);
        lemma_pop_bound(state.black_kings);
    }
    let mut score: i32 = 0;
    let wm = state.white_men.count_ones() as i32;
    let bm = state.black_men.count_ones() as i32;
    let wk = state.white_kings.count_ones() as i32;
    let bk = state.black_kings.count_ones() as i32;

    score = score + 100 * (wm - bm);
    score = score + 350 * (wk - bk);

    let w_total = wm + wk;
    let b_total = bm + bk;
    if w_total > b_total {
        score = score + (24 - b_total) * 10;
    } else if b_total > w_total {
        score = score - (24 - w_total) * 10;
    }

    if w_total + b_total <= 5 {
        if (state.white_kings & CORNER_TL) != 0 {
            score = score + 30;
        }
        if (state.white_kings & CORNER_BR) != 0 {
            score = score + 30;
        }
        if (state.black_kings & CORNER_TL) != 0 {
            score = score - 30;
        }
        if (state.black_kings & CORNER_BR) != 0 {
            score = score - 30;
        }
    }
    score
}

/// The closing-in term of king endgames (see `pursuit`).
fn pursuit_score(state: &BitboardState) -> (score: i32)
    ensures
        score == pursuit(*state),
        -6400 <= score <= 6400,
{
    proof {
        lemma_pop_bound(state.white_men);
        lemma_pop_bound(state.black_men);
        lemma_pop_bound(state.white_kings);
        lemma_pop_bound(state.black_kings);
        lemma_pop_bound(state.white_pieces());
        lemma_pop_bound(state.black_pieces());
        lemma_positions(state.white_pieces());
        lemma_positions(state.black_pieces());
        lemma_closeness_range(positions(state.white_pieces()), positions(state.black_pieces()));
        lemma_closeness_range(positions(state.black_pieces()), positions(state.white_pieces()));
    }
    let wm = state.white_men.count_ones() as i32;
    let bm = state.black_men.count_ones() as i32;
    let w_total = wm + state.white_kings.count_ones() as i32;
    let b_total = bm + state.black_kings.count_ones() as i32;
    let mut score: i32 = 0;
    let is_king_endgame = (wm == 0 && bm == 0) || (w_total + b_total <= 6);
    if is_king_endgame && w_total != b_total {
        let w_positions = collect_positions(state.white_pieces());
        let b_positions = collect_positions(state.black_pieces());
        if w_total > b_total && b_positions.len() != 0 {
            score = score + closeness_score(&w_positions, &b_positions);
        } else if b_total > w_total && w_positions.len() != 0 {
            score = score - closeness_score(&b_positions, &w_positions);
        }
    }
    score
}

/// Mobility, center and structure terms.
fn positional_score(state: &BitboardState) -> (score: i32)
    ensures
        score == mobility(*state) + center(*state) + structure(*state),
{
    let empty = !state.all_pieces() & DARK_SQUARES;
    proof {
        lemma_pop_bound((state.white_men << 9u64) & empty & NOT_A_FILE);
        lemma_pop_bound((state.white_men << 7u64) & empty & NOT_H_FILE);
        lemma_pop_bound((state.black_men >> 9u64) & empty & NOT_H_FILE);
        lemma_pop_bound((state.black_men >> 7u64) & empty & NOT_A_FILE);
        lemma_pop_bound(state.white_pieces() & CENTER_MASK);
        lemma_pop_bound(state.black_pieces() & CENTER_MASK);
        lemma_pop_bound(state.white_men & DOG_HOLES);
        lemma_pop_bound(state.black_men & DOG_HOLES);
    }
    let mut score: i32 = 0;
    let wm_mob = ((state.white_men << 9u64) & empty & NOT_A_FILE).count_ones() + ((state.white_men
        << 7u64) & empty & NOT_H_FILE).count_ones();
    let bm_mob = ((state.black_men >> 9u64) & empty & NOT_H_FILE).count_ones() + ((state.black_men
        >> 7u64) & empty & NOT_A_FILE).count_ones();
    score = score + 5 * (wm_mob as i32 - bm_mob as i32);

    let w_center = (state.white_pieces() & CENTER_MASK).count_ones() as i32;
    let b_center = (state.black_pieces() & CENTER_MASK).count_ones() as i32;
    score = score + 8 * (w_center - b_center);

    if (state.white_men & WHITE_BRIDGE) == WHITE_BRIDGE {
        score = score + 30;
    }
    if (state.black_men & BLACK_BRIDGE) == BLACK_BRIDGE {
        score = score - 30;
    }
    let w_dog = (state.white_men & DOG_HOLES).count_ones() as i32;
    let b_dog = (state.black_men & DOG_HOLES).count_ones() as i32;
    score = score - 25 * (w_dog - b_dog);
    score
}

proof fn lemma_term_ranges(s: BitboardState)
    ensures
        -30000 <= material(s) + trading(s) + corners(s) <= 30000,
        -3000 <= mobility(s) + center(s) + structure(s) <= 3000,
        0 <= white_runaway(s.white_men, s.black_pieces()) <= 8192,
        0 <= black_runaway(s.black_men, s.white_pieces()) <= 8192,
{
    lemma_pop_bound(s.white_men);
    lemma_pop_bound(s.black_men);
    lemma_pop_bound(s.white_kings);
    lemma_pop_bound(s.black_kings);
    let empty = !s.all_pieces() & DARK_SQUARES;
    lemma_pop_bound((s.white_men << 9u64) & empty & NOT_A_FILE);
    lemma_pop_bound((s.white_men << 7u64) & empty & NOT_H_FILE);
    lemma_pop_bound((s.black_men >> 9u64) & empty & NOT_H_FILE);
    lemma_pop_bound((s.black_men >> 7u64) & empty & NOT_A_FILE);
    lemma_pop_bound(s.white_pieces() & CENTER_MASK);
    lemma_pop_bound(s.black_pieces() & CENTER_MASK);
    lemma_pop_bound(s.white_men & DOG_HOLES);
    lemma_pop_bound(s.black_men & DOG_HOLES);
    lemma_runaway_range(s.white_men, s.black_pieces());
    lemma_runaway_range(s.black_men, s.white_pieces());
}

/// Static score of a position from White's point of view (see `evaluation`).
pub fn evaluate_board(state: &BitboardState) -> (score: i32)
    ensures
        score == evaluation(*state),
        -60000 <= score <= 60000,
{
    proof {
        lemma_term_ranges(*state);
    }
    let mut score = material_score(state);
    score = score + pursuit_score(state);
    score = score + positional_score(state);
    score = score + white_runaway_score(state.white_men, state.black_pieces());
    score = score - black_runaway_score(state.black_men, state.white_pieces());
    score
}

/// The score of any position lies within 60000 either way.
pub proof fn lemma_evaluation_range(s: BitboardState)
    ensures
        -60000 <= evaluation(s) <= 60000,
{
    lemma_term_ranges(s);
    lemma_pop_bound(s.white_pieces());
    lemma_pop_bound(s.black_pieces());
    lemma_positions(s.white_pieces());
    lemma_positions(s.black_pieces());
    lemma_closeness_range(positions(s.white_pieces()), positions(s.black_pieces()));
    lemma_closeness_range(positions(s.black_pieces()), positions(s.white_pieces()));
}

} // verus!
