use vstd::prelude::*;
use vstd::std_specs::bits::axiom_u64_trailing_zeros;
use crate::bits::{
    pop, single_bit, low_bit, drop_low, lemma_low_bit, lemma_drop_low_smaller,
    lemma_drop_low_subset, lemma_word_facts,
};
use crate::board::{
    BitboardState, Move, PieceColor, legal_move, NOT_A_FILE, NOT_H_FILE, DARK_SQUARES,
    WHITE_PROMOTION_RANK, BLACK_PROMOTION_RANK,
};

verus! {

/// A diagonal direction, as the change of square index: 9 and 7 towards Black's side (up and
/// to the h file, up and to the a file), -9 and -7 towards White's side.
pub open spec fn is_dir(d: int) -> bool {
    d == 9 || d == 7 || d == -9 || d == -7
}

/// Every bit of `x` moved one step in direction `d` (bits leaving the board are lost).
pub open spec fn shift(x: u64, d: int) -> u64 {
    if d == 9 {
        x << 9u64
    } else if d == 7 {
        x << 7u64
    } else if d == -9 {
        x >> 9u64
    } else {
        x >> 7u64
    }
}

/// The squares a step in direction `d` may land on without wrapping round the board's edge.
pub open spec fn dir_mask(d: int) -> u64 {
    if d == 9 || d == -7 {
        NOT_A_FILE
    } else {
        NOT_H_FILE
    }
}

/// The empty playing squares.
pub open spec fn empty_squares(s: BitboardState) -> u64 {
    !s.all_pieces() & DARK_SQUARES
}

/// One step in direction `d`.
pub fn shift_dir(x: u64, d: i32) -> (r: u64)
    requires
        is_dir(d as int),
    ensures
        r == shift(x, d as int),
{
    if d == 9 {
        x << 9u64
    } else if d == 7 {
        x << 7u64
    } else if d == -9 {
        x >> 9u64
    } else {
        x >> 7u64
    }
}

/// Plain steps onto the squares of `targets`, lowest square first, each made by the piece one
/// step back against direction `d`.
pub open spec fn step_moves(targets: u64, d: int) -> Seq<Move>
    decreases targets,
{
    if targets == 0 {
        seq![]
    } else {
        proof {
            lemma_drop_low_smaller(targets);
        }
        seq![Move { from: shift(low_bit(targets), -d), to: low_bit(targets), captures: 0 }]
            + step_moves(drop_low(targets), d)
    }
}

/// The king step from `from` in direction `d`, if it lands on an empty square.
pub open spec fn king_step(from: u64, d: int, empty: u64) -> Seq<Move> {
    if shift(from, d) & empty & dir_mask(d) != 0 {
        seq![Move { from, to: shift(from, d), captures: 0 }]
    } else {
        seq![]
    }
}

/// The king steps from `from`, in the directions 9, 7, -9, -7.
pub open spec fn king_steps(from: u64, empty: u64) -> Seq<Move> {
    king_step(from, 9, empty) + king_step(from, 7, empty) + king_step(from, -9, empty)
        + king_step(from, -7, empty)
}

/// The king steps of every king in `kings`, lowest king first.
pub open spec fn king_moves(kings: u64, empty: u64) -> Seq<Move>
    decreases kings,
{
    if kings == 0 {
        seq![]
    } else {
        proof {
            lemma_drop_low_smaller(kings);
        }
        king_steps(low_bit(kings), empty) + king_moves(drop_low(kings), empty)
    }
}

/// The non-capturing moves of the side to move, in order: men's steps in the first forward
/// direction, then in the second, then kings' steps.
pub open spec fn simple_moves_spec(s: BitboardState) -> Seq<Move> {
    let empty = empty_squares(s);
    if s.turn == PieceColor::White {
        step_moves((s.white_men << 9u64) & empty & NOT_A_FILE, 9) + step_moves(
            (s.white_men << 7u64) & empty & NOT_H_FILE,
            7,
        ) + king_moves(s.white_kings, empty)
    } else {
        step_moves((s.black_men >> 9u64) & empty & NOT_H_FILE, -9) + step_moves(
            (s.black_men >> 7u64) & empty & NOT_A_FILE,
            -7,
        ) + king_moves(s.black_kings, empty)
    }
}

/// Appends `step_moves(targets, d)`.
fn push_steps(moves: &mut Vec<Move>, targets: u64, d: i32)
    requires
        is_dir(d as int),
    ensures
        final(moves)@ == old(moves)@ + step_moves(targets, d as int),
{
    let mut to = targets;
    while to != 0
        invariant
            is_dir(d as int),
            moves@ + step_moves(to, d as int) == old(moves)@ + step_moves(targets, d as int),
        decreases to,
    {
        proof {
            lemma_low_bit(to);
            axiom_u64_trailing_zeros(to);
        }
        let t = 1u64 << (to.trailing_zeros() as u64);
        assert(t == low_bit(to));
        let from = shift_dir(t, -d);
        let ghost before = moves@;
        moves.push(Move { from, to: t, captures: 0 });
        assert(before + step_moves(to, d as int) == moves@ + step_moves(drop_low(to), d as int));
        to = to & (to - 1);
    }
}

/// Appends `king_steps(from, empty)`.
fn push_king_steps(moves: &mut Vec<Move>, from: u64, empty: u64)
    ensures
        final(moves)@ == old(moves)@ + king_steps(from, empty),
{
    let ghost start = moves@;
    let to = from << 9u64;
    if (to & empty & NOT_A_FILE) != 0 {
        moves.push(Move { from, to, captures: 0 });
    }
    assert(moves@ == start + king_step(from, 9, empty));
    let ghost s1 = moves@;
    let to = from << 7u64;
    if (to & empty & NOT_H_FILE) != 0 {
        moves.push(Move { from, to, captures: 0 });
    }
    assert(moves@ == s1 + king_step(from, 7, empty));
    let ghost s2 = moves@;
    let to = from >> 9u64;
    if (to & empty & NOT_H_FILE) != 0 {
        moves.push(Move { from, to, captures: 0 });
    }
    assert(moves@ == s2 + king_step(from, -9, empty));
    let ghost s3 = moves@;
    let to = from >> 7u64;
    if (to & empty & NOT_A_FILE) != 0 {
        moves.push(Move { from, to, captures: 0 });
    }
    assert(moves@ == s3 + king_step(from, -7, empty));
    assert(moves@ == start + king_steps(from, empty));
}

/// The non-capturing moves of the side to move (see `simple_moves_spec`).
pub fn generate_simple_moves(state: &BitboardState) -> (moves: Vec<Move>)
    ensures
        moves@ == simple_moves_spec(*state),
{
    let mut moves: Vec<Move> = Vec::with_capacity(32);
    let (men, kings) = match state.turn {
        PieceColor::White => (state.white_men, state.white_kings),
        PieceColor::Black => (state.black_men, state.black_kings),
    };
    let empty = !state.all_pieces() & DARK_SQUARES;

    if state.turn == PieceColor::White {
        push_steps(&mut moves, (men << 9u64) & empty & NOT_A_FILE, 9);
        push_steps(&mut moves, (men << 7u64) & empty & NOT_H_FILE, 7);
    } else {
        push_steps(&mut moves, (men >> 9u64) & empty & NOT_H_FILE, -9);
        push_steps(&mut moves, (men >> 7u64) & empty & NOT_A_FILE, -7);
    }
    let ghost men_moves = moves@;

    let mut k = kings;
    while k != 0
        invariant
            moves@ + king_moves(k, empty) == men_moves + king_moves(kings, empty),
        decreases k,
    {
        proof {
            lemma_low_bit(k);
            axiom_u64_trailing_zeros(k);
        }
        let from = 1u64 << (k.trailing_zeros() as u64);
        let ghost before = moves@;
        push_king_steps(&mut moves, from, empty);
        assert(before + king_moves(k, empty) == moves@ + king_moves(drop_low(k), empty));
        k = k & (k - 1);
    }
    assert(moves@ == simple_moves_spec(*state));
    moves
}

/// Whether the piece on `start` is a king.
pub open spec fn king_at(s: BitboardState, start: u64) -> bool {
    (s.white_kings | s.black_kings) & start != 0
}

/// The colour of the piece on `start` (Black when no white piece stands there).
pub open spec fn color_at(s: BitboardState, start: u64) -> PieceColor {
    if s.white_pieces() & start != 0 {
        PieceColor::White
    } else {
        PieceColor::Black
    }
}

/// The pieces that the piece on `start` may jump: those of the other colour.
pub open spec fn jump_targets(s: BitboardState, start: u64) -> u64 {
    if color_at(s, start) == PieceColor::White {
        s.black_pieces()
    } else {
        s.white_pieces()
    }
}

/// The directions in which the piece on `start` jumps: all four for a king, forward for a man.
pub open spec fn jump_dirs(s: BitboardState, start: u64) -> Seq<i32> {
    if king_at(s, start) {
        seq![9i32, 7i32, -9i32, -7i32]
    } else if color_at(s, start) == PieceColor::White {
        seq![9i32, 7i32]
    } else {
        seq![-9i32, -7i32]
    }
}

/// The piece that started on `start`, now on `cur` having jumped `cap`, can jump in direction
/// `d`: the next square holds a not yet jumped opposing piece and the one beyond is empty.
pub open spec fn can_jump(s: BitboardState, start: u64, cur: u64, cap: u64, d: int) -> bool {
    let over = shift(cur, d);
    let land = shift(over, d);
    &&& over & (jump_targets(s, start) & !cap) & dir_mask(d) != 0
    &&& land & !s.all_pieces() & DARK_SQUARES & dir_mask(d) != 0
}

/// Some direction of `dirs` from index `i` on allows a jump.
pub open spec fn any_jump(
    s: BitboardState,
    start: u64,
    cur: u64,
    cap: u64,
    dirs: Seq<i32>,
    i: int,
) -> bool
    decreases dirs.len() - i,
{
    if i < 0 || i >= dirs.len() {
        false
    } else {
        can_jump(s, start, cur, cap, dirs[i] as int) || any_jump(s, start, cur, cap, dirs, i + 1)
    }
}

pub proof fn lemma_jump_shrinks(opp: u64, cap: u64, over: u64, mask: u64)
    requires
        over & (opp & !cap) & mask != 0,
    ensures
        opp & !(cap | over) < opp & !cap,
{
    assert(over & (opp & !cap) & mask != 0 ==> opp & !(cap | over) < opp & !cap) by (bit_vector);
}

/// Every maximal sequence of jumps of the piece that started on `start`, now on `cur` having
/// jumped `cap`, as one move each, found by trying the directions in order, depth first. A
/// piece that can jump no further ends a move there, unless it has jumped nothing.
pub open spec fn jump_paths(s: BitboardState, start: u64, cur: u64, cap: u64) -> Seq<Move>
    decreases jump_targets(s, start) & !cap, 5int,
{
    let dirs = jump_dirs(s, start);
    if !any_jump(s, start, cur, cap, dirs, 0) && cap != 0 {
        seq![Move { from: start, to: cur, captures: cap }]
    } else {
        jumps_from(s, start, cur, cap, dirs, 0)
    }
}

/// The moves found by jumping in each direction of `dirs` from index `i` on.
pub open spec fn jumps_from(
    s: BitboardState,
    start: u64,
    cur: u64,
    cap: u64,
    dirs: Seq<i32>,
    i: int,
) -> Seq<Move>
    decreases jump_targets(s, start) & !cap, dirs.len() - i,
{
    if i < 0 || i >= dirs.len() || dirs.len() > 4 {
        seq![]
    } else {
        let d = dirs[i] as int;
        let over = shift(cur, d);
        let land = shift(over, d);
        let here = if can_jump(s, start, cur, cap, d) {
            proof {
                lemma_jump_shrinks(jump_targets(s, start), cap, over, dir_mask(d));
            }
            jump_paths(s, start, land, cap | over)
        } else {
            seq![]
        };
        here + jumps_from(s, start, cur, cap, dirs, i + 1)
    }
}

/// Without a jump in any direction, no move is found.
pub proof fn lemma_no_jump_no_paths(
    s: BitboardState,
    start: u64,
    cur: u64,
    cap: u64,
    dirs: Seq<i32>,
    i: int,
)
    requires
        !any_jump(s, start, cur, cap, dirs, i),
    ensures
        jumps_from(s, start, cur, cap, dirs, i) == Seq::<Move>::empty(),
    decreases dirs.len() - i,
{
    if !(i < 0 || i >= dirs.len() || dirs.len() > 4) {
        lemma_no_jump_no_paths(s, start, cur, cap, dirs, i + 1);
        assert(jumps_from(s, start, cur, cap, dirs, i) =~= Seq::<Move>::empty());
    }
}

/// Appends every maximal jump sequence (see `jump_paths`).
pub fn find_capture_paths_recursive(
    state: &BitboardState,
    start: u64,
    current: u64,
    captured: u64,
    paths: &mut Vec<Move>,
)
    ensures
        final(paths)@ == old(paths)@ + jump_paths(*state, start, current, captured),
    decreases jump_targets(*state, start) & !captured,
{
    let mut found = false;
    let is_king = (state.white_kings | state.black_kings) & start != 0;
    let color = if (state.white_pieces() & start) != 0 {
        PieceColor::White
    } else {
        PieceColor::Black
    };
    let opp = if color == PieceColor::White {
        state.black_pieces()
    } else {
        state.white_pieces()
    };
    let valid_opp = opp & !captured;
    let all = state.all_pieces();

    let dirs: Vec<i32> = if is_king {
        vec![9, 7, -9, -7]
    } else if color == PieceColor::White {
        vec![9, 7]
    } else {
        vec![-9, -7]
    };
    assert(dirs@ == jump_dirs(*state, start));
    let ghost sdirs = dirs@;

    let mut i: usize = 0;
    while i < dirs.len()
        invariant
            sdirs == dirs@,
            sdirs == jump_dirs(*state, start),
            0 <= i <= dirs.len(),
            opp == jump_targets(*state, start),
            valid_opp == opp & !captured,
            all == state.all_pieces(),
            paths@ + jumps_from(*state, start, current, captured, sdirs, i as int) == old(paths)@
                + jumps_from(*state, start, current, captured, sdirs, 0),
            any_jump(*state, start, current, captured, sdirs, 0) == (found || any_jump(
                *state,
                start,
                current,
                captured,
                sdirs,
                i as int,
            )),
        decreases dirs.len() - i,
    {
        let d = dirs[i];
        let jump_over = shift_dir(current, d);
        let land = shift_dir(jump_over, d);
        let mask1 = if d == 9 || d == -7 {
            NOT_A_FILE
        } else {
            NOT_H_FILE
        };
        let mask2 = mask1;
        let ghost before = paths@;
        if (jump_over & valid_opp & mask1) != 0 && (land & !all & DARK_SQUARES & mask2) != 0 {
            found = true;
            proof {
                lemma_jump_shrinks(opp, captured, jump_over, mask1);
            }
            find_capture_paths_recursive(state, start, land, captured | jump_over, paths);
        }
        assert(before + jumps_from(*state, start, current, captured, sdirs, i as int) == paths@
            + jumps_from(*state, start, current, captured, sdirs, i + 1));
        i = i + 1;
    }

    if !found && captured != 0 {
        proof {
            lemma_no_jump_no_paths(*state, start, current, captured, sdirs, 0);
        }
        paths.push(Move { from: start, to: current, captures: captured });
    }
    assert(paths@ == old(paths)@ + jump_paths(*state, start, current, captured));
}

/// The jump sequences of every piece of `pieces`, lowest square first.
pub open spec fn all_jump_paths(s: BitboardState, pieces: u64) -> Seq<Move>
    decreases pieces,
{
    if pieces == 0 {
        seq![]
    } else {
        proof {
            lemma_drop_low_smaller(pieces);
        }
        jump_paths(s, low_bit(pieces), low_bit(pieces), 0) + all_jump_paths(s, drop_low(pieces))
    }
}

/// The largest number of pieces that a move of `ms` jumps (0 for no move).
pub open spec fn max_captured(ms: Seq<Move>) -> nat
    decreases ms.len(),
{
    if ms.len() == 0 {
        0
    } else {
        let rest = max_captured(ms.drop_last());
        let last = pop(ms.last().captures);
        if rest >= last {
            rest
        } else {
            last
        }
    }
}

/// The moves of `ms` that jump the most pieces, in their order.
pub open spec fn keep_most_captures(ms: Seq<Move>) -> Seq<Move> {
    ms.filter(|m: Move| pop(m.captures) == max_captured(ms))
}

/// The capture list of a set of jump sequences: empty without one, else all of them, or, when
/// the most captures are forced, those that jump the most pieces.
pub open spec fn capture_choice(ms: Seq<Move>, force_max: bool) -> Seq<Move> {
    if ms.len() == 0 {
        seq![]
    } else if force_max {
        keep_most_captures(ms)
    } else {
        ms
    }
}

/// The capturing moves of the side to move.
pub open spec fn captures_spec(s: BitboardState, force_max: bool) -> Seq<Move> {
    capture_choice(all_jump_paths(s, s.own_pieces()), force_max)
}

/// The capturing moves of the piece on `pos`.
pub open spec fn captures_from_spec(s: BitboardState, pos: u64, force_max: bool) -> Seq<Move> {
    capture_choice(jump_paths(s, pos, pos, 0), force_max)
}

/// The moves of the side to move: the captures when there are any (capturing is
/// compulsory), else the plain steps.
pub open spec fn all_moves_spec(s: BitboardState, force_max: bool) -> Seq<Move> {
    let caps = captures_spec(s, force_max);
    if caps.len() > 0 {
        caps
    } else {
        simple_moves_spec(s)
    }
}

/// Keeps the moves that jump the most pieces (see `keep_most_captures`).
pub fn retain_most_captures(moves: Vec<Move>) -> (r: Vec<Move>)
    ensures
        r@ == keep_most_captures(moves@),
{
    let mut max_cap: u32 = 0;
    let mut i: usize = 0;
    while i < moves.len()
        invariant
            0 <= i <= moves.len(),
            max_cap == max_captured(moves@.take(i as int)),
        decreases moves.len() - i,
    {
        let c = moves[i].captures.count_ones();
        assert(moves@.take(i + 1).drop_last() =~= moves@.take(i as int));
        if c > max_cap {
            max_cap = c;
        }
        i = i + 1;
    }
    assert(moves@.take(moves.len() as int) =~= moves@);
    let ghost pred = |m: Move| pop(m.captures) == max_captured(moves@);
    let mut r: Vec<Move> = Vec::new();
    let mut j: usize = 0;
    while j < moves.len()
        invariant
            0 <= j <= moves.len(),
            max_cap == max_captured(moves@),
            pred == (|m: Move| pop(m.captures) == max_captured(moves@)),
            r@ == moves@.take(j as int).filter(pred),
        decreases moves.len() - j,
    {
        let m = moves[j];
        assert(moves@.take(j + 1).drop_last() =~= moves@.take(j as int));
        reveal_with_fuel(Seq::filter, 1);
        if m.captures.count_ones() == max_cap {
            r.push(m);
        }
        j = j + 1;
    }
    r
}

/// The capture list for a set of jump sequences (see `capture_choice`).
fn choose_captures(moves: Vec<Move>, force_max: bool) -> (r: Vec<Move>)
    ensures
        r@ == capture_choice(moves@, force_max),
{
    if moves.len() == 0 {
        return Vec::new();
    }
    if force_max {
        retain_most_captures(moves)
    } else {
        moves
    }
}

/// The capturing moves of the side to move (see `captures_spec`).
pub fn generate_captures(state: &BitboardState, force_max: bool) -> (r: Vec<Move>)
    ensures
        r@ == captures_spec(*state, force_max),
{
    let mut moves: Vec<Move> = Vec::new();
    let pieces = if state.turn == PieceColor::White {
        state.white_pieces()
    } else {
        state.black_pieces()
    };
    let mut p = pieces;
    while p != 0
        invariant
            moves@ + all_jump_paths(*state, p) == all_jump_paths(*state, pieces),
        decreases p,
    {
        proof {
            lemma_low_bit(p);
            axiom_u64_trailing_zeros(p);
        }
        let from = 1u64 << (p.trailing_zeros() as u64);
        let ghost before = moves@;
        find_capture_paths_recursive(state, from, from, 0, &mut moves);
        assert(before + all_jump_paths(*state, p) == moves@ + all_jump_paths(*state, drop_low(p)));
        p = p & (p - 1);
    }
    assert(moves@ =~= all_jump_paths(*state, pieces));
    choose_captures(moves, force_max)
}

/// The capturing moves of the piece on `pos` (see `captures_from_spec`).
pub fn generate_captures_from_pos(state: &BitboardState, pos: u64, force_max: bool) -> (r: Vec<
    Move,
>)
    ensures
        r@ == captures_from_spec(*state, pos, force_max),
{
    let mut moves: Vec<Move> = Vec::new();
    find_capture_paths_recursive(state, pos, pos, 0, &mut moves);
    assert(moves@ =~= jump_paths(*state, pos, pos, 0));
    choose_captures(moves, force_max)
}

/// The moves of the side to move (see `all_moves_spec`).
pub fn generate_all_moves(state: &BitboardState, force_max: bool) -> (r: Vec<Move>)
    ensures
        r@ == all_moves_spec(*state, force_max),
{
    let captures = generate_captures(state, force_max);
    if captures.len() != 0 {
        return captures;
    }
    generate_simple_moves(state)
}

/// A step changes rank: a move onto a promotion rank does not start on it.
pub open spec fn changes_rank(m: Move) -> bool {
    &&& m.to & WHITE_PROMOTION_RANK != 0 ==> m.from & WHITE_PROMOTION_RANK == 0
    &&& m.to & BLACK_PROMOTION_RANK != 0 ==> m.from & BLACK_PROMOTION_RANK == 0
}

/// A bit of a word lies in every superset of it.
pub proof fn lemma_bit_in_superset(b: u64, x: u64, y: u64)
    requires
        b & x != 0,
        x & !y == 0,
    ensures
        b & y != 0,
{
    assert(b & x != 0 && x & !y == 0 ==> b & y != 0) by (bit_vector);
}

/// Every move of `step_moves(targets, d)` lands on a single square of `targets` and starts one
/// step back from it.
proof fn lemma_step_moves_shape(targets: u64, d: int)
    ensures
        forall|i: int|
            0 <= i < step_moves(targets, d).len() ==> {
                let m = #[trigger] step_moves(targets, d)[i];
                &&& single_bit(m.to)
                &&& m.to & targets != 0
                &&& m.from == shift(m.to, -d)
                &&& m.captures == 0
            },
    decreases targets,
{
    if targets != 0 {
        lemma_low_bit(targets);
        lemma_drop_low_subset(targets);
        lemma_step_moves_shape(drop_low(targets), d);
        let rest = drop_low(targets);
        assert forall|i: int| 0 <= i < step_moves(targets, d).len() implies {
            let m = #[trigger] step_moves(targets, d)[i];
            &&& single_bit(m.to)
            &&& m.to & targets != 0
            &&& m.from == shift(m.to, -d)
            &&& m.captures == 0
        } by {
            if i > 0 {
                let m = step_moves(targets, d)[i];
                assert(m == step_moves(rest, d)[i - 1]);
                lemma_bit_in_superset(m.to, rest, targets);
            } else {

            }
        }
    }
}

/// A man's step onto an empty square, in each direction, is a legal step that changes rank.
proof fn lemma_man_step_words(men: u64, all: u64, t: u64)
    by (bit_vector)
    requires
        t != 0,
        t & ((t - 1) as u64) == 0,
    ensures
        t & ((men << 9u64) & (!all & DARK_SQUARES) & NOT_A_FILE) != 0 ==> {
            let f = t >> 9u64;
            &&& f != 0 && f & ((f - 1) as u64) == 0 && f & men != 0
            &&& t & all == 0 && t & DARK_SQUARES != 0
            &&& (t & WHITE_PROMOTION_RANK != 0 ==> f & WHITE_PROMOTION_RANK == 0)
            &&& (t & BLACK_PROMOTION_RANK != 0 ==> f & BLACK_PROMOTION_RANK == 0)
        },
        t & ((men << 7u64) & (!all & DARK_SQUARES) & NOT_H_FILE) != 0 ==> {
            let f = t >> 7u64;
            &&& f != 0 && f & ((f - 1) as u64) == 0 && f & men != 0
            &&& t & all == 0 && t & DARK_SQUARES != 0
            &&& (t & WHITE_PROMOTION_RANK != 0 ==> f & WHITE_PROMOTION_RANK == 0)
            &&& (t & BLACK_PROMOTION_RANK != 0 ==> f & BLACK_PROMOTION_RANK == 0)
        },
        t & ((men >> 9u64) & (!all & DARK_SQUARES) & NOT_H_FILE) != 0 ==> {
            let f = t << 9u64;
            &&& f != 0 && f & ((f - 1) as u64) == 0 && f & men != 0
            &&& t & all == 0 && t & DARK_SQUARES != 0
            &&& (t & WHITE_PROMOTION_RANK != 0 ==> f & WHITE_PROMOTION_RANK == 0)
            &&& (t & BLACK_PROMOTION_RANK != 0 ==> f & BLACK_PROMOTION_RANK == 0)
        },
        t & ((men >> 7u64) & (!all & DARK_SQUARES) & NOT_A_FILE) != 0 ==> {
            let f = t << 7u64;
            &&& f != 0 && f & ((f - 1) as u64) == 0 && f & men != 0
            &&& t & all == 0 && t & DARK_SQUARES != 0
            &&& (t & WHITE_PROMOTION_RANK != 0 ==> f & WHITE_PROMOTION_RANK == 0)
            &&& (t & BLACK_PROMOTION_RANK != 0 ==> f & BLACK_PROMOTION_RANK == 0)
        },
{
}

/// A king's step from a single square onto an empty square, in each direction.
proof fn lemma_king_step_words(f: u64, all: u64)
    by (bit_vector)
    requires
        f != 0,
        f & ((f - 1) as u64) == 0,
    ensures
        ({
            let e = !all & DARK_SQUARES;
            &&& (f << 9u64) & e & NOT_A_FILE != 0 ==> {
                let t = f << 9u64;
                &&& t != 0 && t & ((t - 1) as u64) == 0 && t & all == 0 && t & DARK_SQUARES != 0
                &&& (t & WHITE_PROMOTION_RANK != 0 ==> f & WHITE_PROMOTION_RANK == 0)
                &&& (t & BLACK_PROMOTION_RANK != 0 ==> f & BLACK_PROMOTION_RANK == 0)
            }
            &&& (f << 7u64) & e & NOT_H_FILE != 0 ==> {
                let t = f << 7u64;
                &&& t != 0 && t & ((t - 1) as u64) == 0 && t & all == 0 && t & DARK_SQUARES != 0
                &&& (t & WHITE_PROMOTION_RANK != 0 ==> f & WHITE_PROMOTION_RANK == 0)
                &&& (t & BLACK_PROMOTION_RANK != 0 ==> f & BLACK_PROMOTION_RANK == 0)
            }
            &&& (f >> 9u64) & e & NOT_H_FILE != 0 ==> {
                let t = f >> 9u64;
                &&& t != 0 && t & ((t - 1) as u64) == 0 && t & all == 0 && t & DARK_SQUARES != 0
                &&& (t & WHITE_PROMOTION_RANK != 0 ==> f & WHITE_PROMOTION_RANK == 0)
                &&& (t & BLACK_PROMOTION_RANK != 0 ==> f & BLACK_PROMOTION_RANK == 0)
            }
            &&& (f >> 7u64) & e & NOT_A_FILE != 0 ==> {
                let t = f >> 7u64;
                &&& t != 0 && t & ((t - 1) as u64) == 0 && t & all == 0 && t & DARK_SQUARES != 0
                &&& (t & WHITE_PROMOTION_RANK != 0 ==> f & WHITE_PROMOTION_RANK == 0)
                &&& (t & BLACK_PROMOTION_RANK != 0 ==> f & BLACK_PROMOTION_RANK == 0)
            }
        }),
{
}

/// A plain step of a man of `men` in direction `d` onto an empty square.
pub open spec fn good_step(s: BitboardState, m: Move, pieces: u64) -> bool {
    &&& single_bit(m.from)
    &&& m.from & pieces != 0
    &&& single_bit(m.to)
    &&& m.to & s.all_pieces() == 0
    &&& m.to & DARK_SQUARES != 0
    &&& m.captures == 0
    &&& changes_rank(m)
}

proof fn lemma_men_steps_good(s: BitboardState, men: u64, targets: u64, d: int)
    requires
        is_dir(d),
        d == 9 ==> targets == (men << 9u64) & empty_squares(s) & NOT_A_FILE,
        d == 7 ==> targets == (men << 7u64) & empty_squares(s) & NOT_H_FILE,
        d == -9 ==> targets == (men >> 9u64) & empty_squares(s) & NOT_H_FILE,
        d == -7 ==> targets == (men >> 7u64) & empty_squares(s) & NOT_A_FILE,
    ensures
        forall|i: int|
            0 <= i < step_moves(targets, d).len() ==> good_step(
                s,
                #[trigger] step_moves(targets, d)[i],
                men,
            ),
{
    lemma_step_moves_shape(targets, d);
    assert forall|i: int| 0 <= i < step_moves(targets, d).len() implies good_step(
        s,
        #[trigger] step_moves(targets, d)[i],
        men,
    ) by {
        let m = step_moves(targets, d)[i];
        lemma_man_step_words(men, s.all_pieces(), m.to);
    }
}

proof fn lemma_king_moves_good(s: BitboardState, kings: u64)
    ensures
        forall|i: int|
            0 <= i < king_moves(kings, empty_squares(s)).len() ==> good_step(
                s,
                #[trigger] king_moves(kings, empty_squares(s))[i],
                kings,
            ),
    decreases kings,
{
    let e = empty_squares(s);
    if kings != 0 {
        lemma_low_bit(kings);
        lemma_drop_low_subset(kings);
        let rest = drop_low(kings);
        lemma_king_moves_good(s, rest);
        let f = low_bit(kings);
        lemma_king_step_words(f, s.all_pieces());
        let ks = king_steps(f, e);
        assert forall|i: int| 0 <= i < ks.len() implies good_step(s, #[trigger] ks[i], kings) by {
            let a = king_step(f, 9, e);
            let b = king_step(f, 7, e);
            let c = king_step(f, -9, e);
            let d = king_step(f, -7, e);
            assert(ks == a + b + c + d);
            if i < a.len() {
            } else if i < a.len() + b.len() {
                assert(ks[i] == b[i - a.len()]);
            } else if i < a.len() + b.len() + c.len() {
                assert(ks[i] == c[i - a.len() - b.len()]);
            } else {
                assert(ks[i] == d[i - a.len() - b.len() - c.len()]);
            }
        }
        assert forall|i: int| 0 <= i < king_moves(kings, e).len() implies good_step(
            s,
            #[trigger] king_moves(kings, e)[i],
            kings,
        ) by {
            if i >= ks.len() {
                let m = king_moves(kings, e)[i];
                assert(m == king_moves(rest, e)[i - ks.len()]);
                assert(good_step(s, m, rest));
                lemma_bit_in_superset(m.from, rest, kings);
            }
        }
    }
}

/// The men and the kings of the side to move.
pub open spec fn own_men(s: BitboardState) -> u64 {
    if s.turn == PieceColor::White {
        s.white_men
    } else {
        s.black_men
    }
}

pub open spec fn own_kings(s: BitboardState) -> u64 {
    if s.turn == PieceColor::White {
        s.white_kings
    } else {
        s.black_kings
    }
}

/// A legal plain step: a man or a king of the side to move steps to an empty dark square on
/// another rank, jumping nothing.
pub open spec fn legal_step(s: BitboardState, m: Move) -> bool {
    &&& legal_move(s, m)
    &&& m.captures == 0
    &&& changes_rank(m)
    &&& (m.from & own_men(s) != 0 || m.from & own_kings(s) != 0)
}

proof fn lemma_good_step_legal(s: BitboardState, m: Move, pieces: u64)
    requires
        good_step(s, m, pieces),
        pieces == own_men(s) || pieces == own_kings(s),
    ensures
        legal_step(s, m),
{
    let (f, mm, mk, c) = (m.from, own_men(s), own_kings(s), m.captures);
    lemma_word_facts(f, mm, mk);
    lemma_word_facts(f, mk, mm);
    let opp = s.opponent_pieces();
    lemma_word_facts(opp, 0, 0);
}

/// Every plain step generated is legal.
pub proof fn lemma_simple_moves_legal(s: BitboardState)
    ensures
        forall|i: int|
            0 <= i < simple_moves_spec(s).len() ==> legal_step(s, #[trigger] simple_moves_spec(s)[i]),
{
    let e = empty_squares(s);
    let men = own_men(s);
    let kings = own_kings(s);
    let (a, b) = if s.turn == PieceColor::White {
        let ta = (men << 9u64) & e & NOT_A_FILE;
        let tb = (men << 7u64) & e & NOT_H_FILE;
        lemma_men_steps_good(s, men, ta, 9);
        lemma_men_steps_good(s, men, tb, 7);
        (step_moves(ta, 9), step_moves(tb, 7))
    } else {
        let ta = (men >> 9u64) & e & NOT_H_FILE;
        let tb = (men >> 7u64) & e & NOT_A_FILE;
        lemma_men_steps_good(s, men, ta, -9);
        lemma_men_steps_good(s, men, tb, -7);
        (step_moves(ta, -9), step_moves(tb, -7))
    };
    let k = king_moves(kings, e);
    lemma_king_moves_good(s, kings);
    let all = simple_moves_spec(s);
    assert(all == a + b + k);
    assert forall|i: int| 0 <= i < all.len() implies legal_step(s, #[trigger] all[i]) by {
        if i < a.len() {
            lemma_good_step_legal(s, a[i], men);
        } else if i < a.len() + b.len() {
            assert(all[i] == b[i - a.len()]);
            lemma_good_step_legal(s, b[i - a.len()], men);
        } else {
            assert(all[i] == k[i - a.len() - b.len()]);
            lemma_good_step_legal(s, k[i - a.len() - b.len()], kings);
        }
    }
}

/// What holds of a piece part-way through a jump sequence: it stands on one square, which is
/// its start until it has jumped and an empty dark square after, and it has jumped only
/// opposing pieces.
pub open spec fn jump_state(s: BitboardState, start: u64, cur: u64, cap: u64) -> bool {
    &&& single_bit(cur)
    &&& cap & !jump_targets(s, start) == 0
    &&& cap == 0 ==> cur == start
    &&& cap != 0 ==> cur & s.all_pieces() == 0 && cur & DARK_SQUARES != 0
}

/// A move that a jump sequence of the piece on `start` produces.
pub open spec fn jump_result(s: BitboardState, start: u64, m: Move) -> bool {
    &&& m.from == start
    &&& single_bit(m.to)
    &&& m.to & s.all_pieces() == 0
    &&& m.to & DARK_SQUARES != 0
    &&& m.captures != 0
    &&& m.captures & !jump_targets(s, start) == 0
}

proof fn lemma_jump_words(cur: u64, cap: u64, opp: u64, all: u64, over: u64, land: u64, mask: u64)
    by (bit_vector)
    requires
        cur != 0,
        cur & ((cur - 1) as u64) == 0,
        cap & !opp == 0,
        over & (opp & !cap) & mask != 0,
        land & !all & DARK_SQUARES & mask != 0,
        (over == cur << 9u64 && land == over << 9u64) || (over == cur << 7u64 && land == over
            << 7u64) || (over == cur >> 9u64 && land == over >> 9u64) || (over == cur >> 7u64
            && land == over >> 7u64),
    ensures
        land != 0,
        land & ((land - 1) as u64) == 0,
        (cap | over) & !opp == 0,
        (cap | over) != 0,
        land & all == 0,
        land & DARK_SQUARES != 0,
{
}

/// Every move a jump sequence produces jumps at least one opposing piece and lands on an empty
/// dark square.
pub proof fn lemma_jump_paths_shape(s: BitboardState, start: u64, cur: u64, cap: u64)
    requires
        jump_state(s, start, cur, cap),
    ensures
        forall|i: int|
            0 <= i < jump_paths(s, start, cur, cap).len() ==> jump_result(
                s,
                start,
                #[trigger] jump_paths(s, start, cur, cap)[i],
            ),
    decreases jump_targets(s, start) & !cap, 5int,
{
    let dirs = jump_dirs(s, start);
    let paths = jump_paths(s, start, cur, cap);
    if !any_jump(s, start, cur, cap, dirs, 0) && cap != 0 {
        assert(paths == seq![Move { from: start, to: cur, captures: cap }]);
        assert(jump_result(s, start, paths[0]));
    } else {
        assert(forall|j: int| 0 <= j < dirs.len() ==> is_dir(#[trigger] dirs[j] as int));
        lemma_jumps_from_shape(s, start, cur, cap, dirs, 0);
        assert(paths == jumps_from(s, start, cur, cap, dirs, 0));
    }
}

proof fn lemma_jumps_from_shape(
    s: BitboardState,
    start: u64,
    cur: u64,
    cap: u64,
    dirs: Seq<i32>,
    i: int,
)
    requires
        jump_state(s, start, cur, cap),
        forall|j: int| 0 <= j < dirs.len() ==> is_dir(#[trigger] dirs[j] as int),
    ensures
        forall|k: int|
            0 <= k < jumps_from(s, start, cur, cap, dirs, i).len() ==> jump_result(
                s,
                start,
                #[trigger] jumps_from(s, start, cur, cap, dirs, i)[k],
            ),
    decreases jump_targets(s, start) & !cap, dirs.len() - i,
{
    if !(i < 0 || i >= dirs.len() || dirs.len() > 4) {
        let d = dirs[i] as int;
        let over = shift(cur, d);
        let land = shift(over, d);
        lemma_jumps_from_shape(s, start, cur, cap, dirs, i + 1);
        let rest = jumps_from(s, start, cur, cap, dirs, i + 1);
        if can_jump(s, start, cur, cap, d) {
            lemma_jump_shrinks(jump_targets(s, start), cap, over, dir_mask(d));
            lemma_jump_words(
                cur,
                cap,
                jump_targets(s, start),
                s.all_pieces(),
                over,
                land,
                dir_mask(d),
            );
            lemma_jump_paths_shape(s, start, land, cap | over);
            let here = jump_paths(s, start, land, cap | over);
            let all = jumps_from(s, start, cur, cap, dirs, i);
            assert(all == here + rest);
            assert forall|k: int| 0 <= k < all.len() implies jump_result(s, start, #[trigger] all[k]) by {
                if k >= here.len() {
                    assert(all[k] == rest[k - here.len()]);
                }
            }
        } else {
            assert(jumps_from(s, start, cur, cap, dirs, i) =~= rest);
        }
    }
}

/// A legal capture: a legal move that jumps at least one piece.
pub open spec fn legal_capture(s: BitboardState, m: Move) -> bool {
    legal_move(s, m) && m.captures != 0
}

/// In a well-formed position, a piece of the side to move jumps the pieces of the other side.
proof fn lemma_own_piece_targets(s: BitboardState, start: u64)
    requires
        s.valid(),
        single_bit(start),
        start & s.own_pieces() != 0,
    ensures
        jump_targets(s, start) == s.opponent_pieces(),
        jump_state(s, start, start, 0),
{
    let (w, b) = (s.white_pieces(), s.black_pieces());
    let (wm, bm, wk, bk) = (s.white_men, s.black_men, s.white_kings, s.black_kings);
    assert(wm & bm == 0 && wm & bk == 0 && bm & wk == 0 && wk & bk == 0 && start & (bm | bk) != 0
        && single_bit(start) ==> (wm | wk) & start == 0) by (bit_vector);
    lemma_word_facts(start, wm | wk, 0);
    let opp = jump_targets(s, start);
    lemma_word_facts(opp, 0, 0);
}

/// The moves of a jump sequence of an own piece are legal captures.
proof fn lemma_own_jump_paths_legal(s: BitboardState, start: u64)
    requires
        s.valid(),
        single_bit(start),
        start & s.own_pieces() != 0,
    ensures
        forall|i: int|
            0 <= i < jump_paths(s, start, start, 0).len() ==> legal_capture(
                s,
                #[trigger] jump_paths(s, start, start, 0)[i],
            ),
{
    lemma_own_piece_targets(s, start);
    lemma_jump_paths_shape(s, start, start, 0);
}

proof fn lemma_all_jump_paths_legal(s: BitboardState, pieces: u64)
    requires
        s.valid(),
        pieces & !s.own_pieces() == 0,
    ensures
        forall|i: int|
            0 <= i < all_jump_paths(s, pieces).len() ==> legal_capture(
                s,
                #[trigger] all_jump_paths(s, pieces)[i],
            ),
    decreases pieces,
{
    if pieces != 0 {
        lemma_low_bit(pieces);
        lemma_drop_low_subset(pieces);
        let f = low_bit(pieces);
        let rest = drop_low(pieces);
        let own = s.own_pieces();
        lemma_word_facts(rest, pieces, own);
        lemma_bit_in_superset(f, pieces, own);
        lemma_all_jump_paths_legal(s, rest);
        lemma_own_jump_paths_legal(s, f);
        let here = jump_paths(s, f, f, 0);
        let all = all_jump_paths(s, pieces);
        assert forall|i: int| 0 <= i < all.len() implies legal_capture(s, #[trigger] all[i]) by {
            if i >= here.len() {
                assert(all[i] == all_jump_paths(s, rest)[i - here.len()]);
            }
        }
    }
}

/// Choosing among moves keeps only moves of the list.
proof fn lemma_capture_choice_subset(ms: Seq<Move>, force_max: bool)
    ensures
        forall|i: int|
            0 <= i < capture_choice(ms, force_max).len() ==> ms.contains(
                #[trigger] capture_choice(ms, force_max)[i],
            ),
{
    let r = capture_choice(ms, force_max);
    assert forall|i: int| 0 <= i < r.len() implies ms.contains(#[trigger] r[i]) by {
        if ms.len() != 0 && force_max {
            let pred = |m: Move| pop(m.captures) == max_captured(ms);
            assert(ms.filter(pred).contains(r[i]));
            ms.lemma_filter_contains_rev(pred, r[i]);
        } else {
            assert(ms[i] == r[i]);
        }
    }
}

/// Every capture generated in a well-formed position is a legal capture.
pub proof fn lemma_captures_legal(s: BitboardState, force_max: bool)
    requires
        s.valid(),
    ensures
        forall|i: int|
            0 <= i < captures_spec(s, force_max).len() ==> legal_capture(
                s,
                #[trigger] captures_spec(s, force_max)[i],
            ),
{
    let own = s.own_pieces();
    lemma_word_facts(own, 0, 0);
    let ms = all_jump_paths(s, own);
    lemma_all_jump_paths_legal(s, own);
    lemma_capture_choice_subset(ms, force_max);
    let r = captures_spec(s, force_max);
    assert forall|i: int| 0 <= i < r.len() implies legal_capture(s, #[trigger] r[i]) by {
        assert(ms.contains(r[i]));
        let j = choose|j: int| 0 <= j < ms.len() && ms[j] == r[i];
        assert(legal_capture(s, ms[j]));
    }
}

/// Every capture of an own piece generated in a well-formed position is a legal capture.
pub proof fn lemma_captures_from_legal(s: BitboardState, pos: u64, force_max: bool)
    requires
        s.valid(),
        single_bit(pos),
        pos & s.own_pieces() != 0,
    ensures
        forall|i: int|
            0 <= i < captures_from_spec(s, pos, force_max).len() ==> legal_capture(
                s,
                #[trigger] captures_from_spec(s, pos, force_max)[i],
            ),
            forall|i: int|
                0 <= i < captures_from_spec(s, pos, force_max).len() ==> (
                #[trigger] captures_from_spec(s, pos, force_max)[i]).from == pos,
{
    let ms = jump_paths(s, pos, pos, 0);
    lemma_own_jump_paths_legal(s, pos);
    lemma_own_piece_targets(s, pos);
    lemma_jump_paths_shape(s, pos, pos, 0);
    lemma_capture_choice_subset(ms, force_max);
    let r = captures_from_spec(s, pos, force_max);
    assert forall|i: int| 0 <= i < r.len() implies legal_capture(s, #[trigger] r[i]) && r[i].from
        == pos by {
        assert(ms.contains(r[i]));
        let j = choose|j: int| 0 <= j < ms.len() && ms[j] == r[i];
        assert(legal_capture(s, ms[j]));
        assert(jump_result(s, pos, ms[j]));
    }
}

/// Move generation in a well-formed position: every move is legal; when some capture exists
/// only captures are offered (capturing is compulsory), else only plain steps.
pub proof fn lemma_all_moves_legal(s: BitboardState, force_max: bool)
    requires
        s.valid(),
    ensures
        forall|i: int|
            0 <= i < all_moves_spec(s, force_max).len() ==> legal_move(
                s,
                #[trigger] all_moves_spec(s, force_max)[i],
            ),
        captures_spec(s, force_max).len() > 0 ==> forall|i: int|
            0 <= i < all_moves_spec(s, force_max).len() ==> (#[trigger] all_moves_spec(
                s,
                force_max,
            )[i]).captures != 0,
        captures_spec(s, force_max).len() == 0 ==> forall|i: int|
            0 <= i < all_moves_spec(s, force_max).len() ==> legal_step(
                s,
                #[trigger] all_moves_spec(s, force_max)[i],
            ),
{
    lemma_captures_legal(s, force_max);
    lemma_simple_moves_legal(s);
}

proof fn lemma_max_captured(ms: Seq<Move>)
    ensures
        forall|i: int| 0 <= i < ms.len() ==> pop((#[trigger] ms[i]).captures) <= max_captured(ms),
        ms.len() > 0 ==> exists|i: int|
            0 <= i < ms.len() && pop((#[trigger] ms[i]).captures) == max_captured(ms),
    decreases ms.len(),
{
    if ms.len() > 0 {
        let rest = ms.drop_last();
        lemma_max_captured(rest);
        assert forall|i: int| 0 <= i < ms.len() implies pop((#[trigger] ms[i]).captures)
            <= max_captured(ms) by {
            if i < rest.len() {
                assert(ms[i] == rest[i]);
            }
        }
        if max_captured(ms) == pop(ms.last().captures) {
            assert(pop(ms[ms.len() - 1].captures) == max_captured(ms));
        } else {
            let j = choose|j: int| 0 <= j < rest.len() && pop((#[trigger] rest[j]).captures)
                == max_captured(rest);
            assert(ms[j] == rest[j]);
        }
    }
}

/// When the most captures are forced, a capture is still offered whenever one exists, and
/// every capture offered jumps at least as many pieces as any capture available.
pub proof fn lemma_force_max(s: BitboardState)
    ensures
        captures_spec(s, true).len() > 0 <==> captures_spec(s, false).len() > 0,
        forall|i: int, j: int|
            0 <= i < captures_spec(s, true).len() && 0 <= j < captures_spec(s, false).len() ==> pop(
                (#[trigger] captures_spec(s, false)[j]).captures,
            ) <= pop((#[trigger] captures_spec(s, true)[i]).captures),
{
    let ms = all_jump_paths(s, s.own_pieces());
    lemma_max_captured(ms);
    let pred = |m: Move| pop(m.captures) == max_captured(ms);
    let forced = captures_spec(s, true);
    if ms.len() > 0 {
        let k = choose|k: int| 0 <= k < ms.len() && pop((#[trigger] ms[k]).captures)
            == max_captured(ms);
        ms.lemma_filter_contains(pred, k);
        assert(forced.len() > 0);
        assert forall|i: int| 0 <= i < forced.len() implies pop((#[trigger] forced[i]).captures)
            == max_captured(ms) by {
            ms.lemma_filter_pred(pred, i);
        }
    }
}

/// Two positions with the same pieces (the side to move may differ).
pub open spec fn same_pieces(s: BitboardState, t: BitboardState) -> bool {
    &&& s.white_men == t.white_men
    &&& s.black_men == t.black_men
    &&& s.white_kings == t.white_kings
    &&& s.black_kings == t.black_kings
}

proof fn lemma_any_jump_pieces(
    s: BitboardState,
    t: BitboardState,
    start: u64,
    cur: u64,
    cap: u64,
    dirs: Seq<i32>,
    i: int,
)
    requires
        same_pieces(s, t),
    ensures
        any_jump(s, start, cur, cap, dirs, i) == any_jump(t, start, cur, cap, dirs, i),
    decreases dirs.len() - i,
{
    if !(i < 0 || i >= dirs.len()) {
        lemma_any_jump_pieces(s, t, start, cur, cap, dirs, i + 1);
    }
}

/// The jump sequences of a piece depend on the pieces only, not on the side to move.
pub proof fn lemma_jump_paths_pieces(
    s: BitboardState,
    t: BitboardState,
    start: u64,
    cur: u64,
    cap: u64,
)
    requires
        same_pieces(s, t),
    ensures
        jump_paths(s, start, cur, cap) == jump_paths(t, start, cur, cap),
    decreases jump_targets(s, start) & !cap, 5int,
{
    let dirs = jump_dirs(s, start);
    assert(dirs == jump_dirs(t, start));
    lemma_any_jump_pieces(s, t, start, cur, cap, dirs, 0);
    lemma_jumps_from_pieces(s, t, start, cur, cap, dirs, 0);
}

proof fn lemma_jumps_from_pieces(
    s: BitboardState,
    t: BitboardState,
    start: u64,
    cur: u64,
    cap: u64,
    dirs: Seq<i32>,
    i: int,
)
    requires
        same_pieces(s, t),
    ensures
        jumps_from(s, start, cur, cap, dirs, i) == jumps_from(t, start, cur, cap, dirs, i),
    decreases jump_targets(s, start) & !cap, dirs.len() - i,
{
    if !(i < 0 || i >= dirs.len() || dirs.len() > 4) {
        let d = dirs[i] as int;
        let over = shift(cur, d);
        let land = shift(over, d);
        lemma_jumps_from_pieces(s, t, start, cur, cap, dirs, i + 1);
        if can_jump(s, start, cur, cap, d) {
            lemma_jump_shrinks(jump_targets(s, start), cap, over, dir_mask(d));
            lemma_jump_paths_pieces(s, t, start, land, cap | over);
        }
    }
}

/// The captures of one piece depend on the pieces only, not on the side to move.
pub proof fn lemma_captures_from_pieces(s: BitboardState, t: BitboardState, pos: u64, force_max: bool)
    requires
        same_pieces(s, t),
    ensures
        captures_from_spec(s, pos, force_max) == captures_from_spec(t, pos, force_max),
{
    lemma_jump_paths_pieces(s, t, pos, pos, 0);
}

proof fn lemma_jump_paths_from(s: BitboardState, start: u64, cur: u64, cap: u64)
    ensures
        forall|i: int|
            0 <= i < jump_paths(s, start, cur, cap).len() ==> (#[trigger] jump_paths(
                s,
                start,
                cur,
                cap,
            )[i]).from == start,
    decreases jump_targets(s, start) & !cap, 5int,
{
    let dirs = jump_dirs(s, start);
    let paths = jump_paths(s, start, cur, cap);
    if !any_jump(s, start, cur, cap, dirs, 0) && cap != 0 {
        assert(paths == seq![Move { from: start, to: cur, captures: cap }]);
    } else {
        lemma_jumps_from_from(s, start, cur, cap, dirs, 0);
        assert(paths == jumps_from(s, start, cur, cap, dirs, 0));
    }
}

proof fn lemma_jumps_from_from(
    s: BitboardState,
    start: u64,
    cur: u64,
    cap: u64,
    dirs: Seq<i32>,
    i: int,
)
    ensures
        forall|k: int|
            0 <= k < jumps_from(s, start, cur, cap, dirs, i).len() ==> (
            #[trigger] jumps_from(s, start, cur, cap, dirs, i)[k]).from == start,
    decreases jump_targets(s, start) & !cap, dirs.len() - i,
{
    if !(i < 0 || i >= dirs.len() || dirs.len() > 4) {
        let d = dirs[i] as int;
        let over = shift(cur, d);
        let land = shift(over, d);
        lemma_jumps_from_from(s, start, cur, cap, dirs, i + 1);
        let rest = jumps_from(s, start, cur, cap, dirs, i + 1);
        let all = jumps_from(s, start, cur, cap, dirs, i);
        if can_jump(s, start, cur, cap, d) {
            lemma_jump_shrinks(jump_targets(s, start), cap, over, dir_mask(d));
            lemma_jump_paths_from(s, start, land, cap | over);
            let here = jump_paths(s, start, land, cap | over);
            assert(all == here + rest);
            assert forall|k: int| 0 <= k < all.len() implies (#[trigger] all[k]).from == start by {
                if k >= here.len() {
                    assert(all[k] == rest[k - here.len()]);
                }
            }
        } else {
            assert(all =~= rest);
        }
    }
}

proof fn lemma_all_jump_paths_from(s: BitboardState, pieces: u64)
    ensures
        forall|i: int|
            0 <= i < all_jump_paths(s, pieces).len() ==> single_bit(
                (#[trigger] all_jump_paths(s, pieces)[i]).from,
            ) && all_jump_paths(s, pieces)[i].from & pieces != 0,
    decreases pieces,
{
    if pieces != 0 {
        lemma_low_bit(pieces);
        lemma_drop_low_subset(pieces);
        let f = low_bit(pieces);
        let rest = drop_low(pieces);
        lemma_all_jump_paths_from(s, rest);
        lemma_jump_paths_from(s, f, f, 0);
        let here = jump_paths(s, f, f, 0);
        let all = all_jump_paths(s, pieces);
        assert forall|i: int| 0 <= i < all.len() implies single_bit((#[trigger] all[i]).from)
            && all[i].from & pieces != 0 by {
            if i >= here.len() {
                let r = all_jump_paths(s, rest);
                assert(all[i] == r[i - here.len()]);
                lemma_bit_in_superset(r[i - here.len()].from, rest, pieces);
            } else {
                assert(all[i] == here[i]);
            }
        }
    }
}

proof fn lemma_choice_nonempty(ms: Seq<Move>, force_max: bool)
    ensures
        capture_choice(ms, force_max).len() > 0 <==> ms.len() > 0,
{
    if ms.len() > 0 && force_max {
        lemma_max_captured(ms);
        let pred = |m: Move| pop(m.captures) == max_captured(ms);
        let k = choose|k: int| 0 <= k < ms.len() && pop((#[trigger] ms[k]).captures)
            == max_captured(ms);
        ms.lemma_filter_contains(pred, k);
    }
}

/// On any board: every capture starts from a single piece of the side to move, every capture
/// of the piece on `pos` starts on `pos`, and captures are offered, most captures forced or
/// not, exactly when some jump sequence exists.
pub proof fn lemma_capture_origins(s: BitboardState, pos: u64, force_max: bool)
    ensures
        forall|i: int|
            0 <= i < captures_spec(s, force_max).len() ==> single_bit(
                (#[trigger] captures_spec(s, force_max)[i]).from,
            ) && captures_spec(s, force_max)[i].from & s.own_pieces() != 0,
        forall|i: int|
            0 <= i < captures_from_spec(s, pos, force_max).len() ==> (
            #[trigger] captures_from_spec(s, pos, force_max)[i]).from == pos,
        captures_spec(s, force_max).len() > 0 <==> all_jump_paths(s, s.own_pieces()).len() > 0,
        captures_from_spec(s, pos, force_max).len() > 0 <==> jump_paths(s, pos, pos, 0).len() > 0,
{
    let ms = all_jump_paths(s, s.own_pieces());
    let ps = jump_paths(s, pos, pos, 0);
    lemma_all_jump_paths_from(s, s.own_pieces());
    lemma_jump_paths_from(s, pos, pos, 0);
    lemma_capture_choice_subset(ms, force_max);
    lemma_capture_choice_subset(ps, force_max);
    lemma_choice_nonempty(ms, force_max);
    lemma_choice_nonempty(ps, force_max);
    let r = captures_spec(s, force_max);
    assert forall|i: int| 0 <= i < r.len() implies single_bit((#[trigger] r[i]).from) && r[i].from
        & s.own_pieces() != 0 by {
        assert(ms.contains(r[i]));
        let j = choose|j: int| 0 <= j < ms.len() && ms[j] == r[i];
        assert(single_bit(ms[j].from));
    }
    let q = captures_from_spec(s, pos, force_max);
    assert forall|i: int| 0 <= i < q.len() implies (#[trigger] q[i]).from == pos by {
        assert(ps.contains(q[i]));
        let j = choose|j: int| 0 <= j < ps.len() && ps[j] == q[i];
        assert(ps[j].from == pos);
    }
}

proof fn lemma_capture_words(p: u64, x: u64, lb: u64, c: u64, o: u64, y: u64)
    by (bit_vector)
    ensures
        (p != 0 && p & ((p - 1) as u64) == 0 && lb != 0 && lb & ((lb - 1) as u64) == 0 && p
            != lb && p & x != 0) ==> p & (x & !lb) != 0,
        (y & (c | o)) == (c | o) ==> y & c == c,
        c & c == c,
        y & 0u64 == 0u64,
        o & x != 0 ==> o != 0,
        (o & x) & y != 0 ==> o != 0,
        o != 0 ==> (c | o) != 0,
        o != 0 ==> (c | o) & o == o,
        0u64 | o == o,
{
}

proof fn lemma_any_jump_witness(
    s: BitboardState,
    start: u64,
    cur: u64,
    cap: u64,
    dirs: Seq<i32>,
    i: int,
)
    requires
        any_jump(s, start, cur, cap, dirs, i),
    ensures
        exists|k: int| i <= k < dirs.len() && 0 <= k && #[trigger] can_jump(s, start, cur, cap, dirs[k] as int),
    decreases dirs.len() - i,
{
    if !can_jump(s, start, cur, cap, dirs[i] as int) {
        lemma_any_jump_witness(s, start, cur, cap, dirs, i + 1);
    }
}

proof fn lemma_jumps_from_contains(
    s: BitboardState,
    start: u64,
    cur: u64,
    cap: u64,
    dirs: Seq<i32>,
    i: int,
    k: int,
)
    requires
        0 <= i <= k < dirs.len() <= 4,
        can_jump(s, start, cur, cap, dirs[k] as int),
    ensures
        forall|x: Move|
            jump_paths(
                s,
                start,
                shift(shift(cur, dirs[k] as int), dirs[k] as int),
                cap | shift(cur, dirs[k] as int),
            ).contains(x) ==> #[trigger] jumps_from(s, start, cur, cap, dirs, i).contains(x),
    decreases k - i,
{
    let d = dirs[i] as int;
    let over = shift(cur, d);
    let land = shift(over, d);
    let here = if can_jump(s, start, cur, cap, d) {
        jump_paths(s, start, land, cap | over)
    } else {
        seq![]
    };
    let rest = jumps_from(s, start, cur, cap, dirs, i + 1);
    let all = jumps_from(s, start, cur, cap, dirs, i);
    assert(all == here + rest);
    let target = jump_paths(
        s,
        start,
        shift(shift(cur, dirs[k] as int), dirs[k] as int),
        cap | shift(cur, dirs[k] as int),
    );
    if i == k {
        assert forall|x: Move| target.contains(x) implies #[trigger] all.contains(x) by {
            let j = choose|j: int| 0 <= j < target.len() && target[j] == x;
            assert(all[j] == x);
        }
    } else {
        lemma_jumps_from_contains(s, start, cur, cap, dirs, i + 1, k);
        assert forall|x: Move| target.contains(x) implies #[trigger] all.contains(x) by {
            assert(rest.contains(x));
            let j = choose|j: int| 0 <= j < rest.len() && rest[j] == x;
            assert(all[here.len() + j] == x);
        }
    }
}

proof fn lemma_jump_paths_caps(s: BitboardState, start: u64, cur: u64, cap: u64)
    ensures
        forall|i: int|
            0 <= i < jump_paths(s, start, cur, cap).len() ==> (#[trigger] jump_paths(
                s,
                start,
                cur,
                cap,
            )[i]).captures & cap == cap,
    decreases jump_targets(s, start) & !cap, 5int,
{
    let dirs = jump_dirs(s, start);
    let paths = jump_paths(s, start, cur, cap);
    if !any_jump(s, start, cur, cap, dirs, 0) && cap != 0 {
        assert(paths == seq![Move { from: start, to: cur, captures: cap }]);
        lemma_capture_words(0, 0, 0, cap, 0, 0);
    } else {
        lemma_jumps_from_caps(s, start, cur, cap, dirs, 0);
        assert(paths == jumps_from(s, start, cur, cap, dirs, 0));
    }
}

proof fn lemma_jumps_from_caps(
    s: BitboardState,
    start: u64,
    cur: u64,
    cap: u64,
    dirs: Seq<i32>,
    i: int,
)
    ensures
        forall|k: int|
            0 <= k < jumps_from(s, start, cur, cap, dirs, i).len() ==> (
            #[trigger] jumps_from(s, start, cur, cap, dirs, i)[k]).captures & cap == cap,
    decreases jump_targets(s, start) & !cap, dirs.len() - i,
{
    if !(i < 0 || i >= dirs.len() || dirs.len() > 4) {
        let d = dirs[i] as int;
        let over = shift(cur, d);
        let land = shift(over, d);
        lemma_jumps_from_caps(s, start, cur, cap, dirs, i + 1);
        let rest = jumps_from(s, start, cur, cap, dirs, i + 1);
        let all = jumps_from(s, start, cur, cap, dirs, i);
        if can_jump(s, start, cur, cap, d) {
            lemma_jump_shrinks(jump_targets(s, start), cap, over, dir_mask(d));
            lemma_jump_paths_caps(s, start, land, cap | over);
            let here = jump_paths(s, start, land, cap | over);
            assert(all == here + rest);
            assert forall|k: int| 0 <= k < all.len() implies (#[trigger] all[k]).captures & cap
                == cap by {
                if k >= here.len() {
                    assert(all[k] == rest[k - here.len()]);
                } else {
                    lemma_capture_words(0, 0, 0, cap, over, here[k].captures);
                }
            }
        } else {
            assert(all =~= rest);
        }
    }
}

proof fn lemma_jump_paths_nonempty(s: BitboardState, start: u64, cur: u64, cap: u64)
    requires
        cap != 0,
    ensures
        jump_paths(s, start, cur, cap).len() > 0,
    decreases jump_targets(s, start) & !cap, 5int,
{
    let dirs = jump_dirs(s, start);
    if any_jump(s, start, cur, cap, dirs, 0) {
        lemma_any_jump_witness(s, start, cur, cap, dirs, 0);
        let k = choose|k: int| 0 <= k < dirs.len() && #[trigger] can_jump(s, start, cur, cap, dirs[k] as int);
        let d = dirs[k] as int;
        let over = shift(cur, d);
        let land = shift(over, d);
        lemma_jump_shrinks(jump_targets(s, start), cap, over, dir_mask(d));
        lemma_capture_words(0, jump_targets(s, start) & !cap, 0, cap, over, dir_mask(d));
        lemma_jump_paths_nonempty(s, start, land, cap | over);
        lemma_jumps_from_contains(s, start, cur, cap, dirs, 0, k);
        let sub = jump_paths(s, start, land, cap | over);
        assert(sub.contains(sub[0]));
        assert(jumps_from(s, start, cur, cap, dirs, 0).contains(sub[0]));
    }
}

proof fn lemma_all_jump_paths_contains(s: BitboardState, pieces: u64, p: u64)
    requires
        single_bit(p),
        p & pieces != 0,
    ensures
        forall|x: Move|
            jump_paths(s, p, p, 0).contains(x) ==> #[trigger] all_jump_paths(s, pieces).contains(x),
    decreases pieces,
{
    lemma_word_facts(p, pieces, 0);
    lemma_low_bit(pieces);
    let f = low_bit(pieces);
    let rest = drop_low(pieces);
    let here = jump_paths(s, f, f, 0);
    let all = all_jump_paths(s, pieces);
    assert(all == here + all_jump_paths(s, rest));
    if p == f {
        assert forall|x: Move| jump_paths(s, p, p, 0).contains(x) implies #[trigger] all.contains(
            x,
        ) by {
            let j = choose|j: int| 0 <= j < here.len() && here[j] == x;
            assert(all[j] == x);
        }
    } else {
        lemma_capture_words(p, pieces, f, 0, 0, 0);
        lemma_all_jump_paths_contains(s, rest, p);
        assert forall|x: Move| jump_paths(s, p, p, 0).contains(x) implies #[trigger] all.contains(
            x,
        ) by {
            let r = all_jump_paths(s, rest);
            assert(r.contains(x));
            let j = choose|j: int| 0 <= j < r.len() && r[j] == x;
            assert(all[here.len() + j] == x);
        }
    }
}

/// Capturing is complete: in a well-formed position, when a piece of the side to move has an
/// opposing piece next to it in one of its directions (any of the four for a king, forward
/// for a man: up the board for White, down for Black) with an empty dark square beyond, the
/// captures generated (most captures forced or not) are not empty, and among all captures
/// there is one by that piece that jumps that opposing piece.
pub proof fn lemma_capture_complete(s: BitboardState, p: u64, d: int)
    requires
        s.valid(),
        single_bit(p),
        p & s.own_pieces() != 0,
        (p & (s.white_kings | s.black_kings) != 0 && (d == 9 || d == 7 || d == -9 || d == -7)) || (
        p & s.white_men != 0 && (d == 9 || d == 7)) || (p & s.black_men != 0 && (d == -9 || d
            == -7)),
        shift(p, d) & s.opponent_pieces() & dir_mask(d) != 0,
        shift(shift(p, d), d) & !s.all_pieces() & DARK_SQUARES & dir_mask(d) != 0,
    ensures
        exists|i: int|
            0 <= i < captures_spec(s, false).len() && (#[trigger] captures_spec(s, false)[i]).from
                == p && captures_spec(s, false)[i].captures & shift(p, d) != 0,
        captures_spec(s, true).len() > 0,
        captures_spec(s, false).len() > 0,
{
    lemma_own_piece_targets(s, p);
    let opp = s.opponent_pieces();
    lemma_word_facts(opp, 0, 0);
    let dirs = jump_dirs(s, p);
    let wm = s.white_men;
    let bm = s.black_men;
    let wk = s.white_kings;
    let bk = s.black_kings;
    // the direction is one of the piece's jump directions
    assert((p & wm != 0 ==> (wm | wk) & p != 0) && (p & bm != 0 ==> (wm | wk) & p == 0) && (p & (
    wk | bk) != 0 <==> (wk | bk) & p != 0)) by (bit_vector)
        requires
            wm & bm == 0,
            wm & bk == 0,
            bm & wk == 0,
            p != 0 && p & ((p - 1) as u64) == 0,
    ;
    let k: int = if king_at(s, p) {
        if d == 9 {
            0
        } else if d == 7 {
            1
        } else if d == -9 {
            2
        } else {
            3
        }
    } else if d == 9 || d == -9 {
        0
    } else {
        1
    };
    assert(dirs[k] as int == d);
    let over = shift(p, d);
    let land = shift(over, d);
    assert(can_jump(s, p, p, 0, d));
    lemma_capture_words(0, opp, 0, 0, over, dir_mask(d));
    assert(0u64 | over == over);
    lemma_jump_paths_nonempty(s, p, land, 0u64 | over);
    lemma_jumps_from_contains(s, p, p, 0, dirs, 0, k);
    lemma_word_facts(over, 0, 0);
    let sub = jump_paths(s, p, land, 0u64 | over);
    assert(sub.contains(sub[0]));
    lemma_jump_paths_caps(s, p, land, 0u64 | over);
    lemma_jump_paths_from(s, p, land, 0u64 | over);
    let x = sub[0];
    assert(jump_paths(s, p, p, 0) == jumps_from(s, p, p, 0, dirs, 0));
    assert(jump_paths(s, p, p, 0).contains(x));
    let own = s.own_pieces();
    lemma_all_jump_paths_contains(s, own, p);
    let ms = all_jump_paths(s, own);
    assert(ms.contains(x));
    assert(captures_spec(s, false) == ms);
    let j = choose|j: int| 0 <= j < ms.len() && ms[j] == x;
    lemma_capture_words(0, 0, 0, 0, over, x.captures);
    assert(x.captures & over != 0);
    assert(captures_spec(s, false)[j].from == p);
    lemma_choice_nonempty(ms, true);
}

} // verus!
