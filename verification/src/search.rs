use vstd::prelude::*;
use std::time::Instant;
use crate::bits::{pop, lemma_pop_nonzero, lemma_pop_remove, lemma_word_facts};
use crate::board::{
    BitboardState, Move, PieceColor, apply_move_spec, legal_move, piece_at_bit_spec,
    crowned, lemma_apply_move, lemma_mover_piece, WHITE_PROMOTION_RANK,
    BLACK_PROMOTION_RANK,
};
use crate::movegen::{
    all_moves_spec, captures_spec, simple_moves_spec, generate_all_moves, generate_captures,
    generate_simple_moves, legal_capture, legal_step, lemma_all_moves_legal, lemma_captures_legal,
    lemma_simple_moves_legal,
};
use crate::eval::{evaluation, evaluate_board, lemma_evaluation_range};
use crate::clock::{
    time_is_up, now, wrapped, reads_clock, clock_node, lemma_wrapped_add, lemma_wrap_one,
    lemma_clock_node, lemma_reads_sub,
};
use crate::game::{Game, count_of};

verus! {

/// The promotion rank of the side to move.
pub open spec fn promotion_rank(c: PieceColor) -> u64 {
    if c == PieceColor::White {
        WHITE_PROMOTION_RANK
    } else {
        BLACK_PROMOTION_RANK
    }
}

/// Men, and kings not yet on the rank where their side crowns: a measure that every quiet move
/// onto a promotion rank lowers.
pub open spec fn advancement(s: BitboardState) -> nat {
    pop(s.white_men) + pop(s.black_men) + pop(s.white_kings & !WHITE_PROMOTION_RANK) + pop(
        s.black_kings & !BLACK_PROMOTION_RANK,
    )
}

/// The moves that the quiescence search looks at: the captures, or without any, the plain
/// steps onto the mover's promotion rank.
pub open spec fn qs_moves(s: BitboardState, force_max: bool) -> Seq<Move> {
    let caps = captures_spec(s, force_max);
    if caps.len() > 0 {
        caps
    } else {
        simple_moves_spec(s).filter(|m: Move| m.to & promotion_rank(s.turn) != 0)
    }
}

/// Bit-level facts of a quiet move onto the promotion rank `r` by the side whose men are `mm`
/// and kings `mk`.
proof fn lemma_quiet_promotion_words(mm: u64, mk: u64, f: u64, t: u64, r: u64)
    by (bit_vector)
    requires
        mm & mk == 0,
        f != 0,
        f & ((f - 1) as u64) == 0,
        t != 0,
        t & ((t - 1) as u64) == 0,
        t & (mm | mk) == 0,
        t & r != 0,
        f & r == 0 || t & r == 0,
        f & mm != 0 || f & mk != 0,
    ensures
        f & mm != 0 ==> ((mk & !f) | t) & !r == mk & !r,
        f & mm == 0 ==> f & mk != 0 && mm & !f == mm && ((mk & !f) | t) & !r == (mk & !r) & !f
            && f & (mk & !r) != 0,
{
}



/// A move the quiescence search plays keeps the position well formed and lowers the number of
/// pieces, or keeps it and lowers the advancement measure.
pub proof fn lemma_qs_child(s: BitboardState, force_max: bool, i: int)
    requires
        s.valid(),
        0 <= i < qs_moves(s, force_max).len(),
    ensures
        legal_move(s, qs_moves(s, force_max)[i]),
        piece_at_bit_spec(s, qs_moves(s, force_max)[i].from) is Some,
        apply_move_spec(s, qs_moves(s, force_max)[i]).valid(),
        apply_move_spec(s, qs_moves(s, force_max)[i]).piece_count() < s.piece_count() || (
        apply_move_spec(s, qs_moves(s, force_max)[i]).piece_count() == s.piece_count()
            && advancement(apply_move_spec(s, qs_moves(s, force_max)[i])) < advancement(s)),
{
    let ms = qs_moves(s, force_max);
    let m = ms[i];
    let caps = captures_spec(s, force_max);
    lemma_captures_legal(s, force_max);
    lemma_simple_moves_legal(s);
    if caps.len() > 0 {
        assert(legal_capture(s, m));
    } else {
        let pred = |mv: Move| mv.to & promotion_rank(s.turn) != 0;
        let quiet = simple_moves_spec(s);
        quiet.lemma_filter_pred(pred, i);
        assert(quiet.filter(pred).contains(m));
        quiet.lemma_filter_contains_rev(pred, m);
        let j = choose|j: int| 0 <= j < quiet.len() && quiet[j] == m;
        assert(legal_step(s, quiet[j]));
    }
    lemma_mover_piece(s, m.from);
    lemma_apply_move(s, m);
    let n = apply_move_spec(s, m);
    if m.captures != 0 {
        lemma_pop_nonzero(m.captures);
    } else {
        let p = piece_at_bit_spec(s, m.from).unwrap();
        assert(crowned(p, m.to));
        let (wm, bm, wk, bk) = (s.white_men, s.black_men, s.white_kings, s.black_kings);
        let (f, t) = (m.from, m.to);
        lemma_word_facts(wm, 0, 0);
        lemma_word_facts(bm, 0, 0);
        lemma_word_facts(wk, 0, 0);
        lemma_word_facts(bk, 0, 0);
        lemma_word_facts(wm & !f, 0, 0);
        lemma_word_facts(bm & !f, 0, 0);
        lemma_word_facts((wk & !f) | t, 0, 0);
        lemma_word_facts((bk & !f) | t, 0, 0);
        lemma_word_facts(t, wm | wk, bm | bk);
        if s.turn == PieceColor::White {
            lemma_quiet_promotion_words(wm, wk, f, t, WHITE_PROMOTION_RANK);
            if f & wm != 0 {
                assert(n.white_men == wm & !f);
                lemma_pop_remove(wm, f);
                assert(n.white_kings & !WHITE_PROMOTION_RANK == wk & !WHITE_PROMOTION_RANK);
            } else {
                assert(n.white_men == wm);
                lemma_pop_remove(wk & !WHITE_PROMOTION_RANK, f);
            }
        } else {
            lemma_quiet_promotion_words(bm, bk, f, t, BLACK_PROMOTION_RANK);
            if f & bm != 0 {
                assert(n.black_men == bm & !f);
                lemma_pop_remove(bm, f);
                assert(n.black_kings & !BLACK_PROMOTION_RANK == bk & !BLACK_PROMOTION_RANK);
            } else {
                assert(n.black_men == bm);
                lemma_pop_remove(bk & !BLACK_PROMOTION_RANK, f);
            }
        }
    }
}

pub open spec fn max_int(a: int, b: int) -> int {
    if a >= b {
        a
    } else {
        b
    }
}

pub open spec fn min_int(a: int, b: int) -> int {
    if a <= b {
        a
    } else {
        b
    }
}

/// The value the quiescence search gives a position, with the window `alpha .. beta`, when it
/// is not stopped by the clock. The side to move may stand on the static score (`stand
/// pat`); a stand-pat score beyond the window is cut off at the window's edge. Otherwise the
/// captures, or without any the steps onto the promotion rank, are searched in order with
/// alpha-beta pruning, and the best of their values is taken; with no such move the stand-pat
/// score is the value.
pub open spec fn qs_value(
    s: BitboardState,
    alpha: int,
    beta: int,
    maximizing: bool,
    force_max: bool,
) -> int
    decreases s.piece_count(), advancement(s), qs_moves(s, force_max).len() + 1,
{
    if !s.valid() {
        0
    } else {
        let sp = evaluation(s);
        if maximizing && sp >= beta {
            beta
        } else if !maximizing && sp <= alpha {
            alpha
        } else {
            let a = if maximizing && sp > alpha {
                sp
            } else {
                alpha
            };
            let b = if !maximizing && sp < beta {
                sp
            } else {
                beta
            };
            if qs_moves(s, force_max).len() == 0 {
                sp
            } else {
                qs_fold(
                    s,
                    force_max,
                    0,
                    a,
                    b,
                    maximizing,
                    if maximizing {
                        -i32::MAX as int
                    } else {
                        i32::MAX as int
                    },
                )
            }
        }
    }
}

/// The alpha-beta loop of the quiescence search over its moves from index `i` on, with the
/// best value so far `best`.
pub open spec fn qs_fold(
    s: BitboardState,
    force_max: bool,
    i: int,
    alpha: int,
    beta: int,
    maximizing: bool,
    best: int,
) -> int
    decreases s.piece_count(), advancement(s), qs_moves(s, force_max).len() - i,
{
    let ms = qs_moves(s, force_max);
    if !s.valid() || i < 0 || i >= ms.len() {
        best
    } else {
        proof {
            lemma_qs_child(s, force_max, i);
        }
        let v = qs_value(apply_move_spec(s, ms[i]), alpha, beta, !maximizing, force_max);
        let best2 = if maximizing {
            max_int(best, v)
        } else {
            min_int(best, v)
        };
        let a2 = if maximizing {
            max_int(alpha, v)
        } else {
            alpha
        };
        let b2 = if maximizing {
            beta
        } else {
            min_int(beta, v)
        };
        if b2 <= a2 {
            best2
        } else {
            qs_fold(s, force_max, i + 1, a2, b2, maximizing, best2)
        }
    }
}

/// The number of nodes the quiescence search visits (see `qs_value`) when it is not stopped
/// by the clock: one for the position itself, and those of the moves it searches.
pub open spec fn qs_nodes(
    s: BitboardState,
    alpha: int,
    beta: int,
    maximizing: bool,
    force_max: bool,
) -> nat
    decreases s.piece_count(), advancement(s), qs_moves(s, force_max).len() + 1,
{
    if !s.valid() {
        1
    } else {
        let sp = evaluation(s);
        if maximizing && sp >= beta {
            1
        } else if !maximizing && sp <= alpha {
            1
        } else {
            let a = if maximizing && sp > alpha {
                sp
            } else {
                alpha
            };
            let b = if !maximizing && sp < beta {
                sp
            } else {
                beta
            };
            if qs_moves(s, force_max).len() == 0 {
                1
            } else {
                1 + qs_fold_nodes(
                    s,
                    force_max,
                    0,
                    a,
                    b,
                    maximizing,
                    if maximizing {
                        -i32::MAX as int
                    } else {
                        i32::MAX as int
                    },
                )
            }
        }
    }
}

/// The nodes visited by the loop of `qs_fold` from index `i` on.
pub open spec fn qs_fold_nodes(
    s: BitboardState,
    force_max: bool,
    i: int,
    alpha: int,
    beta: int,
    maximizing: bool,
    best: int,
) -> nat
    decreases s.piece_count(), advancement(s), qs_moves(s, force_max).len() - i,
{
    let ms = qs_moves(s, force_max);
    if !s.valid() || i < 0 || i >= ms.len() {
        0
    } else {
        proof {
            lemma_qs_child(s, force_max, i);
        }
        let next = apply_move_spec(s, ms[i]);
        let v = qs_value(next, alpha, beta, !maximizing, force_max);
        let n = qs_nodes(next, alpha, beta, !maximizing, force_max);
        let best2 = if maximizing {
            max_int(best, v)
        } else {
            min_int(best, v)
        };
        let a2 = if maximizing {
            max_int(alpha, v)
        } else {
            alpha
        };
        let b2 = if maximizing {
            beta
        } else {
            min_int(beta, v)
        };
        if b2 <= a2 {
            n
        } else {
            n + qs_fold_nodes(s, force_max, i + 1, a2, b2, maximizing, best2)
        }
    }
}

/// One step of the node count of the quiescence loop.
proof fn lemma_qs_fold_nodes_step(
    s: BitboardState,
    force_max: bool,
    i: int,
    alpha: int,
    beta: int,
    maximizing: bool,
    best: int,
)
    requires
        s.valid(),
        0 <= i < qs_moves(s, force_max).len(),
    ensures
        ({
            let next = apply_move_spec(s, qs_moves(s, force_max)[i]);
            let v = qs_value(next, alpha, beta, !maximizing, force_max);
            let n = qs_nodes(next, alpha, beta, !maximizing, force_max);
            let best2 = if maximizing {
                max_int(best, v)
            } else {
                min_int(best, v)
            };
            let a2 = if maximizing {
                max_int(alpha, v)
            } else {
                alpha
            };
            let b2 = if maximizing {
                beta
            } else {
                min_int(beta, v)
            };
            qs_fold_nodes(s, force_max, i, alpha, beta, maximizing, best) == if b2 <= a2 {
                n
            } else {
                n + qs_fold_nodes(s, force_max, i + 1, a2, b2, maximizing, best2)
            }
        }),
{
    lemma_qs_child(s, force_max, i);
}

/// The moves of the quiescence search (see `qs_moves`).
fn quiescence_moves(state: &BitboardState, force_max: bool) -> (r: Vec<Move>)
    ensures
        r@ == qs_moves(*state, force_max),
{
    let captures = generate_captures(state, force_max);
    if captures.len() != 0 {
        return captures;
    }
    let quiet = generate_simple_moves(state);
    let rank = if state.turn == PieceColor::White {
        WHITE_PROMOTION_RANK
    } else {
        BLACK_PROMOTION_RANK
    };
    let ghost pred = |m: Move| m.to & promotion_rank(state.turn) != 0;
    let mut kept: Vec<Move> = Vec::new();
    let mut j: usize = 0;
    while j < quiet.len()
        invariant
            0 <= j <= quiet.len(),
            rank == promotion_rank(state.turn),
            pred == (|m: Move| m.to & promotion_rank(state.turn) != 0),
            kept@ == quiet@.take(j as int).filter(pred),
        decreases quiet.len() - j,
    {
        let m = quiet[j];
        assert(quiet@.take(j + 1).drop_last() =~= quiet@.take(j as int));
        reveal_with_fuel(Seq::filter, 1);
        if (m.to & rank) != 0 {
            kept.push(m);
        }
        j = j + 1;
    }
    assert(quiet@.take(quiet.len() as int) =~= quiet@);
    kept
}

/// Quiescence search: follows captures (and steps onto the promotion rank) until the
/// position is quiet, with alpha-beta pruning. Every node visited adds one to `nodes`
/// (wrapping), and the clock is read at the nodes that bring it to a multiple of 2048. The
/// result is the value `qs_value` gives, and `nodes` has grown by the `qs_nodes` visited;
/// `None` comes only when the clock stopped the search, which needs a node among them at
/// which the clock is read (and never happens with the largest time limit).
#[verifier::rlimit(40)]
pub fn quiescence(
    state: &BitboardState,
    alpha: i32,
    beta: i32,
    maximizing: bool,
    start_time: &Instant,
    nodes: &mut u64,
    time_limit_ms: u128,
    force_max: bool,
) -> (r: Option<i32>)
    requires
        state.valid(),
        alpha >= -i32::MAX,
        beta >= -i32::MAX,
    ensures
        r matches Some(v) ==> v == qs_value(*state, alpha as int, beta as int, maximizing, force_max)
            && v >= -i32::MAX,
        r is Some ==> *final(nodes) == wrapped(
            *old(nodes),
            qs_nodes(*state, alpha as int, beta as int, maximizing, force_max) as int,
        ),
        r is None ==> reads_clock(
            *old(nodes),
            qs_nodes(*state, alpha as int, beta as int, maximizing, force_max) as int,
        ),
        time_limit_ms == u128::MAX ==> r is Some,
    decreases state.piece_count(), advancement(*state), qs_moves(*state, force_max).len() + 1,
{
    let ghost target = qs_value(*state, alpha as int, beta as int, maximizing, force_max);
    let ghost total = qs_nodes(*state, alpha as int, beta as int, maximizing, force_max) as int;
    let ghost start: u64 = *nodes;
    let mut alpha_cur = alpha;
    let mut beta_cur = beta;
    proof {
        lemma_wrap_one(start);
    }
    *nodes = nodes.wrapping_add(1);
    assert(*nodes == wrapped(start, 1));
    if time_is_up(*nodes, start_time, time_limit_ms) {
        proof {
            lemma_clock_node(start, 1, *nodes);
            assert(clock_node(start, 1));
        }
        return None;
    }
    let stand_pat = evaluate_board(state);
    if maximizing {
        if stand_pat >= beta_cur {
            return Some(beta_cur);
        }
        if stand_pat > alpha_cur {
            alpha_cur = stand_pat;
        }
    } else {
        if stand_pat <= alpha_cur {
            return Some(alpha_cur);
        }
        if stand_pat < beta_cur {
            beta_cur = stand_pat;
        }
    }
    let moves_to_search = quiescence_moves(state, force_max);
    if moves_to_search.len() != 0 {
        let mut best_val: i32 = if maximizing {
            -i32::MAX
        } else {
            i32::MAX
        };
        let ghost a0 = alpha_cur as int;
        let ghost b0 = beta_cur as int;
        let ghost b_init = best_val as int;
        assert(target == qs_fold(*state, force_max, 0, a0, b0, maximizing, b_init));
        assert(total == 1 + qs_fold_nodes(*state, force_max, 0, a0, b0, maximizing, b_init));
        let ghost mut used: int = 0;
        let mut i: usize = 0;
        while i < moves_to_search.len()
            invariant
                state.valid(),
                moves_to_search@ == qs_moves(*state, force_max),
                0 <= i <= moves_to_search.len(),
                alpha_cur >= -i32::MAX,
                beta_cur >= -i32::MAX,
                best_val >= -i32::MAX,
                target == qs_value(*state, alpha as int, beta as int, maximizing, force_max),
                target == qs_fold(
                    *state,
                    force_max,
                    i as int,
                    alpha_cur as int,
                    beta_cur as int,
                    maximizing,
                    best_val as int,
                ),
                used >= 0,
                total == qs_nodes(*state, alpha as int, beta as int, maximizing, force_max),
                total == 1 + used + qs_fold_nodes(
                    *state,
                    force_max,
                    i as int,
                    alpha_cur as int,
                    beta_cur as int,
                    maximizing,
                    best_val as int,
                ),
                *nodes == wrapped(start, 1 + used),
                start == *old(nodes),
            decreases moves_to_search.len() - i,
        {
            let m = moves_to_search[i];
            proof {
                lemma_qs_child(*state, force_max, i as int);
            }
            let next_state = state.apply_move(&m);
            let ghost before: u64 = *nodes;
            let ghost child = qs_nodes(
                next_state,
                alpha_cur as int,
                beta_cur as int,
                !maximizing,
                force_max,
            ) as int;
            proof {
                lemma_qs_fold_nodes_step(
                    *state,
                    force_max,
                    i as int,
                    alpha_cur as int,
                    beta_cur as int,
                    maximizing,
                    best_val as int,
                );
            }
            assert(1 + used + child <= total);
            let val = match quiescence(
                &next_state,
                alpha_cur,
                beta_cur,
                !maximizing,
                start_time,
                nodes,
                time_limit_ms,
                force_max,
            ) {
                Some(v) => v,
                None => {
                    proof {
                        lemma_reads_sub(start, 1 + used, child, before, total);
                    }
                    return None;
                },
            };
            proof {
                lemma_wrapped_add(start, 1 + used, child);
                used = used + child;
            }
            if maximizing {
                best_val = if best_val >= val {
                    best_val
                } else {
                    val
                };
                alpha_cur = if alpha_cur >= val {
                    alpha_cur
                } else {
                    val
                };
                if beta_cur <= alpha_cur {
                    return Some(best_val);
                }
            } else {
                best_val = if best_val <= val {
                    best_val
                } else {
                    val
                };
                beta_cur = if beta_cur <= val {
                    beta_cur
                } else {
                    val
                };
                if beta_cur <= alpha_cur {
                    return Some(best_val);
                }
            }
            i = i + 1;
        }
        return Some(best_val);
    }
    Some(stand_pat)
}

/// Ordering key of a move: the number of pieces it jumps, and, when `by_promotion`, twice
/// that plus one for landing on a promotion rank.
pub open spec fn move_key(m: Move, by_promotion: bool) -> nat {
    if by_promotion {
        2 * pop(m.captures) + if m.to & (WHITE_PROMOTION_RANK | BLACK_PROMOTION_RANK) != 0 {
            1nat
        } else {
            0nat
        }
    } else {
        pop(m.captures)
    }
}

pub open spec fn max_key(ms: Seq<Move>, by_promotion: bool) -> nat
    decreases ms.len(),
{
    if ms.len() == 0 {
        0
    } else {
        let rest = max_key(ms.drop_last(), by_promotion);
        let last = move_key(ms.last(), by_promotion);
        if rest >= last {
            rest
        } else {
            last
        }
    }
}

/// The moves of `ms` with key `k`, then those with key `k - 1`, and so on down to 0, each
/// group in its order in `ms`.
pub open spec fn key_buckets(ms: Seq<Move>, by_promotion: bool, k: int) -> Seq<Move>
    decreases k + 1,
{
    if k < 0 {
        seq![]
    } else {
        ms.filter(|m: Move| move_key(m, by_promotion) == k) + key_buckets(ms, by_promotion, k - 1)
    }
}

/// `ms` sorted by key, highest first, moves with equal keys keeping their order (a stable
/// sort).
pub open spec fn sort_by_key(ms: Seq<Move>, by_promotion: bool) -> Seq<Move> {
    key_buckets(ms, by_promotion, max_key(ms, by_promotion) as int)
}

/// Sorting keeps only moves of the list.
pub proof fn lemma_sort_subset(ms: Seq<Move>, by_promotion: bool, k: int)
    ensures
        forall|i: int|
            0 <= i < key_buckets(ms, by_promotion, k).len() ==> ms.contains(
                #[trigger] key_buckets(ms, by_promotion, k)[i],
            ),
    decreases k + 1,
{
    if k >= 0 {
        lemma_sort_subset(ms, by_promotion, k - 1);
        let pred = |m: Move| move_key(m, by_promotion) == k;
        let f = ms.filter(pred);
        let all = key_buckets(ms, by_promotion, k);
        let rest = key_buckets(ms, by_promotion, k - 1);
        assert forall|i: int| 0 <= i < all.len() implies ms.contains(#[trigger] all[i]) by {
            if i < f.len() {
                assert(f.contains(f[i]));
                ms.lemma_filter_contains_rev(pred, f[i]);
            } else {
                assert(all[i] == rest[i - f.len()]);
            }
        }
    }
}

fn key_of(m: &Move, by_promotion: bool) -> (r: u32)
    ensures
        r == move_key(*m, by_promotion),
{
    proof {
        crate::bits::lemma_pop_bound(m.captures);
    }
    let caps = m.captures.count_ones();
    if by_promotion {
        let promo: u32 = if (m.to & (WHITE_PROMOTION_RANK | BLACK_PROMOTION_RANK)) != 0 {
            1
        } else {
            0
        };
        2 * caps + promo
    } else {
        caps
    }
}

/// The moves sorted by key, highest first, stably (see `sort_by_key`).
pub fn sort_moves(moves: &Vec<Move>, by_promotion: bool) -> (r: Vec<Move>)
    ensures
        r@ == sort_by_key(moves@, by_promotion),
{
    let mut maxk: u32 = 0;
    let mut i: usize = 0;
    while i < moves.len()
        invariant
            0 <= i <= moves.len(),
            maxk == max_key(moves@.take(i as int), by_promotion),
        decreases moves.len() - i,
    {
        assert(moves@.take(i + 1).drop_last() =~= moves@.take(i as int));
        let k = key_of(&moves[i], by_promotion);
        if k > maxk {
            maxk = k;
        }
        i = i + 1;
    }
    assert(moves@.take(moves.len() as int) =~= moves@);

    let mut r: Vec<Move> = Vec::new();
    let mut k: i64 = maxk as i64;
    while k >= 0
        invariant
            -1 <= k <= maxk,
            maxk == max_key(moves@, by_promotion),
            r@ + key_buckets(moves@, by_promotion, k as int) == key_buckets(
                moves@,
                by_promotion,
                maxk as int,
            ),
        decreases k + 1,
    {
        let ghost pred = |m: Move| move_key(m, by_promotion) == k as int;
        let ghost base = r@;
        let mut j: usize = 0;
        while j < moves.len()
            invariant
                0 <= j <= moves.len(),
                0 <= k <= maxk,
                pred == (|m: Move| move_key(m, by_promotion) == k as int),
                r@ == base + moves@.take(j as int).filter(pred),
            decreases moves.len() - j,
        {
            assert(moves@.take(j + 1).drop_last() =~= moves@.take(j as int));
            reveal_with_fuel(Seq::filter, 1);
            let key = key_of(&moves[j], by_promotion);
            if key as i64 == k {
                r.push(moves[j]);
            }
            assert(r@ =~= base + moves@.take(j + 1).filter(pred));
            j = j + 1;
        }
        assert(moves@.take(moves.len() as int) =~= moves@);
        assert(r@ + key_buckets(moves@, by_promotion, k - 1) =~= base + key_buckets(
            moves@,
            by_promotion,
            k as int,
        ));
        k = k - 1;
    }
    assert(r@ =~= key_buckets(moves@, by_promotion, maxk as int));
    r
}

/// The score of a side left without a move, `depth` plies from the search horizon: a loss,
/// counted less bad the later it comes.
pub open spec fn loss_score(depth: int, maximizing: bool) -> int {
    if maximizing {
        -100000 + (20 - depth)
    } else {
        100000 - (20 - depth)
    }
}

/// The value the search gives a position `depth` plies deep, with the window `alpha ..
/// beta`, when it is not stopped by the clock. At depth 0 the quiescence search decides. A
/// side without a move has lost (`loss_score`). Otherwise the moves, sorted captures and
/// promotions first, are searched with alpha-beta pruning; a move back to a position that has
/// already occurred in the game scores 0.
pub open spec fn mm_value(
    counts: Map<BitboardState, nat>,
    force_max: bool,
    s: BitboardState,
    depth: int,
    alpha: int,
    beta: int,
    maximizing: bool,
) -> int
    decreases depth, 1int, 0int,
{
    if depth <= 0 {
        qs_value(s, alpha, beta, maximizing, force_max)
    } else {
        let ms = all_moves_spec(s, force_max);
        if ms.len() == 0 {
            loss_score(depth, maximizing)
        } else {
            mm_fold(
                counts,
                force_max,
                s,
                depth,
                sort_by_key(ms, true),
                0,
                alpha,
                beta,
                maximizing,
                if maximizing {
                    -i32::MAX as int
                } else {
                    i32::MAX as int
                },
            )
        }
    }
}

/// The value the search gives the move leading to `next`.
pub open spec fn child_value(
    counts: Map<BitboardState, nat>,
    force_max: bool,
    next: BitboardState,
    depth: int,
    alpha: int,
    beta: int,
    maximizing: bool,
) -> int
    decreases depth, 0int, 0int,
{
    if depth <= 0 {
        0
    } else if count_of(counts, next) >= 1 {
        0
    } else {
        mm_value(counts, force_max, next, depth - 1, alpha, beta, !maximizing)
    }
}

/// The alpha-beta loop of the search over the moves `ms` from index `i` on.
pub open spec fn mm_fold(
    counts: Map<BitboardState, nat>,
    force_max: bool,
    s: BitboardState,
    depth: int,
    ms: Seq<Move>,
    i: int,
    alpha: int,
    beta: int,
    maximizing: bool,
    best: int,
) -> int
    decreases depth, 0int, ms.len() - i,
{
    if depth <= 0 || i < 0 || i >= ms.len() {
        best
    } else {
        let v = child_value(
            counts,
            force_max,
            apply_move_spec(s, ms[i]),
            depth,
            alpha,
            beta,
            maximizing,
        );
        let best2 = if maximizing {
            max_int(best, v)
        } else {
            min_int(best, v)
        };
        let a2 = if maximizing {
            max_int(alpha, v)
        } else {
            alpha
        };
        let b2 = if maximizing {
            beta
        } else {
            min_int(beta, v)
        };
        if b2 <= a2 {
            best2
        } else {
            mm_fold(counts, force_max, s, depth, ms, i + 1, a2, b2, maximizing, best2)
        }
    }
}

/// The number of nodes the search visits (see `mm_value`) when it is not stopped by the
/// clock: one for the position itself, then at depth 0 those of the quiescence search, and
/// otherwise those of the moves it searches (a move back to a position of the game visits
/// none).
pub open spec fn mm_nodes(
    counts: Map<BitboardState, nat>,
    force_max: bool,
    s: BitboardState,
    depth: int,
    alpha: int,
    beta: int,
    maximizing: bool,
) -> nat
    decreases depth, 1int, 0int,
{
    if depth <= 0 {
        1 + qs_nodes(s, alpha, beta, maximizing, force_max)
    } else {
        let ms = all_moves_spec(s, force_max);
        if ms.len() == 0 {
            1
        } else {
            1 + mm_fold_nodes(
                counts,
                force_max,
                s,
                depth,
                sort_by_key(ms, true),
                0,
                alpha,
                beta,
                maximizing,
                if maximizing {
                    -i32::MAX as int
                } else {
                    i32::MAX as int
                },
            )
        }
    }
}

/// The nodes visited for the move leading to `next`.
pub open spec fn child_nodes(
    counts: Map<BitboardState, nat>,
    force_max: bool,
    next: BitboardState,
    depth: int,
    alpha: int,
    beta: int,
    maximizing: bool,
) -> nat
    decreases depth, 0int, 0int,
{
    if depth <= 0 {
        0
    } else if count_of(counts, next) >= 1 {
        0
    } else {
        mm_nodes(counts, force_max, next, depth - 1, alpha, beta, !maximizing)
    }
}

/// The nodes visited by the loop of `mm_fold` from index `i` on.
pub open spec fn mm_fold_nodes(
    counts: Map<BitboardState, nat>,
    force_max: bool,
    s: BitboardState,
    depth: int,
    ms: Seq<Move>,
    i: int,
    alpha: int,
    beta: int,
    maximizing: bool,
    best: int,
) -> nat
    decreases depth, 0int, ms.len() - i,
{
    if depth <= 0 || i < 0 || i >= ms.len() {
        0
    } else {
        let next = apply_move_spec(s, ms[i]);
        let v = child_value(counts, force_max, next, depth, alpha, beta, maximizing);
        let n = child_nodes(counts, force_max, next, depth, alpha, beta, maximizing);
        let best2 = if maximizing {
            max_int(best, v)
        } else {
            min_int(best, v)
        };
        let a2 = if maximizing {
            max_int(alpha, v)
        } else {
            alpha
        };
        let b2 = if maximizing {
            beta
        } else {
            min_int(beta, v)
        };
        if b2 <= a2 {
            n
        } else {
            n + mm_fold_nodes(counts, force_max, s, depth, ms, i + 1, a2, b2, maximizing, best2)
        }
    }
}

/// At depth 0 the search is the quiescence search, one node more: with the largest time
/// limit, `minimax` at depth 0 and `quiescence` give the same value.
pub proof fn lemma_depth_zero(
    counts: Map<BitboardState, nat>,
    force_max: bool,
    s: BitboardState,
    alpha: int,
    beta: int,
    maximizing: bool,
)
    ensures
        mm_value(counts, force_max, s, 0, alpha, beta, maximizing) == qs_value(
            s,
            alpha,
            beta,
            maximizing,
            force_max,
        ),
        mm_nodes(counts, force_max, s, 0, alpha, beta, maximizing) == 1 + qs_nodes(
            s,
            alpha,
            beta,
            maximizing,
            force_max,
        ),
{
}

/// The sorted moves of a well-formed position are legal.
proof fn lemma_sorted_moves_legal(s: BitboardState, force_max: bool)
    requires
        s.valid(),
    ensures
        forall|i: int|
            0 <= i < sort_by_key(all_moves_spec(s, force_max), true).len() ==> legal_move(
                s,
                #[trigger] sort_by_key(all_moves_spec(s, force_max), true)[i],
            ),
{
    let ms = all_moves_spec(s, force_max);
    lemma_all_moves_legal(s, force_max);
    lemma_sort_subset(ms, true, max_key(ms, true) as int);
    let sorted = sort_by_key(ms, true);
    assert forall|i: int| 0 <= i < sorted.len() implies legal_move(s, #[trigger] sorted[i]) by {
        assert(ms.contains(sorted[i]));
        let j = choose|j: int| 0 <= j < ms.len() && ms[j] == sorted[i];
        assert(legal_move(s, ms[j]));
    }
}

/// Alpha-beta search `depth` plies deep, then quiescence search. Every node visited adds one
/// to `nodes` (wrapping), and the clock is read at the nodes that bring it to a multiple of
/// 2048. The result is the value `mm_value` gives, and `nodes` has grown by the `mm_nodes`
/// visited; `None` comes only when the clock stopped the search, which needs a node among them
/// at which the clock is read (and never happens with the largest time limit).
#[verifier::rlimit(40)]
pub fn minimax(
    game: &Game,
    state: BitboardState,
    depth: i32,
    alpha: i32,
    beta: i32,
    maximizing: bool,
    start_time: &Instant,
    nodes: &mut u64,
    time_limit_ms: u128,
) -> (r: Option<i32>)
    requires
        game.wf(),
        state.valid(),
        0 <= depth <= i32::MAX - 100000,
        alpha >= -i32::MAX,
        beta >= -i32::MAX,
    ensures
        r matches Some(v) ==> v == mm_value(
            game@.counts,
            game@.force_max_capture,
            state,
            depth as int,
            alpha as int,
            beta as int,
            maximizing,
        ) && v >= -i32::MAX,
        r is Some ==> *final(nodes) == wrapped(
            *old(nodes),
            mm_nodes(
                game@.counts,
                game@.force_max_capture,
                state,
                depth as int,
                alpha as int,
                beta as int,
                maximizing,
            ) as int,
        ),
        r is None ==> reads_clock(
            *old(nodes),
            mm_nodes(
                game@.counts,
                game@.force_max_capture,
                state,
                depth as int,
                alpha as int,
                beta as int,
                maximizing,
            ) as int,
        ),
        time_limit_ms == u128::MAX ==> r is Some,
    decreases depth,
{
    let ghost counts = game@.counts;
    let ghost fm = game@.force_max_capture;
    let ghost total = mm_nodes(counts, fm, state, depth as int, alpha as int, beta as int, maximizing) as int;
    let ghost start: u64 = *nodes;
    let force_max = game.force_max_capture();
    proof {
        lemma_wrap_one(start);
    }
    *nodes = nodes.wrapping_add(1);
    assert(*nodes == wrapped(start, 1));
    if time_is_up(*nodes, start_time, time_limit_ms) {
        proof {
            lemma_clock_node(start, 1, *nodes);
            assert(clock_node(start, 1));
        }
        return None;
    }
    if depth == 0 {
        let ghost before: u64 = *nodes;
        let q = quiescence(&state, alpha, beta, maximizing, start_time, nodes, time_limit_ms, force_max);
        proof {
            let child = qs_nodes(state, alpha as int, beta as int, maximizing, fm) as int;
            if q is Some {
                lemma_wrapped_add(start, 1, child);
            } else {
                lemma_reads_sub(start, 1, child, before, total);
            }
        }
        return q;
    }
    let all = generate_all_moves(&state, force_max);
    if all.len() == 0 {
        return Some(
            if maximizing {
                -100000 + (20 - depth)
            } else {
                100000 - (20 - depth)
            },
        );
    }
    let moves = sort_moves(&all, true);
    proof {
        lemma_sorted_moves_legal(state, fm);
    }
    let counts_ref = game.position_counts();
    let mut alpha_cur = alpha;
    let mut beta_cur = beta;
    let mut best: i32 = if maximizing {
        -i32::MAX
    } else {
        i32::MAX
    };
    let ghost target = mm_value(counts, fm, state, depth as int, alpha as int, beta as int, maximizing);
    assert(target == mm_fold(counts, fm, state, depth as int, moves@, 0, alpha as int, beta as int, maximizing, best as int));
    assert(total == 1 + mm_fold_nodes(counts, fm, state, depth as int, moves@, 0, alpha as int, beta as int, maximizing, best as int));
    let ghost mut used: int = 0;
    let mut i: usize = 0;
    while i < moves.len()
        invariant
            game.wf(),
            state.valid(),
            counts == game@.counts,
            fm == game@.force_max_capture,
            counts_ref@ == counts,
            counts_ref.wf(),
            0 < depth <= i32::MAX - 100000,
            moves@ == sort_by_key(all_moves_spec(state, fm), true),
            forall|j: int| 0 <= j < moves@.len() ==> legal_move(state, #[trigger] moves@[j]),
            0 <= i <= moves.len(),
            alpha_cur >= -i32::MAX,
            beta_cur >= -i32::MAX,
            best >= -i32::MAX,
            target == mm_value(counts, fm, state, depth as int, alpha as int, beta as int, maximizing),
            target == mm_fold(
                counts,
                fm,
                state,
                depth as int,
                moves@,
                i as int,
                alpha_cur as int,
                beta_cur as int,
                maximizing,
                best as int,
            ),
            used >= 0,
            total == 1 + used + mm_fold_nodes(
                counts,
                fm,
                state,
                depth as int,
                moves@,
                i as int,
                alpha_cur as int,
                beta_cur as int,
                maximizing,
                best as int,
            ),
            *nodes == wrapped(start, 1 + used),
            start == *old(nodes),
            total == mm_nodes(counts, fm, state, depth as int, alpha as int, beta as int, maximizing),
        decreases moves.len() - i,
    {
        let m = moves[i];
        assert(legal_move(state, moves@[i as int]));
        proof {
            lemma_mover_piece(state, m.from);
            lemma_apply_move(state, m);
        }
        let next_state = state.apply_move(&m);
        let mut repeated = false;
        if let Some(count) = counts_ref.get(&next_state) {
            if count >= 1 {
                repeated = true;
            }
        }
        let ghost before: u64 = *nodes;
        let ghost child = child_nodes(
            counts,
            fm,
            next_state,
            depth as int,
            alpha_cur as int,
            beta_cur as int,
            maximizing,
        ) as int;
        assert(1 + used + child <= total);
        let val: i32 = if repeated {
            0
        } else {
            match minimax(
                game,
                next_state,
                depth - 1,
                alpha_cur,
                beta_cur,
                !maximizing,
                start_time,
                nodes,
                time_limit_ms,
            ) {
                Some(v) => v,
                None => {
                    proof {
                        lemma_reads_sub(start, 1 + used, child, before, total);
                    }
                    return None;
                },
            }
        };
        proof {
            lemma_wrapped_add(start, 1 + used, child);
            used = used + child;
        }
        assert(val == child_value(counts, fm, apply_move_spec(state, moves@[i as int]), depth as int, alpha_cur as int, beta_cur as int, maximizing));
        if maximizing {
            best = if best >= val {
                best
            } else {
                val
            };
            alpha_cur = if alpha_cur >= val {
                alpha_cur
            } else {
                val
            };
        } else {
            best = if best <= val {
                best
            } else {
                val
            };
            beta_cur = if beta_cur <= val {
                beta_cur
            } else {
                val
            };
        }
        if beta_cur <= alpha_cur {
            return Some(best);
        }
        i = i + 1;
    }
    Some(best)
}

/// The root loop of one iteration of the search, over the moves `ms` from index `i` on: each
/// move is valued (0 when it repeats a position of the game), the window narrows but nothing
/// is pruned, and the first move strictly better than all before it is kept. The result is
/// the move kept and its value.
pub open spec fn root_fold(
    counts: Map<BitboardState, nat>,
    force_max: bool,
    s: BitboardState,
    depth: int,
    ms: Seq<Move>,
    i: int,
    alpha: int,
    beta: int,
    maximizing: bool,
    best_val: int,
    best_move: Option<Move>,
) -> (Option<Move>, int)
    decreases ms.len() - i,
{
    if i < 0 || i >= ms.len() {
        (best_move, best_val)
    } else {
        let next = apply_move_spec(s, ms[i]);
        let v = if count_of(counts, next) >= 1 {
            0
        } else {
            mm_value(counts, force_max, next, depth - 1, alpha, beta, !maximizing)
        };
        if maximizing {
            let better = v > best_val;
            root_fold(
                counts,
                force_max,
                s,
                depth,
                ms,
                i + 1,
                max_int(alpha, v),
                beta,
                maximizing,
                if better {
                    v
                } else {
                    best_val
                },
                if better {
                    Some(ms[i])
                } else {
                    best_move
                },
            )
        } else {
            let better = v < best_val;
            root_fold(
                counts,
                force_max,
                s,
                depth,
                ms,
                i + 1,
                alpha,
                min_int(beta, v),
                maximizing,
                if better {
                    v
                } else {
                    best_val
                },
                if better {
                    Some(ms[i])
                } else {
                    best_move
                },
            )
        }
    }
}

/// The nodes visited by the root loop from index `i` on.
pub open spec fn root_fold_nodes(
    counts: Map<BitboardState, nat>,
    force_max: bool,
    s: BitboardState,
    depth: int,
    ms: Seq<Move>,
    i: int,
    alpha: int,
    beta: int,
    maximizing: bool,
) -> nat
    decreases ms.len() - i,
{
    if i < 0 || i >= ms.len() {
        0
    } else {
        let next = apply_move_spec(s, ms[i]);
        let repeated = count_of(counts, next) >= 1;
        let v = if repeated {
            0
        } else {
            mm_value(counts, force_max, next, depth - 1, alpha, beta, !maximizing)
        };
        let n = if repeated {
            0
        } else {
            mm_nodes(counts, force_max, next, depth - 1, alpha, beta, !maximizing)
        };
        n + if maximizing {
            root_fold_nodes(counts, force_max, s, depth, ms, i + 1, max_int(alpha, v), beta, maximizing)
        } else {
            root_fold_nodes(counts, force_max, s, depth, ms, i + 1, alpha, min_int(beta, v), maximizing)
        }
    }
}

/// A completed search iteration of depth `depth` in the game's position, the moves being
/// tried captures first (more captures first): the move it chooses and that move's value.
pub open spec fn root_search(
    counts: Map<BitboardState, nat>,
    force_max: bool,
    s: BitboardState,
    depth: int,
) -> (Option<Move>, int) {
    let maximizing = s.turn == PieceColor::White;
    root_fold(
        counts,
        force_max,
        s,
        depth,
        sort_by_key(all_moves_spec(s, force_max), false),
        0,
        -i32::MAX as int,
        i32::MAX as int,
        maximizing,
        if maximizing {
            -i32::MAX as int
        } else {
            i32::MAX as int
        },
        None,
    )
}

/// The move chosen by a completed search iteration of depth `depth`.
pub open spec fn root_choice(
    counts: Map<BitboardState, nat>,
    force_max: bool,
    s: BitboardState,
    depth: int,
) -> Option<Move> {
    root_search(counts, force_max, s, depth).0
}

/// The nodes a search iteration of depth `depth` visits when the clock does not stop it.
pub open spec fn root_nodes(
    counts: Map<BitboardState, nat>,
    force_max: bool,
    s: BitboardState,
    depth: int,
) -> nat {
    root_fold_nodes(
        counts,
        force_max,
        s,
        depth,
        sort_by_key(all_moves_spec(s, force_max), false),
        0,
        -i32::MAX as int,
        i32::MAX as int,
        s.turn == PieceColor::White,
    )
}

/// Iterative deepening from depth `d` on, `best` being the move kept so far, when the
/// iteration of depth `stop` is the first that the clock interrupts (21: none is): each
/// finished iteration that chooses a move replaces the move kept, and one whose value shows a
/// won or lost game (beyond 90000 either way) ends the deepening.
pub open spec fn deepening(
    counts: Map<BitboardState, nat>,
    force_max: bool,
    s: BitboardState,
    d: int,
    stop: int,
    best: Move,
) -> Move
    decreases 21 - d,
{
    if d < 1 || d >= stop || d > 20 {
        best
    } else {
        match root_choice(counts, force_max, s, d) {
            Some(bm) => {
                let v = root_search(counts, force_max, s, d).1;
                if v > 90000 || v < -90000 {
                    bm
                } else {
                    deepening(counts, force_max, s, d + 1, stop, bm)
                }
            },
            None => deepening(counts, force_max, s, d + 1, stop, best),
        }
    }
}

/// The move iterative deepening plays when the iteration of depth `stop` is the first that
/// the clock interrupts (21: none is), starting from the first move generated.
pub open spec fn deepening_choice(
    counts: Map<BitboardState, nat>,
    force_max: bool,
    s: BitboardState,
    stop: int,
) -> Move {
    deepening(counts, force_max, s, 1, stop, all_moves_spec(s, force_max)[0])
}

/// `m` is a move the computer may play in the position `s`: a move of the position; the only
/// one when there is one; otherwise the deepening's choice for a first interrupted depth
/// `stop` whose iteration passes a node at which the clock is read (or for no interruption).
pub open spec fn search_pick(
    counts: Map<BitboardState, nat>,
    force_max: bool,
    s: BitboardState,
    m: Move,
) -> bool {
    let ms = all_moves_spec(s, force_max);
    &&& ms.contains(m)
    &&& ms.len() == 1 ==> m == ms[0]
    &&& ms.len() >= 2 ==> exists|stop: int|
        1 <= stop <= 21 && m == #[trigger] deepening_choice(counts, force_max, s, stop) && (stop
            <= 20 ==> reads_clock(0, root_nodes(counts, force_max, s, stop) as int))
}

/// One iteration of the root search at depth `depth` over the sorted moves, with its own
/// node counter from 0: the chosen move and its value (see `root_search`); `None` only when
/// the clock stopped it, which needs a node of the iteration at which the clock is read.
fn search_depth(
    game: &Game,
    moves: &Vec<Move>,
    depth: i32,
    start_time: &Instant,
    time_limit_ms: u128,
) -> (r: Option<(Option<Move>, i32)>)
    requires
        game.wf(),
        moves@ == sort_by_key(all_moves_spec(game@.board, game@.force_max_capture), false),
        1 <= depth <= 20,
    ensures
        r matches Some(p) ==> p.0 == root_search(
            game@.counts,
            game@.force_max_capture,
            game@.board,
            depth as int,
        ).0 && p.1 == root_search(game@.counts, game@.force_max_capture, game@.board, depth as int).1
            && p.1 >= -i32::MAX,
        r matches Some(p) ==> (p.0 matches Some(m) ==> moves@.contains(m)),
        r is None ==> reads_clock(
            0,
            root_nodes(game@.counts, game@.force_max_capture, game@.board, depth as int) as int,
        ),
        time_limit_ms == u128::MAX ==> r is Some,
{
    proof {
        game.lemma_wf();
    }
    let board = game.board_state();
    let force_max = game.force_max_capture();
    let ghost counts = game@.counts;
    let counts_ref = game.position_counts();
    let maximizing = board.turn == PieceColor::White;
    proof {
        let all = all_moves_spec(board, force_max);
        lemma_all_moves_legal(board, force_max);
        lemma_sort_subset(all, false, max_key(all, false) as int);
        assert forall|j: int| 0 <= j < moves@.len() implies legal_move(board, #[trigger] moves@[j])
            by {
            assert(all.contains(moves@[j]));
            let k = choose|k: int| 0 <= k < all.len() && all[k] == moves@[j];
            assert(legal_move(board, all[k]));
        }
    }
    let mut current: Option<Move> = None;
    let mut best_val: i32 = if maximizing {
        -i32::MAX
    } else {
        i32::MAX
    };
    let mut alpha: i32 = -i32::MAX;
    let mut beta: i32 = i32::MAX;
    let mut nodes_at_depth: u64 = 0;
    let ghost target = root_search(counts, force_max, board, depth as int);
    let ghost total = root_nodes(counts, force_max, board, depth as int) as int;
    let ghost mut used: int = 0;
    let mut i: usize = 0;
    while i < moves.len()
        invariant
            game.wf(),
            board == game@.board,
            board.valid(),
            force_max == game@.force_max_capture,
            counts == game@.counts,
            counts_ref@ == counts,
            counts_ref.wf(),
            moves@ == sort_by_key(all_moves_spec(board, force_max), false),
            forall|j: int| 0 <= j < moves@.len() ==> legal_move(board, #[trigger] moves@[j]),
            maximizing == (board.turn == PieceColor::White),
            1 <= depth <= 20,
            0 <= i <= moves.len(),
            alpha >= -i32::MAX,
            beta >= -i32::MAX,
            best_val >= -i32::MAX,
            current matches Some(m) ==> moves@.contains(m),
            target == root_fold(
                counts,
                force_max,
                board,
                depth as int,
                moves@,
                i as int,
                alpha as int,
                beta as int,
                maximizing,
                best_val as int,
                current,
            ),
            target == root_search(counts, force_max, board, depth as int),
            used >= 0,
            total == root_nodes(counts, force_max, board, depth as int),
            total == used + root_fold_nodes(
                counts,
                force_max,
                board,
                depth as int,
                moves@,
                i as int,
                alpha as int,
                beta as int,
                maximizing,
            ),
            nodes_at_depth == wrapped(0, used),
        decreases moves.len() - i,
    {
        let m = moves[i];
        proof {
            lemma_mover_piece(board, m.from);
            lemma_apply_move(board, m);
        }
        let next_state = board.apply_move(&m);
        let mut is_repetition = false;
        if let Some(count) = counts_ref.get(&next_state) {
            if count >= 1 {
                is_repetition = true;
            }
        }
        let ghost before: u64 = nodes_at_depth;
        let ghost child: int = if is_repetition {
            0
        } else {
            mm_nodes(
                counts,
                force_max,
                next_state,
                depth - 1,
                alpha as int,
                beta as int,
                !maximizing,
            ) as int
        };
        assert(used + child <= total);
        let val: i32 = if is_repetition {
            0
        } else {
            match minimax(
                game,
                next_state,
                depth - 1,
                alpha,
                beta,
                !maximizing,
                start_time,
                &mut nodes_at_depth,
                time_limit_ms,
            ) {
                Some(v) => v,
                None => {
                    proof {
                        lemma_reads_sub(0, used, child, before, total);
                    }
                    return None;
                },
            }
        };
        proof {
            lemma_wrapped_add(0, used, child);
            used = used + child;
        }
        assert(moves@.contains(moves@[i as int]));
        if maximizing {
            if val > best_val {
                best_val = val;
                current = Some(m);
            }
            alpha = if alpha >= val {
                alpha
            } else {
                val
            };
        } else {
            if val < best_val {
                best_val = val;
                current = Some(m);
            }
            beta = if beta <= val {
                beta
            } else {
                val
            };
        }
        i = i + 1;
    }
    Some((current, best_val))
}

/// Iterative deepening over the depths below `stop`, within the thinking time: the move kept
/// (see `deepening`) when the iteration of some depth `k` up to `stop` is the first one the
/// clock interrupts, which needs that iteration to pass a node at which the clock is read
/// (`k == stop`: none is interrupted).
fn deepen(
    game: &Game,
    all: &Vec<Move>,
    start_time: &Instant,
    time_limit_ms: u128,
    stop: i32,
) -> (r: Move)
    requires
        game.wf(),
        all@ == all_moves_spec(game@.board, game@.force_max_capture),
        all@.len() >= 1,
        1 <= stop <= 21,
    ensures
        all@.contains(r),
        exists|k: int|
            1 <= k <= stop && r == #[trigger] deepening_choice(
                game@.counts,
                game@.force_max_capture,
                game@.board,
                k,
            ) && (k < stop ==> reads_clock(
                0,
                root_nodes(game@.counts, game@.force_max_capture, game@.board, k) as int,
            )),
        time_limit_ms == u128::MAX ==> r == deepening_choice(
            game@.counts,
            game@.force_max_capture,
            game@.board,
            stop as int,
        ),
{
    let ghost counts = game@.counts;
    let ghost fm = game@.force_max_capture;
    let ghost board = game@.board;
    let ghost first = all@[0];
    let mut best_move_global = all[0];
    let moves = sort_moves(all, false);
    proof {
        lemma_sort_subset(all@, false, max_key(all@, false) as int);
        assert(all@.contains(all@[0]));
    }
    let mut depth: i32 = 1;
    while depth < stop
        invariant
            game.wf(),
            counts == game@.counts,
            fm == game@.force_max_capture,
            board == game@.board,
            all@ == all_moves_spec(board, fm),
            all@.len() >= 1,
            first == all@[0],
            moves@ == sort_by_key(all@, false),
            forall|j: int| 0 <= j < moves@.len() ==> all@.contains(#[trigger] moves@[j]),
            all@.contains(best_move_global),
            1 <= depth <= stop,
            stop <= 21,
            forall|k: int|
                depth <= k <= stop ==> #[trigger] deepening(counts, fm, board, 1, k, first)
                    == deepening(counts, fm, board, depth as int, k, best_move_global),
        decreases stop - depth,
    {
        let res = search_depth(game, &moves, depth, start_time, time_limit_ms);
        match res {
            None => {
                proof {
                    assert(deepening(counts, fm, board, 1, depth as int, first) == best_move_global);
                    assert(best_move_global == deepening_choice(counts, fm, board, depth as int));
                }
                return best_move_global;
            },
            Some((choice, val)) => {
                if let Some(bm) = choice {
                    proof {
                        assert(moves@.contains(bm));
                        let j = choose|j: int| 0 <= j < moves@.len() && moves@[j] == bm;
                        assert(all@.contains(moves@[j]));
                    }
                    let abs_val = if val < 0 {
                        -val
                    } else {
                        val
                    };
                    if abs_val > 90000 {
                        proof {
                            assert(deepening(counts, fm, board, depth as int, stop as int, best_move_global) == bm);
                            assert(bm == deepening_choice(counts, fm, board, stop as int));
                        }
                        return bm;
                    }
                    proof {
                        assert forall|k: int| depth + 1 <= k <= stop implies #[trigger] deepening(
                            counts,
                            fm,
                            board,
                            1,
                            k,
                            first,
                        ) == deepening(counts, fm, board, depth + 1, k, bm) by {
                            assert(deepening(counts, fm, board, 1, k, first) == deepening(
                                counts,
                                fm,
                                board,
                                depth as int,
                                k,
                                best_move_global,
                            ));
                        }
                    }
                    best_move_global = bm;
                } else {
                    proof {
                        assert forall|k: int| depth + 1 <= k <= stop implies #[trigger] deepening(
                            counts,
                            fm,
                            board,
                            1,
                            k,
                            first,
                        ) == deepening(counts, fm, board, depth + 1, k, best_move_global) by {
                            assert(deepening(counts, fm, board, 1, k, first) == deepening(
                                counts,
                                fm,
                                board,
                                depth as int,
                                k,
                                best_move_global,
                            ));
                        }
                    }
                }
            },
        }
        depth = depth + 1;
    }
    proof {
        assert(deepening(counts, fm, board, 1, stop as int, first) == best_move_global);
        assert(best_move_global == deepening_choice(counts, fm, board, stop as int));
    }
    best_move_global
}

/// The move iterative deepening plays when the iteration of depth `stop` is the first that
/// the clock interrupts (21: none is): the searches of the depths below `stop` are run to the
/// end. `None` exactly when the side to move has no move; the only move when there is one.
pub fn deepening_move(game: &Game, stop: i32) -> (r: Option<Move>)
    requires
        game.wf(),
        1 <= stop <= 21,
    ensures
        r is None <==> all_moves_spec(game@.board, game@.force_max_capture).len() == 0,
        all_moves_spec(game@.board, game@.force_max_capture).len() == 1 ==> r == Some(
            all_moves_spec(game@.board, game@.force_max_capture)[0],
        ),
        all_moves_spec(game@.board, game@.force_max_capture).len() >= 2 ==> r == Some(
            deepening_choice(game@.counts, game@.force_max_capture, game@.board, stop as int),
        ),
{
    let board = game.board_state();
    let force_max = game.force_max_capture();
    let all = generate_all_moves(&board, force_max);
    if all.len() == 0 {
        return None;
    }
    if all.len() == 1 {
        return Some(all[0]);
    }
    let start_time = now();
    Some(deepen(game, &all, &start_time, u128::MAX, stop))
}

/// The computer's move, by iterative deepening from depth 1 to 20 within the thinking time:
/// `None` exactly when the side to move has no move; the only move when there is one;
/// otherwise the move `deepening_move` gives for the first depth whose iteration the clock
/// interrupted, an iteration that passes a node at which the clock is read (see
/// `search_pick`). Which iteration is interrupted depends on the clock.
pub fn find_best_move(game: &mut Game) -> (r: Option<Move>)
    requires
        old(game).wf(),
    ensures
        *final(game) == *old(game),
        r is None <==> all_moves_spec(old(game)@.board, old(game)@.force_max_capture).len() == 0,
        r matches Some(m) ==> search_pick(
            old(game)@.counts,
            old(game)@.force_max_capture,
            old(game)@.board,
            m,
        ),
{
    let game: &Game = game;
    let board = game.board_state();
    let force_max = game.force_max_capture();
    let all = generate_all_moves(&board, force_max);
    if all.len() == 0 {
        return None;
    }
    if all.len() == 1 {
        assert(all@.contains(all@[0]));
        return Some(all[0]);
    }
    let start_time = now();
    let time_limit_ms = game.ai_time_limit_ms();
    let m = deepen(game, &all, &start_time, time_limit_ms, 21);
    Some(m)
}

proof fn lemma_qs_range(s: BitboardState, alpha: int, beta: int, maximizing: bool, force_max: bool)
    requires
        -i32::MAX <= alpha <= i32::MAX,
        -i32::MAX <= beta <= i32::MAX,
    ensures
        -i32::MAX <= qs_value(s, alpha, beta, maximizing, force_max) <= i32::MAX,
    decreases s.piece_count(), advancement(s), qs_moves(s, force_max).len() + 1,
{
    if s.valid() {
        lemma_evaluation_range(s);
        let sp = evaluation(s);
        let a = if maximizing && sp > alpha {
            sp
        } else {
            alpha
        };
        let b = if !maximizing && sp < beta {
            sp
        } else {
            beta
        };
        if qs_moves(s, force_max).len() > 0 {
            lemma_qs_fold_range(
                s,
                force_max,
                0,
                a,
                b,
                maximizing,
                if maximizing {
                    -i32::MAX as int
                } else {
                    i32::MAX as int
                },
            );
        }
    }
}

proof fn lemma_qs_fold_range(
    s: BitboardState,
    force_max: bool,
    i: int,
    alpha: int,
    beta: int,
    maximizing: bool,
    best: int,
)
    requires
        -i32::MAX <= alpha <= i32::MAX,
        -i32::MAX <= beta <= i32::MAX,
        -i32::MAX <= best <= i32::MAX,
    ensures
        -i32::MAX <= qs_fold(s, force_max, i, alpha, beta, maximizing, best) <= i32::MAX,
    decreases s.piece_count(), advancement(s), qs_moves(s, force_max).len() - i,
{
    let ms = qs_moves(s, force_max);
    if s.valid() && 0 <= i < ms.len() {
        lemma_qs_child(s, force_max, i);
        let next = apply_move_spec(s, ms[i]);
        lemma_qs_range(next, alpha, beta, !maximizing, force_max);
        let v = qs_value(next, alpha, beta, !maximizing, force_max);
        let best2 = if maximizing {
            max_int(best, v)
        } else {
            min_int(best, v)
        };
        let a2 = if maximizing {
            max_int(alpha, v)
        } else {
            alpha
        };
        let b2 = if maximizing {
            beta
        } else {
            min_int(beta, v)
        };
        if !(b2 <= a2) {
            lemma_qs_fold_range(s, force_max, i + 1, a2, b2, maximizing, best2);
        }
    }
}

proof fn lemma_mm_range(
    counts: Map<BitboardState, nat>,
    force_max: bool,
    s: BitboardState,
    depth: int,
    alpha: int,
    beta: int,
    maximizing: bool,
)
    requires
        -i32::MAX <= alpha <= i32::MAX,
        -i32::MAX <= beta <= i32::MAX,
        depth <= i32::MAX - 100000,
    ensures
        -i32::MAX <= mm_value(counts, force_max, s, depth, alpha, beta, maximizing) <= i32::MAX,
    decreases depth, 1int, 0int,
{
    if depth <= 0 {
        lemma_qs_range(s, alpha, beta, maximizing, force_max);
    } else {
        let ms = all_moves_spec(s, force_max);
        if ms.len() > 0 {
            lemma_mm_fold_range(
                counts,
                force_max,
                s,
                depth,
                sort_by_key(ms, true),
                0,
                alpha,
                beta,
                maximizing,
                if maximizing {
                    -i32::MAX as int
                } else {
                    i32::MAX as int
                },
            );
        }
    }
}

proof fn lemma_child_range(
    counts: Map<BitboardState, nat>,
    force_max: bool,
    next: BitboardState,
    depth: int,
    alpha: int,
    beta: int,
    maximizing: bool,
)
    requires
        -i32::MAX <= alpha <= i32::MAX,
        -i32::MAX <= beta <= i32::MAX,
        depth <= i32::MAX - 100000,
    ensures
        -i32::MAX <= child_value(counts, force_max, next, depth, alpha, beta, maximizing)
            <= i32::MAX,
    decreases depth, 0int, 0int,
{
    if depth > 0 && count_of(counts, next) < 1 {
        lemma_mm_range(counts, force_max, next, depth - 1, alpha, beta, !maximizing);
    }
}

proof fn lemma_mm_fold_range(
    counts: Map<BitboardState, nat>,
    force_max: bool,
    s: BitboardState,
    depth: int,
    ms: Seq<Move>,
    i: int,
    alpha: int,
    beta: int,
    maximizing: bool,
    best: int,
)
    requires
        -i32::MAX <= alpha <= i32::MAX,
        -i32::MAX <= beta <= i32::MAX,
        -i32::MAX <= best <= i32::MAX,
        depth <= i32::MAX - 100000,
    ensures
        -i32::MAX <= mm_fold(counts, force_max, s, depth, ms, i, alpha, beta, maximizing, best)
            <= i32::MAX,
    decreases depth, 0int, ms.len() - i,
{
    if !(depth <= 0 || i < 0 || i >= ms.len()) {
        let next = apply_move_spec(s, ms[i]);
        lemma_child_range(counts, force_max, next, depth, alpha, beta, maximizing);
        let v = child_value(counts, force_max, next, depth, alpha, beta, maximizing);
        let best2 = if maximizing {
            max_int(best, v)
        } else {
            min_int(best, v)
        };
        let a2 = if maximizing {
            max_int(alpha, v)
        } else {
            alpha
        };
        let b2 = if maximizing {
            beta
        } else {
            min_int(beta, v)
        };
        if !(b2 <= a2) {
            lemma_mm_fold_range(counts, force_max, s, depth, ms, i + 1, a2, b2, maximizing, best2);
        }
    }
}

/// The search gives each move the value of the position it leads to, searched with the other
/// side to play (`!maximizing`): the side to move scores at least (maximizing) or at most
/// (minimizing) the value of the first move it tries, which is searched with the whole window;
/// a first move whose value lies beyond the window ends the search with that value; and with
/// a single move the position is worth exactly that move.
pub proof fn lemma_search_takes_child_values(
    counts: Map<BitboardState, nat>,
    force_max: bool,
    s: BitboardState,
    depth: int,
    alpha: int,
    beta: int,
    maximizing: bool,
)
    requires
        1 <= depth <= i32::MAX - 100000,
        -i32::MAX <= alpha <= i32::MAX,
        -i32::MAX <= beta <= i32::MAX,
        all_moves_spec(s, force_max).len() > 0,
        count_of(counts, apply_move_spec(s, sort_by_key(all_moves_spec(s, force_max), true)[0]))
            == 0,
    ensures
        ({
            let first = apply_move_spec(s, sort_by_key(all_moves_spec(s, force_max), true)[0]);
            let v0 = mm_value(counts, force_max, first, depth - 1, alpha, beta, !maximizing);
            let v = mm_value(counts, force_max, s, depth, alpha, beta, maximizing);
            &&& maximizing ==> v >= v0
            &&& !maximizing ==> v <= v0
            &&& maximizing && v0 >= beta ==> v == v0
            &&& !maximizing && v0 <= alpha ==> v == v0
            &&& all_moves_spec(s, force_max).len() == 1 ==> v == v0
        }),
{
    let ms = all_moves_spec(s, force_max);
    let sorted = sort_by_key(ms, true);
    lemma_sort_keeps_length(ms, true);
    let first = apply_move_spec(s, sorted[0]);
    lemma_mm_range(counts, force_max, first, depth - 1, alpha, beta, !maximizing);
    let v0 = mm_value(counts, force_max, first, depth - 1, alpha, beta, !maximizing);
    let init = if maximizing {
        -i32::MAX as int
    } else {
        i32::MAX as int
    };
    assert(child_value(counts, force_max, first, depth, alpha, beta, maximizing) == v0);
    let best2 = if maximizing {
        max_int(init, v0)
    } else {
        min_int(init, v0)
    };
    assert(best2 == v0);
    let a2 = if maximizing {
        max_int(alpha, v0)
    } else {
        alpha
    };
    let b2 = if maximizing {
        beta
    } else {
        min_int(beta, v0)
    };
    if !(b2 <= a2) {
        lemma_mm_fold_bound(counts, force_max, s, depth, sorted, 1, a2, b2, maximizing, best2);
        if sorted.len() == 1 {
            assert(mm_fold(counts, force_max, s, depth, sorted, 1, a2, b2, maximizing, best2)
                == best2);
        }
    }
}

/// The loop of the search never makes the best value so far worse.
proof fn lemma_mm_fold_bound(
    counts: Map<BitboardState, nat>,
    force_max: bool,
    s: BitboardState,
    depth: int,
    ms: Seq<Move>,
    i: int,
    alpha: int,
    beta: int,
    maximizing: bool,
    best: int,
)
    ensures
        maximizing ==> mm_fold(counts, force_max, s, depth, ms, i, alpha, beta, maximizing, best)
            >= best,
        !maximizing ==> mm_fold(counts, force_max, s, depth, ms, i, alpha, beta, maximizing, best)
            <= best,
    decreases ms.len() - i,
{
    if !(depth <= 0 || i < 0 || i >= ms.len()) {
        let next = apply_move_spec(s, ms[i]);
        let v = child_value(counts, force_max, next, depth, alpha, beta, maximizing);
        let best2 = if maximizing {
            max_int(best, v)
        } else {
            min_int(best, v)
        };
        let a2 = if maximizing {
            max_int(alpha, v)
        } else {
            alpha
        };
        let b2 = if maximizing {
            beta
        } else {
            min_int(beta, v)
        };
        if !(b2 <= a2) {
            lemma_mm_fold_bound(counts, force_max, s, depth, ms, i + 1, a2, b2, maximizing, best2);
        }
    }
}

proof fn lemma_bucket_split(ms: Seq<Move>, by_promotion: bool, k: int)
    ensures
        ms.filter(|m: Move| move_key(m, by_promotion) <= k).len() == ms.filter(
            |m: Move| move_key(m, by_promotion) == k,
        ).len() + ms.filter(|m: Move| move_key(m, by_promotion) <= k - 1).len(),
    decreases ms.len(),
{
    reveal_with_fuel(Seq::filter, 1);
    if ms.len() > 0 {
        lemma_bucket_split(ms.drop_last(), by_promotion, k);
    }
}

proof fn lemma_no_key_below_zero(ms: Seq<Move>, by_promotion: bool)
    ensures
        ms.filter(|m: Move| move_key(m, by_promotion) <= -1).len() == 0,
    decreases ms.len(),
{
    reveal_with_fuel(Seq::filter, 1);
    if ms.len() > 0 {
        lemma_no_key_below_zero(ms.drop_last(), by_promotion);
    }
}

proof fn lemma_buckets_len(ms: Seq<Move>, by_promotion: bool, k: int)
    requires
        k >= -1,
    ensures
        key_buckets(ms, by_promotion, k).len() == ms.filter(
            |m: Move| move_key(m, by_promotion) <= k,
        ).len(),
    decreases k + 1,
{
    lemma_no_key_below_zero(ms, by_promotion);
    if k >= 0 {
        lemma_buckets_len(ms, by_promotion, k - 1);
        lemma_bucket_split(ms, by_promotion, k);
        if k == 0 {
            assert(key_buckets(ms, by_promotion, -1).len() == 0);
        }
    }
}

proof fn lemma_all_keys_below(ms: Seq<Move>, by_promotion: bool)
    ensures
        ms.filter(|m: Move| move_key(m, by_promotion) <= max_key(ms, by_promotion) as int).len()
            == ms.len(),
    decreases ms.len(),
{
    reveal_with_fuel(Seq::filter, 1);
    if ms.len() > 0 {
        let rest = ms.drop_last();
        lemma_all_keys_below(rest, by_promotion);
        lemma_filter_monotone(rest, by_promotion, max_key(rest, by_promotion) as int, max_key(
            ms,
            by_promotion,
        ) as int);
    }
}

proof fn lemma_filter_monotone(ms: Seq<Move>, by_promotion: bool, k: int, k2: int)
    requires
        k <= k2,
        ms.filter(|m: Move| move_key(m, by_promotion) <= k).len() == ms.len(),
    ensures
        ms.filter(|m: Move| move_key(m, by_promotion) <= k2).len() == ms.len(),
    decreases ms.len(),
{
    reveal_with_fuel(Seq::filter, 1);
    if ms.len() > 0 {
        let rest = ms.drop_last();
        assert(rest.filter(|m: Move| move_key(m, by_promotion) <= k).len() <= rest.len()) by {
            broadcast use vstd::seq_lib::group_filter_ensures;
        }
        lemma_filter_monotone(rest, by_promotion, k, k2);
    }
}

/// Sorting keeps the number of moves.
proof fn lemma_sort_keeps_length(ms: Seq<Move>, by_promotion: bool)
    ensures
        sort_by_key(ms, by_promotion).len() == ms.len(),
{
    lemma_buckets_len(ms, by_promotion, max_key(ms, by_promotion) as int);
    lemma_all_keys_below(ms, by_promotion);
}

proof fn lemma_root_fold_progress(
    counts: Map<BitboardState, nat>,
    force_max: bool,
    s: BitboardState,
    depth: int,
    ms: Seq<Move>,
    i: int,
    alpha: int,
    beta: int,
    maximizing: bool,
    best_val: int,
    best_move: Option<Move>,
)
    requires
        0 <= i,
    ensures
        ({
            let r = root_fold(
                counts,
                force_max,
                s,
                depth,
                ms,
                i,
                alpha,
                beta,
                maximizing,
                best_val,
                best_move,
            );
            &&& maximizing ==> r.1 >= best_val
            &&& !maximizing ==> r.1 <= best_val
            &&& best_move is Some ==> r.0 is Some
            &&& r.1 != best_val ==> r.0 is Some
            &&& r.0 is None ==> r.1 == best_val
            &&& r.0 matches Some(m) ==> (best_move == Some(m) || exists|j: int|
                i <= j < ms.len() && ms[j] == m)
        }),
    decreases ms.len() - i,
{
    if i < ms.len() {
        let next = apply_move_spec(s, ms[i]);
        let v = if count_of(counts, next) >= 1 {
            0
        } else {
            mm_value(counts, force_max, next, depth - 1, alpha, beta, !maximizing)
        };
        if maximizing {
            let better = v > best_val;
            lemma_root_fold_progress(
                counts,
                force_max,
                s,
                depth,
                ms,
                i + 1,
                max_int(alpha, v),
                beta,
                maximizing,
                if better {
                    v
                } else {
                    best_val
                },
                if better {
                    Some(ms[i])
                } else {
                    best_move
                },
            );
        } else {
            let better = v < best_val;
            lemma_root_fold_progress(
                counts,
                force_max,
                s,
                depth,
                ms,
                i + 1,
                alpha,
                min_int(beta, v),
                maximizing,
                if better {
                    v
                } else {
                    best_val
                },
                if better {
                    Some(ms[i])
                } else {
                    best_move
                },
            );
        }
    }
}

/// What a completed search iteration chooses: a move of the position; the side to move
/// (White maximizing, Black minimizing) ends with a value at least (White) or at most (Black)
/// that of the first move it tries, which is searched with the whole window (a move back to a
/// position of the game counting 0); and as soon as that value is better than the worst
/// score of the side, a move is chosen. No move is chosen only when none is better than the
/// worst score, and then the value is that worst score.
pub proof fn lemma_root_choice(
    counts: Map<BitboardState, nat>,
    force_max: bool,
    s: BitboardState,
    depth: int,
)
    requires
        1 <= depth <= i32::MAX - 100000,
        all_moves_spec(s, force_max).len() > 0,
    ensures
        ({
            let ms = sort_by_key(all_moves_spec(s, force_max), false);
            let first = apply_move_spec(s, ms[0]);
            let white = s.turn == PieceColor::White;
            let v0 = if count_of(counts, first) >= 1 {
                0
            } else {
                mm_value(counts, force_max, first, depth - 1, -i32::MAX as int, i32::MAX as int, !white)
            };
            let r = root_search(counts, force_max, s, depth);
            &&& white ==> r.1 >= v0
            &&& !white ==> r.1 <= v0
            &&& white && v0 > -i32::MAX ==> r.0 is Some
            &&& !white && v0 < i32::MAX ==> r.0 is Some
            &&& r.0 is None ==> r.1 == (if white {
                -i32::MAX as int
            } else {
                i32::MAX as int
            })
            &&& r.0 matches Some(m) ==> all_moves_spec(s, force_max).contains(m)
        }),
{
    let all = all_moves_spec(s, force_max);
    let ms = sort_by_key(all, false);
    lemma_sort_keeps_length(all, false);
    lemma_sort_subset(all, false, max_key(all, false) as int);
    let first = apply_move_spec(s, ms[0]);
    let white = s.turn == PieceColor::White;
    if count_of(counts, first) < 1 {
        lemma_mm_range(counts, force_max, first, depth - 1, -i32::MAX as int, i32::MAX as int, !white);
    }
    let init = if white {
        -i32::MAX as int
    } else {
        i32::MAX as int
    };
    lemma_root_fold_progress(
        counts,
        force_max,
        s,
        depth,
        ms,
        0,
        -i32::MAX as int,
        i32::MAX as int,
        white,
        init,
        None,
    );
    let v0 = if count_of(counts, first) >= 1 {
        0
    } else {
        mm_value(counts, force_max, first, depth - 1, -i32::MAX as int, i32::MAX as int, !white)
    };
    let better = if white {
        v0 > init
    } else {
        v0 < init
    };
    let bv = if better {
        v0
    } else {
        init
    };
    let bm = if better {
        Some(ms[0])
    } else {
        None
    };
    lemma_root_fold_progress(
        counts,
        force_max,
        s,
        depth,
        ms,
        1,
        if white {
            max_int(-i32::MAX as int, v0)
        } else {
            -i32::MAX as int
        },
        if white {
            i32::MAX as int
        } else {
            min_int(i32::MAX as int, v0)
        },
        white,
        bv,
        bm,
    );
    let r = root_search(counts, force_max, s, depth);
    if r.0 is Some {
        let m = r.0.unwrap();
        if exists|j: int| 0 <= j < ms.len() && ms[j] == m {
            let j = choose|j: int| 0 <= j < ms.len() && ms[j] == m;
            assert(all.contains(ms[j]));
        }
    }
}

/// The moves the quiescence search examines: all the captures when there is one; otherwise
/// exactly the plain steps of the side to move that land on its promotion rank.
pub proof fn lemma_quiescence_examines(s: BitboardState, force_max: bool)
    ensures
        captures_spec(s, force_max).len() > 0 ==> qs_moves(s, force_max) == captures_spec(
            s,
            force_max,
        ),
        captures_spec(s, force_max).len() == 0 ==> forall|m: Move|
            #[trigger] qs_moves(s, force_max).contains(m) <==> (simple_moves_spec(s).contains(m)
                && m.to & (if s.turn == PieceColor::White {
                WHITE_PROMOTION_RANK
            } else {
                BLACK_PROMOTION_RANK
            }) != 0),
{
    if captures_spec(s, force_max).len() == 0 {
        let pred = |m: Move| m.to & promotion_rank(s.turn) != 0;
        let quiet = simple_moves_spec(s);
        assert forall|m: Move| #[trigger] qs_moves(s, force_max).contains(m) <==> (
        quiet.contains(m) && m.to & (if s.turn == PieceColor::White {
            WHITE_PROMOTION_RANK
        } else {
            BLACK_PROMOTION_RANK
        }) != 0) by {
            if quiet.contains(m) && pred(m) {
                let j = choose|j: int| 0 <= j < quiet.len() && quiet[j] == m;
                quiet.lemma_filter_contains(pred, j);
            }
            if qs_moves(s, force_max).contains(m) {
                quiet.lemma_filter_contains_rev(pred, m);
            }
        }
    }
}

/// The quiescence search gives each examined move the value of the position it leads to,
/// searched with the other side to play: when the static score does not end the search, the
/// maximizing side scores at least, and the minimizing side at most, the value of the first
/// examined move (searched in the window narrowed by the static score).
pub proof fn lemma_quiescence_takes_child_values(
    s: BitboardState,
    alpha: int,
    beta: int,
    maximizing: bool,
    force_max: bool,
)
    requires
        s.valid(),
        -i32::MAX <= alpha <= i32::MAX,
        -i32::MAX <= beta <= i32::MAX,
        qs_moves(s, force_max).len() > 0,
        maximizing ==> evaluation(s) < beta,
        !maximizing ==> evaluation(s) > alpha,
    ensures
        ({
            let sp = evaluation(s);
            let a = if maximizing && sp > alpha {
                sp
            } else {
                alpha
            };
            let b = if !maximizing && sp < beta {
                sp
            } else {
                beta
            };
            let first = apply_move_spec(s, qs_moves(s, force_max)[0]);
            let v0 = qs_value(first, a, b, !maximizing, force_max);
            let v = qs_value(s, alpha, beta, maximizing, force_max);
            &&& maximizing ==> v >= v0
            &&& !maximizing ==> v <= v0
        }),
{
    let sp = evaluation(s);
    lemma_evaluation_range(s);
    let a = if maximizing && sp > alpha {
        sp
    } else {
        alpha
    };
    let b = if !maximizing && sp < beta {
        sp
    } else {
        beta
    };
    lemma_qs_child(s, force_max, 0);
    let first = apply_move_spec(s, qs_moves(s, force_max)[0]);
    lemma_qs_range(first, a, b, !maximizing, force_max);
    let v0 = qs_value(first, a, b, !maximizing, force_max);
    let init = if maximizing {
        -i32::MAX as int
    } else {
        i32::MAX as int
    };
    let best2 = if maximizing {
        max_int(init, v0)
    } else {
        min_int(init, v0)
    };
    let a2 = if maximizing {
        max_int(a, v0)
    } else {
        a
    };
    let b2 = if maximizing {
        b
    } else {
        min_int(b, v0)
    };
    if !(b2 <= a2) {
        lemma_qs_fold_bound(s, force_max, 1, a2, b2, maximizing, best2);
    }
}

/// The loop of the quiescence search never makes the best value so far worse.
proof fn lemma_qs_fold_bound(
    s: BitboardState,
    force_max: bool,
    i: int,
    alpha: int,
    beta: int,
    maximizing: bool,
    best: int,
)
    ensures
        maximizing ==> qs_fold(s, force_max, i, alpha, beta, maximizing, best) >= best,
        !maximizing ==> qs_fold(s, force_max, i, alpha, beta, maximizing, best) <= best,
    decreases qs_moves(s, force_max).len() - i,
{
    let ms = qs_moves(s, force_max);
    if s.valid() && 0 <= i < ms.len() {
        lemma_qs_child(s, force_max, i);
        let v = qs_value(apply_move_spec(s, ms[i]), alpha, beta, !maximizing, force_max);
        let best2 = if maximizing {
            max_int(best, v)
        } else {
            min_int(best, v)
        };
        let a2 = if maximizing {
            max_int(alpha, v)
        } else {
            alpha
        };
        let b2 = if maximizing {
            beta
        } else {
            min_int(beta, v)
        };
        if !(b2 <= a2) {
            lemma_qs_fold_bound(s, force_max, i + 1, a2, b2, maximizing, best2);
        }
    }
}

} // verus!
