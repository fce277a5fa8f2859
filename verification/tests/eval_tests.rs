use checkers::board::{BitboardState, PieceColor};
use checkers::eval::evaluate_board;

fn bit(i: u32) -> u64 {
    1u64 << i
}

fn empty_state(turn: PieceColor) -> BitboardState {
    BitboardState { white_men: 0, black_men: 0, white_kings: 0, black_kings: 0, turn }
}

#[test]
fn opening_position_is_level() {
    assert_eq!(evaluate_board(&BitboardState::new()), 0);
}

#[test]
fn king_against_man() {
    // White king a1 against Black man h8: material 250, Black's man may step once (-5), the
    // man stands in a corner (+25).
    let mut s = empty_state(PieceColor::White);
    s.white_kings = bit(0);
    s.black_men = bit(63);
    assert_eq!(evaluate_board(&s), 270);
}

#[test]
fn two_kings_close_in_on_one() {
    // Kings a1 and c1 against a king on h8: material 350, trading 230, and each white king is
    // seven steps away, worth 30 each.
    let mut s = empty_state(PieceColor::White);
    s.white_kings = bit(0) | bit(2);
    s.black_kings = bit(63);
    assert_eq!(evaluate_board(&s), 640);
}

#[test]
fn colours_swapped_give_the_opposite_score() {
    let mut s = empty_state(PieceColor::White);
    s.black_kings = bit(63) | bit(61);
    s.white_kings = bit(0);
    assert_eq!(evaluate_board(&s), -640);
}

#[test]
fn runaway_man() {
    // A white man on e5 with nothing ahead of it: rank 4 gives 16, the free path 100; both
    // forward steps are open (10); the black king stands behind it on b2.
    let mut s = empty_state(PieceColor::White);
    s.white_men = bit(36);
    s.black_kings = bit(9);
    // material 100 - 350, mobility +10, center e5 is central +8, runaway 16 + 100
    // trading: equal totals; corners (2 pieces): none; pursuit: equal totals.
    assert_eq!(evaluate_board(&s), 100 - 350 + 10 + 8 + 116);
}

#[test]
fn man_with_a_piece_ahead_is_not_a_runaway() {
    let mut s = empty_state(PieceColor::White);
    s.white_men = bit(36);
    s.black_kings = bit(63);
    // as above, but the king on h8 blocks the free path
    assert_eq!(evaluate_board(&s), 100 - 350 + 10 + 8 + 16);
}

fn turned_round(s: &BitboardState) -> BitboardState {
    BitboardState {
        white_men: s.black_men.reverse_bits(),
        black_men: s.white_men.reverse_bits(),
        white_kings: s.black_kings.reverse_bits(),
        black_kings: s.white_kings.reverse_bits(),
        turn: s.turn.not(),
    }
}

#[test]
fn turned_round_position_scores_the_opposite() {
    // Three white men (one of them a runaway on e5), a white king, two black men and a black
    // king in a corner.
    let mut s = empty_state(PieceColor::White);
    s.white_men = bit(0) | bit(2) | bit(36);
    s.white_kings = bit(27);
    s.black_men = bit(57) | bit(50);
    s.black_kings = bit(6);
    let score = evaluate_board(&s);
    assert_ne!(score, 0);
    assert_eq!(evaluate_board(&turned_round(&s)), -score);
}
