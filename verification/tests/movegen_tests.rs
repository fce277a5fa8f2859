use checkers::board::{BitboardState, Move, PieceColor};
use checkers::movegen::{
    find_capture_paths_recursive, generate_all_moves, generate_captures,
    generate_captures_from_pos, generate_simple_moves, retain_most_captures, shift_dir,
};
use checkers::search::sort_moves;

fn bit(i: u32) -> u64 {
    1u64 << i
}

fn step(from: u32, to: u32) -> Move {
    Move { from: bit(from), to: bit(to), captures: 0 }
}

fn empty_state(turn: PieceColor) -> BitboardState {
    BitboardState { white_men: 0, black_men: 0, white_kings: 0, black_kings: 0, turn }
}

#[test]
fn opening_moves_in_order() {
    let s = BitboardState::new();
    let expected = vec![
        step(16, 25),
        step(18, 27),
        step(20, 29),
        step(22, 31),
        step(18, 25),
        step(20, 27),
        step(22, 29),
    ];
    assert_eq!(generate_simple_moves(&s), expected);
    assert_eq!(generate_all_moves(&s, true), expected);
    assert_eq!(generate_all_moves(&s, false), expected);
    assert!(generate_captures(&s, true).is_empty());
}

#[test]
fn black_opening_moves() {
    let mut s = BitboardState::new();
    s.turn = PieceColor::Black;
    let moves = generate_simple_moves(&s);
    assert_eq!(moves.len(), 7);
    assert_eq!(moves[0], step(41, 32));
    assert_eq!(moves[4], step(41, 34));
    for m in &moves {
        assert!(m.to < m.from);
    }
}

#[test]
fn king_steps_all_four_ways() {
    let mut s = empty_state(PieceColor::White);
    s.white_kings = bit(27);
    let expected = vec![step(27, 36), step(27, 34), step(27, 18), step(27, 20)];
    assert_eq!(generate_simple_moves(&s), expected);
}

#[test]
fn no_wrap_round_the_edge() {
    let mut s = empty_state(PieceColor::White);
    // a man on the h file may only step to the g file
    s.white_men = bit(15);
    assert_eq!(generate_simple_moves(&s), vec![step(15, 22)]);
}

#[test]
fn capture_is_compulsory() {
    let mut s = empty_state(PieceColor::White);
    s.white_men = bit(18) | bit(0);
    s.black_men = bit(27);
    let capture = Move { from: bit(18), to: bit(36), captures: bit(27) };
    assert_eq!(generate_all_moves(&s, true), vec![capture]);
    assert_eq!(generate_all_moves(&s, false), vec![capture]);
    assert!(generate_simple_moves(&s).len() > 0);
}

#[test]
fn multiple_jump_is_one_move() {
    let mut s = empty_state(PieceColor::White);
    s.white_men = bit(0);
    s.black_men = bit(9) | bit(27);
    let expected = Move { from: bit(0), to: bit(36), captures: bit(9) | bit(27) };
    assert_eq!(generate_captures(&s, false), vec![expected]);
    let mut paths = Vec::new();
    find_capture_paths_recursive(&s, bit(0), bit(0), 0, &mut paths);
    assert_eq!(paths, vec![expected]);
    assert_eq!(generate_captures_from_pos(&s, bit(0), true), vec![expected]);
}

#[test]
fn most_captures_forced() {
    let mut s = empty_state(PieceColor::White);
    s.white_men = bit(0) | bit(22);
    s.black_men = bit(9) | bit(27) | bit(29);
    let double = Move { from: bit(0), to: bit(36), captures: bit(9) | bit(27) };
    let single = Move { from: bit(22), to: bit(36), captures: bit(29) };
    assert_eq!(generate_captures(&s, false), vec![double, single]);
    assert_eq!(generate_captures(&s, true), vec![double]);
    assert_eq!(generate_all_moves(&s, true), vec![double]);
}

#[test]
fn men_capture_forward_only_kings_both_ways() {
    let mut s = empty_state(PieceColor::White);
    s.white_men = bit(36);
    s.black_men = bit(27);
    assert!(generate_captures(&s, true).is_empty());
    s.white_men = 0;
    s.white_kings = bit(36);
    assert_eq!(
        generate_captures(&s, true),
        vec![Move { from: bit(36), to: bit(18), captures: bit(27) }]
    );
}

#[test]
fn no_captures_from_an_empty_square() {
    let s = BitboardState::new();
    assert!(generate_captures_from_pos(&s, bit(27), true).is_empty());
}

#[test]
fn keeping_the_largest_captures() {
    let a = Move { from: bit(0), to: bit(18), captures: bit(9) };
    let b = Move { from: bit(0), to: bit(36), captures: bit(9) | bit(27) };
    let c = Move { from: bit(2), to: bit(20), captures: bit(11) };
    let d = Move { from: bit(4), to: bit(38), captures: bit(13) | bit(29) };
    assert_eq!(retain_most_captures(vec![a, b, c, d]), vec![b, d]);
    assert_eq!(retain_most_captures(vec![]), vec![]);
}

#[test]
fn stable_sort_by_captures() {
    let a = Move { from: bit(0), to: bit(18), captures: bit(9) };
    let b = Move { from: bit(0), to: bit(36), captures: bit(9) | bit(27) };
    let c = Move { from: bit(2), to: bit(11), captures: 0 };
    let d = Move { from: bit(4), to: bit(38), captures: bit(13) | bit(29) };
    let e = Move { from: bit(6), to: bit(24), captures: bit(15) };
    let moves = vec![a, b, c, d, e];
    assert_eq!(sort_moves(&moves, false), vec![b, d, a, e, c]);
}

#[test]
fn promotions_first_among_equal_captures() {
    let quiet = Move { from: bit(45), to: bit(54), captures: 0 };
    let crowning = Move { from: bit(54), to: bit(63), captures: 0 };
    let moves = vec![quiet, crowning];
    assert_eq!(sort_moves(&moves, true), vec![crowning, quiet]);
    assert_eq!(sort_moves(&moves, false), vec![quiet, crowning]);
}

#[test]
fn shifting_in_each_direction() {
    assert_eq!(shift_dir(bit(27), 9), bit(36));
    assert_eq!(shift_dir(bit(27), 7), bit(34));
    assert_eq!(shift_dir(bit(27), -9), bit(18));
    assert_eq!(shift_dir(bit(27), -7), bit(20));
}
