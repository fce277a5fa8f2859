use std::time::Instant;
use checkers::board::{BitboardState, Move, PieceColor};
use checkers::clock::{past_limit, time_is_up};
use checkers::game::Game;
use checkers::movegen::generate_all_moves;
use checkers::eval::evaluate_board;
use checkers::search::{deepening_move, find_best_move, minimax, quiescence};

fn bit(i: u32) -> u64 {
    1u64 << i
}

fn empty_state(turn: PieceColor) -> BitboardState {
    BitboardState { white_men: 0, black_men: 0, white_kings: 0, black_kings: 0, turn }
}

#[test]
fn quiet_position_stands_pat() {
    let start = Instant::now();
    let mut nodes = 0u64;
    let s = BitboardState::new();
    let v = quiescence(&s, -i32::MAX, i32::MAX, true, &start, &mut nodes, 10_000, true);
    assert_eq!(v, Some(0));
    assert_eq!(nodes, 1);
}

#[test]
fn stand_pat_beyond_the_window_is_cut() {
    let start = Instant::now();
    let mut nodes = 0u64;
    let s = BitboardState::new();
    assert_eq!(quiescence(&s, -i32::MAX, -10, true, &start, &mut nodes, 10_000, true), Some(-10));
    assert_eq!(quiescence(&s, 10, i32::MAX, false, &start, &mut nodes, 10_000, true), Some(10));
}

#[test]
fn quiescence_follows_the_capture() {
    // White to move must take: man c3 takes d4. Afterwards only White's man (on e5) and a
    // black king on h8 remain, and Black has no capture or crowning step.
    let start = Instant::now();
    let mut nodes = 0u64;
    let mut s = empty_state(PieceColor::White);
    s.white_men = bit(18);
    s.black_men = bit(27);
    s.black_kings = bit(63);
    let after = s.apply_move(&Move { from: bit(18), to: bit(36), captures: bit(27) });
    let expected = checkers::eval::evaluate_board(&after);
    let v = quiescence(&s, -i32::MAX, i32::MAX, true, &start, &mut nodes, 10_000, true);
    assert_eq!(v, Some(expected));
    assert_eq!(expected, 100 - 350 + 10 + 8 + 16);
}

#[test]
fn side_without_moves_loses() {
    let start = Instant::now();
    let mut nodes = 0u64;
    let game = Game::new();
    let mut s = empty_state(PieceColor::White);
    s.black_kings = bit(63);
    assert_eq!(minimax(&game, s, 1, -i32::MAX, i32::MAX, true, &start, &mut nodes, 10_000), Some(-99981));
    let mut b = empty_state(PieceColor::Black);
    b.white_kings = bit(0);
    assert_eq!(minimax(&game, b, 3, -i32::MAX, i32::MAX, false, &start, &mut nodes, 10_000), Some(99983));
}

#[test]
fn depth_zero_is_quiescence() {
    let start = Instant::now();
    let mut nodes = 0u64;
    let game = Game::new();
    let s = BitboardState::new();
    assert_eq!(minimax(&game, s, 0, -i32::MAX, i32::MAX, true, &start, &mut nodes, 10_000), Some(0));
}

#[test]
fn computer_plays_a_legal_move() {
    let mut game = Game::new();
    let moves = generate_all_moves(&game.board_state(), true);
    assert_eq!(moves.len(), 7);
    let m = find_best_move(&mut game).unwrap();
    assert!(moves.contains(&m));
}

#[test]
fn clock_is_read_only_every_2048_nodes() {
    let start = Instant::now();
    assert!(!time_is_up(1, &start, 0));
    assert!(!time_is_up(2047, &start, 0));
}

#[test]
fn unlimited_time_never_stops_the_search() {
    let start = Instant::now();
    let mut nodes = 2047u64;
    let s = BitboardState::new();
    assert_eq!(quiescence(&s, -i32::MAX, i32::MAX, true, &start, &mut nodes, u128::MAX, true), Some(0));
    assert_eq!(nodes, 2048);
    assert!(!time_is_up(0, &start, u128::MAX));
}

#[test]
fn spent_time_stops_the_search() {
    let start = Instant::now();
    while start.elapsed().as_millis() < 3 {}
    let mut nodes = 2047u64;
    let s = BitboardState::new();
    assert_eq!(quiescence(&s, -i32::MAX, i32::MAX, true, &start, &mut nodes, 1, true), None);
    assert!(time_is_up(4096, &start, 1));
}

#[test]
fn loss_counts_one_node() {
    let start = Instant::now();
    let mut nodes = 0u64;
    let game = Game::new();
    let mut s = empty_state(PieceColor::White);
    s.black_men = bit(63);
    assert_eq!(minimax(&game, s, 3, -i32::MAX, i32::MAX, true, &start, &mut nodes, u128::MAX), Some(-99983));
    assert_eq!(nodes, 1);
}

#[test]
fn stand_pat_cut_counts_one_node() {
    let start = Instant::now();
    let mut nodes = 5u64;
    let s = BitboardState::new();
    assert_eq!(quiescence(&s, -i32::MAX, -10, true, &start, &mut nodes, 0, true), Some(-10));
    assert_eq!(nodes, 6);
    assert_eq!(quiescence(&s, 10, i32::MAX, false, &start, &mut nodes, 0, true), Some(10));
    assert_eq!(nodes, 7);
}

#[test]
fn counter_wraps_round() {
    let start = Instant::now();
    let mut nodes = u64::MAX;
    let s = BitboardState::new();
    assert_eq!(quiescence(&s, -i32::MAX, i32::MAX, true, &start, &mut nodes, u128::MAX, true), Some(0));
    assert_eq!(nodes, 0);
}

#[test]
fn depth_zero_counts_the_quiescence_nodes() {
    let start = Instant::now();
    let game = Game::new();
    let mut s = empty_state(PieceColor::White);
    s.white_men = bit(18);
    s.black_men = bit(27);
    s.black_kings = bit(63);
    let mut n1 = 0u64;
    let q = quiescence(&s, -i32::MAX, i32::MAX, true, &start, &mut n1, u128::MAX, true);
    let mut n2 = 0u64;
    let m = minimax(&game, s, 0, -i32::MAX, i32::MAX, true, &start, &mut n2, u128::MAX);
    assert_eq!(q, m);
    assert_eq!(n1, 2);
    assert_eq!(n2, 3);
}

#[test]
fn deepening_without_a_finished_iteration_plays_the_first_move() {
    let game = Game::new();
    let moves = generate_all_moves(&game.board_state(), true);
    assert_eq!(deepening_move(&game, 1), Some(moves[0]));
}

#[test]
fn one_iteration_picks_the_best_static_score() {
    // From the opening no reply can capture or crown, so each move is valued by the score of
    // the position it reaches; the first move with the highest score is kept.
    let game = Game::new();
    let board = game.board_state();
    let moves = generate_all_moves(&board, true);
    let mut best = moves[0];
    let mut best_val = -i32::MAX;
    for m in &moves {
        let v = evaluate_board(&board.apply_move(m));
        if v > best_val {
            best_val = v;
            best = *m;
        }
    }
    assert_eq!(deepening_move(&game, 2), Some(best));
}

#[test]
fn limit_is_passed_only_beyond_it() {
    assert!(!past_limit(800, 800));
    assert!(past_limit(801, 800));
    assert!(!past_limit(0, 0));
    assert!(past_limit(1, 0));
    assert!(!past_limit(u128::MAX, u128::MAX));
}
