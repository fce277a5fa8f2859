use checkers::board::{BitboardState, Move, Piece, PieceColor, PieceKind};
use checkers::counts::PositionCounts;
use checkers::game::{Game, Mode, MoveAnimation, TurnStep};

fn bit(i: u32) -> u64 {
    1u64 << i
}

#[test]
fn new_game_starts_on_the_menu() {
    let g = Game::new();
    assert_eq!(g.mode(), Mode::Menu);
    assert_eq!(g.board_state(), BitboardState::new());
    assert!(g.force_max_capture());
    assert_eq!(g.ai_time_tenths(), 8);
    assert_eq!(g.ai_time_limit_ms(), 800);
    assert_eq!(g.full_move_number(), 1);
    assert_eq!(g.half_move_clock(), 0);
    assert_eq!(g.position_count(&BitboardState::new()), 1);
    assert!(g.history().is_empty());
    assert_eq!(g.is_game_over(), None);
    assert!(!g.ai_white() && !g.ai_black());
    assert!(g.has_room());
}

#[test]
fn menu_items() {
    let mut g = Game::new();
    g.select_menu_item(Mode::AvA);
    assert_eq!(g.mode(), Mode::AvA);
    assert!(g.ai_white() && g.ai_black());
    g.select_menu_item(Mode::PvP);
    assert_eq!(g.mode(), Mode::PvP);
    assert!(!g.ai_white() && !g.ai_black());
    g.select_menu_item(Mode::Settings);
    assert_eq!(g.mode(), Mode::Settings);
    g.select_menu_item(Mode::SideSelection);
    assert_eq!(g.mode(), Mode::SideSelection);
    g.set_mode(Mode::Menu);
    assert_eq!(g.mode(), Mode::Menu);
}

#[test]
fn settings_stay_in_range() {
    let mut g = Game::new();
    g.toggle_force_max_capture();
    assert!(!g.force_max_capture());
    g.toggle_force_max_capture();
    assert!(g.force_max_capture());
    for _ in 0..20 {
        g.decrease_ai_time();
    }
    assert_eq!(g.ai_time_tenths(), 1);
    for _ in 0..40 {
        g.increase_ai_time();
    }
    assert_eq!(g.ai_time_tenths(), 30);
    assert_eq!(g.ai_time_limit_ms(), 3000);
}

#[test]
fn choosing_black_turns_the_board() {
    let mut g = Game::new();
    g.choose_side(false);
    assert_eq!(g.mode(), Mode::PvA);
    assert!(g.ai_white() && !g.ai_black());
    assert!(g.flipped());
    assert!(g.is_ai_turn());
    g.choose_side(true);
    assert!(!g.ai_white() && g.ai_black());
    assert!(!g.flipped());
    assert!(!g.is_ai_turn());
    g.flip();
    assert!(g.flipped());
}

#[test]
fn select_then_click_to_move() {
    let mut g = Game::new();
    g.select_menu_item(Mode::PvP);
    // row 5, column 0 is a3 (square 16), a white man
    assert!(!g.press_square(5, 0));
    assert_eq!(g.selected_square_idx(), Some(16));
    assert_eq!(g.dragged_piece_idx(), Some(16));
    assert_eq!(g.legal_moves().len(), 7);
    assert_eq!(g.release_square(None), None);
    assert_eq!(g.dragged_piece_idx(), None);
    // row 4, column 1 is b4 (square 25)
    assert!(g.press_square(4, 1));
    let m = Move { from: bit(16), to: bit(25), captures: 0 };
    assert_eq!(
        g.animation(),
        Some(MoveAnimation { piece: Piece { kind: PieceKind::Man, color: PieceColor::White }, move_data: m })
    );
    assert_eq!(g.finish_animation(), Some(false));
    assert_eq!(g.animation(), None);
    let after = BitboardState::new().apply_move(&m);
    assert_eq!(g.board_state(), after);
    assert_eq!(g.history(), &vec![BitboardState::new()]);
    assert_eq!(g.last_move(), Some(m));
    assert_eq!(g.selected_square_idx(), None);
    assert_eq!(g.position_count(&after), 1);
    assert_eq!(g.full_move_number(), 1);
    assert_eq!(g.board_state().turn, PieceColor::Black);
}

#[test]
fn drag_and_drop_plays_at_once() {
    let mut g = Game::new();
    g.select_menu_item(Mode::PvP);
    g.press_square(5, 0);
    assert_eq!(g.release_square(Some((4, 1))), Some(false));
    assert_eq!(g.dragged_piece_idx(), None);
    assert_eq!(g.board_state().turn, PieceColor::Black);
    // Black answers h6-g5, which moves the full-move number on
    // row 2, column 7 is h6 (square 47); row 3, column 6 is g5 (square 38)
    g.press_square(2, 7);
    assert_eq!(g.selected_square_idx(), Some(47));
    assert_eq!(g.release_square(Some((3, 6))), Some(false));
    assert_eq!(g.full_move_number(), 2);
    assert_eq!(g.half_move_clock(), 0);
    assert_eq!(g.history().len(), 2);
}

#[test]
fn pressing_an_opponent_piece_selects_nothing() {
    let mut g = Game::new();
    g.select_menu_item(Mode::PvP);
    g.press_square(5, 0);
    assert_eq!(g.selected_square_idx(), Some(16));
    // b6 holds a black man
    g.press_square(2, 1);
    assert_eq!(g.selected_square_idx(), None);
    // e4 is empty
    g.press_square(4, 4);
    assert_eq!(g.selected_square_idx(), None);
}

#[test]
fn undo_goes_back() {
    let mut g = Game::new();
    g.select_menu_item(Mode::PvP);
    g.press_square(5, 0);
    g.release_square(Some((4, 1)));
    g.undo();
    assert_eq!(g.board_state(), BitboardState::new());
    assert!(g.history().is_empty());
    assert_eq!(g.full_move_number(), 1);
    assert_eq!(g.last_move(), None);
    assert!(g.legal_moves().is_empty());
    // undoing with nothing recorded leaves the opening position
    g.undo();
    assert_eq!(g.board_state(), BitboardState::new());
}

#[test]
fn undo_after_two_moves_returns_to_the_start() {
    let mut g = Game::new();
    g.select_menu_item(Mode::PvP);
    g.press_square(5, 0);
    g.release_square(Some((4, 1)));
    g.press_square(2, 7);
    g.release_square(Some((3, 6)));
    g.undo();
    assert_eq!(g.board_state(), BitboardState::new());
    assert_eq!(g.history(), &vec![BitboardState::new()]);
    assert_eq!(g.full_move_number(), 1);
}

#[test]
fn computer_moves_on_its_second_update() {
    let mut g = Game::new();
    g.choose_side(false);
    assert_eq!(g.update_turn(), TurnStep::AiWaiting);
    assert!(g.ai_should_move());
    assert_eq!(g.update_turn(), TurnStep::AiMoved);
    assert!(!g.ai_should_move());
    let a = g.animation().unwrap();
    assert_eq!(a.piece, Piece { kind: PieceKind::Man, color: PieceColor::White });
    assert_eq!(g.finish_animation(), Some(false));
    assert_eq!(g.board_state().turn, PieceColor::Black);
    assert_eq!(g.update_turn(), TurnStep::PlayerToMove);
}

#[test]
fn game_over_notice() {
    let mut g = Game::new();
    assert!(!g.game_over_printed());
    g.mark_game_over_printed();
    assert!(g.game_over_printed());
}

#[test]
fn position_counts_track_occurrences() {
    let mut c = PositionCounts::new();
    let s = BitboardState::new();
    assert_eq!(c.get(&s), None);
    c.increment(s);
    c.increment(s);
    assert_eq!(c.get(&s), Some(2));
    c.decrement(s);
    assert_eq!(c.get(&s), Some(1));
    c.decrement(s);
    assert_eq!(c.get(&s), None);
    c.insert(s, 5);
    assert_eq!(c.get(&s), Some(5));
    assert!(c.all_below_max());
    c.clear();
    assert_eq!(c.get(&s), None);
}
