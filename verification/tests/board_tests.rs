use checkers::board::{BitboardState, Move, Piece, PieceColor, PieceKind};

fn bit(i: u32) -> u64 {
    1u64 << i
}

fn empty_state(turn: PieceColor) -> BitboardState {
    BitboardState { white_men: 0, black_men: 0, white_kings: 0, black_kings: 0, turn }
}

#[test]
fn opening_position() {
    let s = BitboardState::new();
    assert_eq!(s.white_men, 0x000000000055AA55);
    assert_eq!(s.black_men, 0xAA55AA0000000000);
    assert_eq!(s.white_kings, 0);
    assert_eq!(s.black_kings, 0);
    assert_eq!(s.turn, PieceColor::White);
    assert_eq!(s.white_pieces().count_ones(), 12);
    assert_eq!(s.black_pieces().count_ones(), 12);
    assert_eq!(s.all_pieces(), 0xAA55AA000055AA55);
}

#[test]
fn colour_swaps() {
    assert_eq!(PieceColor::White.not(), PieceColor::Black);
    assert_eq!(PieceColor::Black.not(), PieceColor::White);
}

#[test]
fn pieces_by_row_and_column() {
    let s = BitboardState::new();
    // bottom-left corner, a1
    assert_eq!(s.get_piece_at(7, 0), Some(Piece { kind: PieceKind::Man, color: PieceColor::White }));
    // b8
    assert_eq!(s.get_piece_at(0, 1), Some(Piece { kind: PieceKind::Man, color: PieceColor::Black }));
    // e4 is empty
    assert_eq!(s.get_piece_at(4, 4), None);
    // off the board
    assert_eq!(s.get_piece_at(8, 0), None);
    assert_eq!(s.get_piece_at(-1, 0), None);
}

#[test]
fn piece_lookup_order() {
    let mut s = empty_state(PieceColor::White);
    s.white_kings = bit(27);
    s.black_kings = bit(36);
    assert_eq!(s.get_piece_at_bit(bit(27)), Some(Piece { kind: PieceKind::King, color: PieceColor::White }));
    assert_eq!(s.get_piece_at_bit(bit(36)), Some(Piece { kind: PieceKind::King, color: PieceColor::Black }));
    assert_eq!(s.get_piece_at_bit(bit(0)), None);
}

#[test]
fn plain_step_passes_the_turn() {
    let s = BitboardState::new();
    let m = Move { from: bit(16), to: bit(25), captures: 0 };
    let n = s.apply_move(&m);
    assert_eq!(n.white_men, (0x000000000055AA55 & !bit(16)) | bit(25));
    assert_eq!(n.black_men, s.black_men);
    assert_eq!(n.turn, PieceColor::Black);
}

#[test]
fn man_is_crowned_on_the_far_rank() {
    let mut s = empty_state(PieceColor::White);
    s.white_men = bit(54);
    s.black_men = bit(9);
    let n = s.apply_move(&Move { from: bit(54), to: bit(63), captures: 0 });
    assert_eq!(n.white_men, 0);
    assert_eq!(n.white_kings, bit(63));
    assert_eq!(n.turn, PieceColor::Black);

    let mut b = empty_state(PieceColor::Black);
    b.black_men = bit(9);
    let n = b.apply_move(&Move { from: bit(9), to: bit(0), captures: 0 });
    assert_eq!(n.black_men, 0);
    assert_eq!(n.black_kings, bit(0));
}

#[test]
fn capture_removes_the_jumped_piece() {
    let mut s = empty_state(PieceColor::White);
    s.white_men = bit(18);
    s.black_men = bit(27) | bit(63);
    let n = s.apply_move(&Move { from: bit(18), to: bit(36), captures: bit(27) });
    assert_eq!(n.white_men, bit(36));
    assert_eq!(n.black_men, bit(63));
    assert_eq!(n.turn, PieceColor::Black);
}

#[test]
fn king_keeps_its_crown() {
    let mut s = empty_state(PieceColor::Black);
    s.black_kings = bit(27);
    let n = s.apply_move(&Move { from: bit(27), to: bit(18), captures: 0 });
    assert_eq!(n.black_kings, bit(18));
    assert_eq!(n.black_men, 0);
    assert_eq!(n.turn, PieceColor::White);
}

#[test]
fn a_move_of_the_other_side_keeps_the_counts() {
    // White is to move, but the black king on d4 jumps the white man on e5: the board stays
    // one piece per square, Black keeps its king and White loses its man.
    let s = BitboardState {
        white_men: 1u64 << 36,
        black_men: 0,
        white_kings: 1u64 << 0,
        black_kings: 1u64 << 27,
        turn: PieceColor::White,
    };
    let m = Move { from: 1u64 << 27, to: 1u64 << 45, captures: 1u64 << 36 };
    let n = s.apply_move(&m);
    assert_eq!(n.black_kings, 1u64 << 45);
    assert_eq!(n.white_men, 0);
    assert_eq!(n.white_kings, 1u64 << 0);
    assert_eq!(n.all_pieces().count_ones(), s.all_pieces().count_ones() - 1);
    assert_eq!(n.turn, PieceColor::Black);
}
