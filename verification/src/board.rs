use vstd::prelude::*;
use crate::bits::{pop, single_bit, lemma_word_facts, lemma_pop_union, lemma_pop_subset, lemma_pop_remove, lemma_pop_add};

verus! {

// Square masks. Bit `i` is square `i`: rank `i / 8` counted from White's side, file `i % 8`.
/// Every square but those on file a.
pub const NOT_A_FILE: u64 = 0xfefefefefefefefe;
/// Every square but those on file h.
pub const NOT_H_FILE: u64 = 0x7f7f7f7f7f7f7f7f;
/// The rank on which White's men are crowned.
pub const WHITE_PROMOTION_RANK: u64 = 0xFF00000000000000;
/// The rank on which Black's men are crowned.
pub const BLACK_PROMOTION_RANK: u64 = 0x00000000000000FF;
/// The playing squares.
pub const DARK_SQUARES: u64 = 0xAA55AA55AA55AA55;
/// The sixteen central squares.
pub const CENTER_MASK: u64 = 0x00003C3C3C3C0000;
/// The four corner squares.
pub const DOG_HOLES: u64 = 0x8000000000000001u64 | 0x0100000000000080u64;
/// White's back-rank bridge.
pub const WHITE_BRIDGE: u64 = 0x000000000000000A;
/// Black's back-rank bridge.
pub const BLACK_BRIDGE: u64 = 0x5000000000000000;
/// The strong double corner a7/b8.
pub const CORNER_TL: u64 = (1u64 << 57u64) | (1u64 << 48u64);
/// The strong double corner g1/h2.
pub const CORNER_BR: u64 = (1u64 << 15u64) | (1u64 << 6u64);

/// The two sides of the game.
#[derive(Clone, Copy, PartialEq, Eq, Debug, Hash, Structural)]
pub enum PieceColor {
    White,
    Black,
}

pub open spec fn opposite(c: PieceColor) -> PieceColor {
    match c {
        PieceColor::White => PieceColor::Black,
        PieceColor::Black => PieceColor::White,
    }
}

impl PieceColor {
    /// The other side.
    pub fn not(self) -> (r: PieceColor)
        ensures
            r == opposite(self),
    {
        match self {
            PieceColor::White => PieceColor::Black,
            PieceColor::Black => PieceColor::White,
        }
    }
}

#[derive(Clone, Copy, PartialEq, Eq, Debug, Hash, Structural)]
pub enum PieceKind {
    Man,
    King,
}

#[derive(Clone, Copy, PartialEq, Eq, Debug, Hash, Structural)]
pub struct Piece {
    pub kind: PieceKind,
    pub color: PieceColor,
}

/// A move: the square it starts from, the square it ends on, and the squares of the pieces it
/// jumps over.
#[derive(Clone, Copy, PartialEq, Eq, Debug, Hash, Structural)]
pub struct Move {
    pub from: u64,
    pub to: u64,
    pub captures: u64,
}

/// A position: one bitboard per kind of piece, and the side to move.
#[derive(Clone, Copy, PartialEq, Eq, Debug, Hash, Structural)]
pub struct BitboardState {
    pub white_men: u64,
    pub black_men: u64,
    pub white_kings: u64,
    pub black_kings: u64,
    pub turn: PieceColor,
}

/// The position a game starts from.
pub open spec fn initial_state() -> BitboardState {
    BitboardState {
        white_men: 0x000000000055AA55,
        black_men: 0xAA55AA0000000000,
        white_kings: 0,
        black_kings: 0,
        turn: PieceColor::White,
    }
}

/// The piece on the first square of `bit` that holds one, looked up in the order white men,
/// black men, white kings, black kings.
pub open spec fn piece_at_bit_spec(s: BitboardState, bit: u64) -> Option<Piece> {
    if s.white_men & bit != 0 {
        Some(Piece { kind: PieceKind::Man, color: PieceColor::White })
    } else if s.black_men & bit != 0 {
        Some(Piece { kind: PieceKind::Man, color: PieceColor::Black })
    } else if s.white_kings & bit != 0 {
        Some(Piece { kind: PieceKind::King, color: PieceColor::White })
    } else if s.black_kings & bit != 0 {
        Some(Piece { kind: PieceKind::King, color: PieceColor::Black })
    } else {
        None
    }
}

/// The square index that row `r` (counted from the top, as drawn) and column `c` name.
pub open spec fn square_index(r: i32, c: i32) -> int {
    (7 - r) * 8 + c
}

/// Whether a piece that ends its move on `to` is a king afterwards.
pub open spec fn crowned(p: Piece, to: u64) -> bool {
    ||| p.kind == PieceKind::King
    ||| (p.color == PieceColor::White && to & WHITE_PROMOTION_RANK != 0)
    ||| (p.color == PieceColor::Black && to & BLACK_PROMOTION_RANK != 0)
}

/// The position after a move: the moving piece leaves `from`, lands on `to` (crowned there if
/// it reaches its promotion rank), every piece on a square of `captures` is removed, and the
/// turn passes.
pub open spec fn apply_move_spec(s: BitboardState, m: Move) -> BitboardState {
    let p = piece_at_bit_spec(s, m.from).unwrap();
    let white = p.color == PieceColor::White;
    let king = crowned(p, m.to);
    let wm = if white { s.white_men & !m.from } else { s.white_men };
    let wk = if white { s.white_kings & !m.from } else { s.white_kings };
    let bm = if white { s.black_men } else { s.black_men & !m.from };
    let bk = if white { s.black_kings } else { s.black_kings & !m.from };
    let wm2 = if white && !king { wm | m.to } else { wm };
    let wk2 = if white && king { wk | m.to } else { wk };
    let bm2 = if !white && !king { bm | m.to } else { bm };
    let bk2 = if !white && king { bk | m.to } else { bk };
    BitboardState {
        white_men: wm2 & !m.captures,
        black_men: bm2 & !m.captures,
        white_kings: wk2 & !m.captures,
        black_kings: bk2 & !m.captures,
        turn: opposite(s.turn),
    }
}

impl BitboardState {
    /// The opening position: twelve men a side on the dark squares of the three nearest ranks,
    /// White to move.
    pub fn new() -> (r: Self)
        ensures
            r == initial_state(),
    {
        BitboardState {
            white_men: 0x000000000055AA55,
            black_men: 0xAA55AA0000000000,
            white_kings: 0,
            black_kings: 0,
            turn: PieceColor::White,
        }
    }

    #[verifier::allow_in_spec]
    pub fn white_pieces(&self) -> u64
        returns
            self.white_men | self.white_kings,
    {
        self.white_men | self.white_kings
    }

    #[verifier::allow_in_spec]
    pub fn black_pieces(&self) -> u64
        returns
            self.black_men | self.black_kings,
    {
        self.black_men | self.black_kings
    }

    #[verifier::allow_in_spec]
    pub fn all_pieces(&self) -> u64
        returns
            (self.white_men | self.white_kings) | (self.black_men | self.black_kings),
    {
        self.white_pieces() | self.black_pieces()
    }

    /// The pieces of the side to move.
    pub open spec fn own_pieces(self) -> u64 {
        if self.turn == PieceColor::White {
            self.white_pieces()
        } else {
            self.black_pieces()
        }
    }

    /// The pieces of the side not to move.
    pub open spec fn opponent_pieces(self) -> u64 {
        if self.turn == PieceColor::White {
            self.black_pieces()
        } else {
            self.white_pieces()
        }
    }

    /// The pieces of `color`.
    pub open spec fn pieces_of(self, color: PieceColor) -> u64 {
        if color == PieceColor::White {
            self.white_pieces()
        } else {
            self.black_pieces()
        }
    }

    /// A well-formed position: no square holds two pieces, and every piece stands on a dark
    /// square.
    pub open spec fn valid(self) -> bool {
        &&& self.white_men & self.black_men == 0
        &&& self.white_men & self.white_kings == 0
        &&& self.white_men & self.black_kings == 0
        &&& self.black_men & self.white_kings == 0
        &&& self.black_men & self.black_kings == 0
        &&& self.white_kings & self.black_kings == 0
        &&& self.all_pieces() & !DARK_SQUARES == 0
    }

    /// Number of pieces on the board.
    pub open spec fn piece_count(self) -> nat {
        pop(self.white_men) + pop(self.black_men) + pop(self.white_kings) + pop(self.black_kings)
    }

    /// The piece on `bit`, if any (see `piece_at_bit_spec`).
    pub fn get_piece_at_bit(&self, bit: u64) -> (r: Option<Piece>)
        ensures
            r == piece_at_bit_spec(*self, bit),
    {
        if (self.white_men & bit) != 0 {
            return Some(Piece { kind: PieceKind::Man, color: PieceColor::White });
        }
        if (self.black_men & bit) != 0 {
            return Some(Piece { kind: PieceKind::Man, color: PieceColor::Black });
        }
        if (self.white_kings & bit) != 0 {
            return Some(Piece { kind: PieceKind::King, color: PieceColor::White });
        }
        if (self.black_kings & bit) != 0 {
            return Some(Piece { kind: PieceKind::King, color: PieceColor::Black });
        }
        None
    }

    /// The piece on row `r` (from the top) and column `c`; `None` when the pair names no
    /// square.
    pub fn get_piece_at(&self, r: i32, c: i32) -> (res: Option<Piece>)
        requires
            i32::MIN <= 7 - r <= i32::MAX,
            i32::MIN <= (7 - r) * 8 <= i32::MAX,
            i32::MIN <= square_index(r, c) <= i32::MAX,
        ensures
            res == (if 0 <= square_index(r, c) <= 63 {
                piece_at_bit_spec(*self, 1u64 << (square_index(r, c) as u64))
            } else {
                None
            }),
    {
        let bit_index = (7 - r) * 8 + c;
        if bit_index < 0 || bit_index > 63 {
            return None;
        }
        let bit = 1u64 << (bit_index as u64);
        self.get_piece_at_bit(bit)
    }

    /// Plays `m`; see `apply_move_spec`.
    pub fn apply_move(&self, m: &Move) -> (next: Self)
        requires
            piece_at_bit_spec(*self, m.from) is Some,
        ensures
            next == apply_move_spec(*self, *m),
    {
        let mut next = *self;
        let from_piece = next.get_piece_at_bit(m.from).unwrap();

        if from_piece.color == PieceColor::White {
            next.white_men = next.white_men & !m.from;
            next.white_kings = next.white_kings & !m.from;
        } else {
            next.black_men = next.black_men & !m.from;
            next.black_kings = next.black_kings & !m.from;
        }

        let mut is_king = from_piece.kind == PieceKind::King;
        if !is_king {
            if from_piece.color == PieceColor::White && (m.to & WHITE_PROMOTION_RANK) != 0 {
                is_king = true;
            }
            if from_piece.color == PieceColor::Black && (m.to & BLACK_PROMOTION_RANK) != 0 {
                is_king = true;
            }
        }

        if from_piece.color == PieceColor::White {
            if is_king {
                next.white_kings = next.white_kings | m.to;
            } else {
                next.white_men = next.white_men | m.to;
            }
        } else {
            if is_king {
                next.black_kings = next.black_kings | m.to;
            } else {
                next.black_men = next.black_men | m.to;
            }
        }

        if m.captures != 0 {
            next.white_men = next.white_men & !m.captures;
            next.white_kings = next.white_kings & !m.captures;
            next.black_men = next.black_men & !m.captures;
            next.black_kings = next.black_kings & !m.captures;
        } else {
            proof {
                lemma_word_facts(next.white_men, 0, 0);
                lemma_word_facts(next.white_kings, 0, 0);
                lemma_word_facts(next.black_men, 0, 0);
                lemma_word_facts(next.black_kings, 0, 0);
            }
        }

        next.turn = next.turn.not();
        next
    }
}

/// A move that the rules allow in shape: one own piece moves to one empty dark square, and
/// only opposing pieces are jumped.
pub open spec fn legal_move(s: BitboardState, m: Move) -> bool {
    &&& single_bit(m.from)
    &&& m.from & s.own_pieces() != 0
    &&& single_bit(m.to)
    &&& m.to & s.all_pieces() == 0
    &&& m.to & DARK_SQUARES != 0
    &&& m.captures & !s.opponent_pieces() == 0
}

/// The opening position is well formed, and has twelve pieces a side.
pub proof fn lemma_initial_valid()
    ensures
        initial_state().valid(),
        pop(initial_state().white_pieces()) == 12,
        pop(initial_state().black_pieces()) == 12,
{
    let s = initial_state();
    let (wm, bm) = (0x000000000055AA55u64, 0xAA55AA0000000000u64);
    assert(wm & bm == 0 && wm & 0u64 == 0 && bm & 0u64 == 0 && 0u64 & 0u64 == 0
        && ((wm | 0u64) | (bm | 0u64)) & !0xAA55AA55AA55AA55u64 == 0) by (bit_vector)
        requires
            wm == 0x000000000055AA55u64,
            bm == 0xAA55AA0000000000u64,
    ;
    lemma_word_facts(wm, 0, 0);
    lemma_word_facts(bm, 0, 0);
    reveal_with_fuel(pop, 65);
    assert(pop(wm) == 12);
    assert(pop(bm) == 12);
}

/// The disjointness facts of a well-formed position, read from Black's side.
proof fn lemma_swap_sides(wm: u64, bm: u64, wk: u64, bk: u64)
    by (bit_vector)
    requires
        wm & bm == 0,
        wm & wk == 0,
        wm & bk == 0,
        bm & wk == 0,
        bm & bk == 0,
        wk & bk == 0,
    ensures
        bm & wm == 0,
        bm & bk == 0,
        bm & wk == 0,
        wm & bk == 0,
        wm & wk == 0,
        bk & wk == 0,
        ((bm | bk) | (wm | wk)) == ((wm | wk) | (bm | bk)),
{
}

proof fn lemma_side_piece_words(mm: u64, mk: u64, om: u64, ok: u64, f: u64)
    by (bit_vector)
    requires
        mm & om == 0,
        mm & mk == 0,
        mm & ok == 0,
        om & mk == 0,
        om & ok == 0,
        mk & ok == 0,
        f != 0,
        f & ((f - 1) as u64) == 0,
        f & (mm | mk) != 0,
    ensures
        mm & f != 0 ==> mk & f == 0 && om & f == 0 && ok & f == 0 && f & (mk | ok) == 0 && f & (ok
            | mk) == 0,
        mm & f == 0 ==> mk & f != 0 && om & f == 0 && ok & f == 0 && f & (mk | ok) != 0 && f & (ok
            | mk) != 0,
        om & mm == 0 && mk & mm == 0 && ok & mm == 0 && mk & om == 0 && ok & om == 0 && ok & mk == 0,
{
}

/// The piece on an own square of a well-formed position belongs to the side to move, and is a
/// king exactly when the square is on a king bitboard.
pub proof fn lemma_mover_piece(s: BitboardState, from: u64)
    requires
        s.valid(),
        single_bit(from),
        from & s.own_pieces() != 0,
    ensures
        piece_at_bit_spec(s, from) is Some,
        piece_at_bit_spec(s, from).unwrap().color == s.turn,
        (piece_at_bit_spec(s, from).unwrap().kind == PieceKind::King) == (from & (s.white_kings
            | s.black_kings) != 0),
{
    let (wm, bm, wk, bk) = (s.white_men, s.black_men, s.white_kings, s.black_kings);
    if s.turn == PieceColor::White {
        lemma_side_piece_words(wm, wk, bm, bk, from);
    } else {
        lemma_swap_sides(wm, bm, wk, bk);
        lemma_side_piece_words(bm, bk, wm, wk, from);
    }
}

/// Bit-level facts about one side moving a piece from `f` to `t` and removing `c`.
proof fn lemma_move_words(mm: u64, mk: u64, om: u64, ok: u64, f: u64, t: u64, c: u64, k: bool)
    by (bit_vector)
    requires
        mm & om == 0,
        mm & mk == 0,
        mm & ok == 0,
        om & mk == 0,
        om & ok == 0,
        mk & ok == 0,
        ((mm | mk) | (om | ok)) & !DARK_SQUARES == 0,
        f != 0,
        f & ((f - 1) as u64) == 0,
        f & (mm | mk) != 0,
        t != 0,
        t & ((t - 1) as u64) == 0,
        t & ((mm | mk) | (om | ok)) == 0,
        t & DARK_SQUARES != 0,
        c & !(om | ok) == 0,
    ensures
        ({
            let mm2 = (if k { mm & !f } else { (mm & !f) | t }) & !c;
            let mk2 = (if k { (mk & !f) | t } else { mk & !f }) & !c;
            let om2 = om & !c;
            let ok2 = ok & !c;
            &&& mm2 & om2 == 0
            &&& mm2 & mk2 == 0
            &&& mm2 & ok2 == 0
            &&& om2 & mk2 == 0
            &&& om2 & ok2 == 0
            &&& mk2 & ok2 == 0
            &&& ((mm2 | mk2) | (om2 | ok2)) & !DARK_SQUARES == 0
            &&& mm2 | mk2 == ((mm | mk) & !f) | t
            &&& om2 | ok2 == (om | ok) & !c
            &&& ((mm | mk) & !f) & t == 0
            &&& c & !(om | ok) == 0
        }),
{
}

/// Playing a move of the legal shape on a well-formed position: the position stays well
/// formed, the turn passes, the mover's piece goes from `from` to `to`, the jumped pieces
/// leave the board and nothing else changes in number.
pub proof fn lemma_apply_move(s: BitboardState, m: Move)
    requires
        s.valid(),
        legal_move(s, m),
    ensures
        ({
            let n = apply_move_spec(s, m);
            &&& n.valid()
            &&& n.turn == opposite(s.turn)
            &&& n.pieces_of(s.turn) == (s.own_pieces() & !m.from) | m.to
            &&& n.pieces_of(opposite(s.turn)) == s.opponent_pieces() & !m.captures
            &&& pop(n.pieces_of(s.turn)) == pop(s.own_pieces())
            &&& pop(n.pieces_of(opposite(s.turn))) + pop(m.captures) == pop(s.opponent_pieces())
            &&& n.piece_count() + pop(m.captures) == s.piece_count()
        }),
{
    lemma_mover_piece(s, m.from);
    let p = piece_at_bit_spec(s, m.from).unwrap();
    let k = crowned(p, m.to);
    let n = apply_move_spec(s, m);
    let (wm, bm, wk, bk) = (s.white_men, s.black_men, s.white_kings, s.black_kings);
    if s.turn == PieceColor::White {
        lemma_move_words(wm, wk, bm, bk, m.from, m.to, m.captures, k);
        assert(n.white_men == (if k { wm & !m.from } else { (wm & !m.from) | m.to }) & !m.captures);
        assert(n.white_kings == (if k { (wk & !m.from) | m.to } else { wk & !m.from }) & !m.captures);
        assert(n.valid());
    } else {
        lemma_swap_sides(wm, bm, wk, bk);
        lemma_move_words(bm, bk, wm, wk, m.from, m.to, m.captures, k);
        assert(n.black_men == (if k { bm & !m.from } else { (bm & !m.from) | m.to }) & !m.captures);
        assert(n.black_kings == (if k { (bk & !m.from) | m.to } else { bk & !m.from }) & !m.captures);
        lemma_swap_sides(n.black_men, n.white_men, n.black_kings, n.white_kings);
        assert(n.valid());
    }
    let own = s.own_pieces();
    let opp = s.opponent_pieces();
    // the mover keeps its count
    lemma_pop_remove(own, m.from);
    lemma_pop_add(own & !m.from, m.to);
    // the opponent loses the jumped pieces
    lemma_pop_subset(m.captures, opp);
    // the total splits by side
    lemma_pop_union(s.white_men, s.white_kings);
    lemma_pop_union(s.black_men, s.black_kings);
    lemma_pop_union(n.white_men, n.white_kings);
    lemma_pop_union(n.black_men, n.black_kings);
}

/// No square holds two pieces (the squares may be any).
pub open spec fn apart(s: BitboardState) -> bool {
    &&& s.white_men & s.black_men == 0
    &&& s.white_men & s.white_kings == 0
    &&& s.white_men & s.black_kings == 0
    &&& s.black_men & s.white_kings == 0
    &&& s.black_men & s.black_kings == 0
    &&& s.white_kings & s.black_kings == 0
}

/// Bit-level effect of a move of one side on any board whose squares hold one piece each.
proof fn lemma_move_words_any(mm: u64, mk: u64, om: u64, ok: u64, f: u64, t: u64, c: u64, k: bool)
    by (bit_vector)
    requires
        mm & om == 0,
        mm & mk == 0,
        mm & ok == 0,
        om & mk == 0,
        om & ok == 0,
        mk & ok == 0,
        f != 0,
        f & ((f - 1) as u64) == 0,
        mm & f != 0 || mk & f != 0,
        t != 0,
        t & ((t - 1) as u64) == 0,
        t & ((mm | mk) | (om | ok)) == 0,
        c & !(om | ok) == 0,
    ensures
        ({
            let mm2 = (if k { mm & !f } else { (mm & !f) | t }) & !c;
            let mk2 = (if k { (mk & !f) | t } else { mk & !f }) & !c;
            let om2 = om & !c;
            let ok2 = ok & !c;
            &&& mm2 & om2 == 0
            &&& mm2 & mk2 == 0
            &&& mm2 & ok2 == 0
            &&& om2 & mk2 == 0
            &&& om2 & ok2 == 0
            &&& mk2 & ok2 == 0
            &&& (((mm | mk) | (om | ok)) & !DARK_SQUARES == 0 && t & DARK_SQUARES != 0) ==> ((mm2
                | mk2) | (om2 | ok2)) & !DARK_SQUARES == 0
            &&& mm2 | mk2 == ((mm | mk) & !f) | t
            &&& om2 | ok2 == (om | ok) & !c
            &&& ((mm | mk) & !f) & t == 0
            &&& f & (mm | mk) != 0
            &&& (mm2 | mk2) & (om2 | ok2) == 0
            &&& (mm2 | mk2) | (om2 | ok2) == (om2 | ok2) | (mm2 | mk2)
            &&& (mm | mk) & (om | ok) == 0
            &&& (mm | mk) | (om | ok) == (om | ok) | (mm | mk)
            &&& mm & !f & mk & !f == 0
        }),
{
}

/// Playing a move on any board whose squares hold one piece each, by the piece on `from`
/// (of either side), to an empty square, jumping only pieces of the other side: squares still
/// hold one piece each, the mover's side keeps its number of pieces, the other side loses the
/// jumped ones, and the board stays on the dark squares when it was and `to` is dark.
pub proof fn lemma_apply_move_any(s: BitboardState, m: Move)
    requires
        apart(s),
        single_bit(m.from),
        piece_at_bit_spec(s, m.from) is Some,
        single_bit(m.to),
        m.to & s.all_pieces() == 0,
        m.captures & !s.pieces_of(opposite(piece_at_bit_spec(s, m.from).unwrap().color)) == 0,
    ensures
        ({
            let c = piece_at_bit_spec(s, m.from).unwrap().color;
            let n = apply_move_spec(s, m);
            &&& apart(n)
            &&& n.pieces_of(c) == (s.pieces_of(c) & !m.from) | m.to
            &&& n.pieces_of(opposite(c)) == s.pieces_of(opposite(c)) & !m.captures
            &&& pop(n.pieces_of(c)) == pop(s.pieces_of(c))
            &&& pop(n.pieces_of(opposite(c))) + pop(m.captures) == pop(s.pieces_of(opposite(c)))
            &&& pop(n.all_pieces()) + pop(m.captures) == pop(s.all_pieces())
            &&& (s.all_pieces() & !DARK_SQUARES == 0 && m.to & DARK_SQUARES != 0) ==> n.all_pieces()
                & !DARK_SQUARES == 0
        }),
{
    let p = piece_at_bit_spec(s, m.from).unwrap();
    let c = p.color;
    let k = crowned(p, m.to);
    let n = apply_move_spec(s, m);
    let (wm, bm, wk, bk) = (s.white_men, s.black_men, s.white_kings, s.black_kings);
    let (own, opp) = (s.pieces_of(c), s.pieces_of(opposite(c)));
    if c == PieceColor::White {
        lemma_move_words_any(wm, wk, bm, bk, m.from, m.to, m.captures, k);
        assert(n.white_men == (if k { wm & !m.from } else { (wm & !m.from) | m.to }) & !m.captures);
        assert(n.white_kings == (if k { (wk & !m.from) | m.to } else { wk & !m.from }) & !m.captures);
    } else {
        lemma_swap_sides(wm, bm, wk, bk);
        lemma_move_words_any(bm, bk, wm, wk, m.from, m.to, m.captures, k);
        assert(n.black_men == (if k { bm & !m.from } else { (bm & !m.from) | m.to }) & !m.captures);
        assert(n.black_kings == (if k { (bk & !m.from) | m.to } else { bk & !m.from }) & !m.captures);
        assert(n.white_men == wm & !m.captures);
        assert(n.white_kings == wk & !m.captures);
        lemma_swap_sides(n.black_men, n.white_men, n.black_kings, n.white_kings);
    }
    lemma_pop_remove(own, m.from);
    lemma_pop_add(own & !m.from, m.to);
    lemma_pop_subset(m.captures, opp);
    lemma_pop_union(own, opp);
    lemma_pop_union(n.pieces_of(c), n.pieces_of(opposite(c)));
}

/// Bit-level effect of one side's move on one square `b`.
proof fn lemma_move_square_words(
    mm: u64,
    mk: u64,
    om: u64,
    ok: u64,
    f: u64,
    t: u64,
    c: u64,
    b: u64,
    k: bool,
)
    by (bit_vector)
    requires
        mm & om == 0,
        mm & mk == 0,
        mm & ok == 0,
        om & mk == 0,
        om & ok == 0,
        mk & ok == 0,
        f != 0,
        f & ((f - 1) as u64) == 0,
        f & (mm | mk) != 0,
        t != 0,
        t & ((t - 1) as u64) == 0,
        t & ((mm | mk) | (om | ok)) == 0,
        c & !(om | ok) == 0,
        b != 0,
        b & ((b - 1) as u64) == 0,
    ensures
        ({
            let mm2 = (if k { mm & !f } else { (mm & !f) | t }) & !c;
            let mk2 = (if k { (mk & !f) | t } else { mk & !f }) & !c;
            let om2 = om & !c;
            let ok2 = ok & !c;
            &&& b & c != 0 ==> mm2 & b == 0 && mk2 & b == 0 && om2 & b == 0 && ok2 & b == 0
            &&& b == t ==> om2 & b == 0 && ok2 & b == 0 && (if k {
                mm2 & b == 0 && mk2 & b != 0
            } else {
                mm2 & b != 0
            })
            &&& b == f ==> mm2 & b == 0 && mk2 & b == 0 && om2 & b == 0 && ok2 & b == 0
            &&& (b & c == 0 && b != t && b != f) ==> mm2 & b == mm & b && mk2 & b == mk & b && om2
                & b == om & b && ok2 & b == ok & b
        }),
{
}

/// What a legal move does to each square: the squares of the jumped pieces and the square
/// the piece left become empty, the destination holds the moving piece (crowned when it
/// reached its promotion rank or was a king already), and every other square keeps its piece.
pub proof fn lemma_apply_move_squares(s: BitboardState, m: Move, b: u64)
    requires
        s.valid(),
        legal_move(s, m),
        single_bit(b),
    ensures
        piece_at_bit_spec(apply_move_spec(s, m), b) == (if b & m.captures != 0 {
            None
        } else if b == m.to {
            Some(
                Piece {
                    kind: if crowned(piece_at_bit_spec(s, m.from).unwrap(), m.to) {
                        PieceKind::King
                    } else {
                        PieceKind::Man
                    },
                    color: s.turn,
                },
            )
        } else if b == m.from {
            None
        } else {
            piece_at_bit_spec(s, b)
        }),
{
    lemma_mover_piece(s, m.from);
    let p = piece_at_bit_spec(s, m.from).unwrap();
    let k = crowned(p, m.to);
    let (wm, bm, wk, bk) = (s.white_men, s.black_men, s.white_kings, s.black_kings);
    if s.turn == PieceColor::White {
        lemma_move_square_words(wm, wk, bm, bk, m.from, m.to, m.captures, b, k);
    } else {
        lemma_swap_sides(wm, bm, wk, bk);
        lemma_move_square_words(bm, bk, wm, wk, m.from, m.to, m.captures, b, k);
    }
}

} // verus!
