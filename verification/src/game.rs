use vstd::prelude::*;
use vstd::std_specs::bits::u64_trailing_zeros;
use crate::bits::{pop, lemma_word_facts};
use crate::board::{
    BitboardState, Move, Piece, PieceColor, PieceKind, apply_move_spec, initial_state,
    legal_move, piece_at_bit_spec, opposite, lemma_initial_valid, lemma_apply_move,
    lemma_mover_piece,
};
use crate::movegen::{
    all_moves_spec, captures_from_spec, generate_all_moves, generate_captures_from_pos,
    lemma_all_moves_legal, lemma_captures_from_legal, lemma_captures_from_pieces, same_pieces,
};
use crate::counts::PositionCounts;
use crate::search::{find_best_move, search_pick};

verus! {

/// The screen the game is on.
#[derive(Clone, Copy, PartialEq, Eq, Debug, Structural)]
pub enum Mode {
    Menu,
    Settings,
    SideSelection,
    PvP,
    PvA,
    AvA,
}

/// What one update of a game in play did.
#[derive(Clone, Copy, PartialEq, Eq, Debug, Structural)]
pub enum TurnStep {
    /// The game is over; nothing changed.
    GameOver,
    /// The computer is to move; it will move on the next update.
    AiWaiting,
    /// The computer chose a move, which is now being shown.
    AiMoved,
    /// A player is to move.
    PlayerToMove,
}

/// A move being shown sliding across the board: the piece and the move.
#[derive(Clone, Copy, PartialEq, Eq, Debug, Structural)]
pub struct MoveAnimation {
    pub piece: Piece,
    pub move_data: Move,
}

/// The state of a game: the position, the play so far, the settings and the state of the
/// interaction with the players.
pub struct Game {
    board_state: BitboardState,
    legal_moves: Vec<Move>,
    history: Vec<BitboardState>,
    mode: Mode,
    ai_white: bool,
    ai_black: bool,
    ai_should_move: bool,
    last_move: Option<Move>,
    is_mid_capture: bool,
    position_counts: PositionCounts,
    force_max_capture: bool,
    ai_time_tenths: u32,
    dragged_piece_idx: Option<usize>,
    selected_square_idx: Option<usize>,
    animation: Option<MoveAnimation>,
    half_move_clock: i32,
    full_move_number: i32,
    flipped: bool,
    game_over_printed: bool,
}

/// The mathematical content of a `Game`.
#[verifier::ext_equal]
pub struct GameView {
    pub board: BitboardState,
    pub legal_moves: Seq<Move>,
    pub history: Seq<BitboardState>,
    pub mode: Mode,
    pub ai_white: bool,
    pub ai_black: bool,
    pub ai_should_move: bool,
    pub last_move: Option<Move>,
    pub is_mid_capture: bool,
    pub counts: Map<BitboardState, nat>,
    pub force_max_capture: bool,
    pub ai_time_tenths: u32,
    pub dragged: Option<usize>,
    pub selected: Option<usize>,
    pub animation: Option<MoveAnimation>,
    pub half_move_clock: i32,
    pub full_move_number: i32,
    pub flipped: bool,
    pub game_over_printed: bool,
}

/// How often position `s` has occurred (zero when never).
pub open spec fn count_of(counts: Map<BitboardState, nat>, s: BitboardState) -> nat {
    if counts.dom().contains(s) {
        counts[s]
    } else {
        0
    }
}

/// Square index of a single-square bitboard.
pub open spec fn square_of(bit: u64) -> nat {
    u64_trailing_zeros(bit) as nat
}

/// The game state of a game just begun: the opening position, counted once.
pub open spec fn fresh_board(v: GameView) -> GameView {
    GameView {
        board: initial_state(),
        legal_moves: seq![],
        history: seq![],
        last_move: None,
        is_mid_capture: false,
        counts: Map::empty().insert(initial_state(), 1),
        ai_should_move: false,
        half_move_clock: 0,
        full_move_number: 1,
        game_over_printed: false,
        dragged: None,
        selected: None,
        animation: None,
        ..v
    }
}

/// The result of a finished game: `Some(Some(c))` when `c` has won, `Some(None)` for a draw,
/// `None` while the game goes on. A side without pieces, or without a move when it is its
/// turn, has lost; a position met for the third time, or a hundred moves without a capture or
/// a man's move, is a draw.
pub open spec fn game_result(v: GameView) -> Option<Option<PieceColor>> {
    let can_move = all_moves_spec(v.board, v.force_max_capture).len() > 0;
    if v.board.white_pieces() == 0 {
        Some(Some(PieceColor::Black))
    } else if v.board.black_pieces() == 0 {
        Some(Some(PieceColor::White))
    } else if !can_move && v.board.turn == PieceColor::White {
        Some(Some(PieceColor::Black))
    } else if !can_move && v.board.turn == PieceColor::Black {
        Some(Some(PieceColor::White))
    } else if count_of(v.counts, v.board) >= 3 {
        Some(None)
    } else if v.half_move_clock >= 100 {
        Some(None)
    } else {
        None
    }
}

/// The game after `m` is played (see `Game::finalize_move`).
pub open spec fn after_move(v: GameView, m: Move) -> GameView {
    let p = piece_at_bit_spec(v.board, m.from).unwrap();
    let n = apply_move_spec(v.board, m);
    let next_caps = captures_from_spec(n, m.to, v.force_max_capture);
    let more = m.captures != 0 && next_caps.len() > 0;
    GameView {
        half_move_clock: if m.captures != 0 || p.kind == PieceKind::Man {
            0
        } else {
            (v.half_move_clock + 1) as i32
        },
        full_move_number: if v.board.turn == PieceColor::Black {
            (v.full_move_number + 1) as i32
        } else {
            v.full_move_number
        },
        history: v.history.push(v.board),
        board: if more {
            BitboardState { turn: opposite(n.turn), ..n }
        } else {
            n
        },
        last_move: Some(m),
        is_mid_capture: more,
        dragged: None,
        selected: if more {
            Some(square_of(m.to) as usize)
        } else {
            None
        },
        counts: v.counts.insert(n, count_of(v.counts, n) + 1),
        legal_moves: if more {
            next_caps
        } else {
            v.legal_moves
        },
        ..v
    }
}

/// The counts with one occurrence of `s` taken back (forgotten at zero).
pub open spec fn decrement_count(counts: Map<BitboardState, nat>, s: BitboardState) -> Map<
    BitboardState,
    nat,
> {
    if !counts.dom().contains(s) {
        counts
    } else if counts[s] == 1 {
        counts.remove(s)
    } else {
        counts.insert(s, (counts[s] - 1) as nat)
    }
}

/// The game after an undo: the last recorded position is dropped from the history (and its
/// count taken back, and the move number lowered when White is to move), and the board goes
/// back to the position now last in the history, or to the opening position when none is
/// left. The selection, the move list and any move being shown are cleared.
pub open spec fn after_undo(v: GameView) -> GameView {
    let h = v.history;
    let h1 = if h.len() > 0 {
        h.drop_last()
    } else {
        h
    };
    let counts1 = if h.len() > 0 {
        decrement_count(v.counts, h.last())
    } else {
        v.counts
    };
    let fm1 = if h.len() > 0 && v.board.turn == PieceColor::White {
        (v.full_move_number - 1) as i32
    } else {
        v.full_move_number
    };
    GameView {
        history: h1,
        counts: counts1,
        board: if h1.len() > 0 {
            h1.last()
        } else {
            initial_state()
        },
        full_move_number: if h1.len() > 0 {
            fm1
        } else {
            1
        },
        legal_moves: seq![],
        last_move: None,
        is_mid_capture: false,
        game_over_printed: false,
        dragged: None,
        selected: None,
        animation: None,
        ..v
    }
}

/// The first move of `ms` from index `i` on that starts on square `from_idx` and ends on
/// `to`.
pub open spec fn find_move_from(ms: Seq<Move>, i: int, from_idx: nat, to: u64) -> Option<Move>
    decreases ms.len() - i,
{
    if i < 0 || i >= ms.len() {
        None
    } else if square_of(ms[i].from) == from_idx && ms[i].to == to {
        Some(ms[i])
    } else {
        find_move_from(ms, i + 1, from_idx, to)
    }
}

/// The first move of `ms` from square `from_idx` to `to`.
pub open spec fn find_move(ms: Seq<Move>, from_idx: nat, to: u64) -> Option<Move> {
    find_move_from(ms, 0, from_idx, to)
}

/// Square index of row `r` (from the top, as drawn) and column `c`.
pub open spec fn clicked_index(r: i32, c: i32) -> int {
    (7 - r) * 8 + c
}

/// The game after the player presses on row `r`, column `c`: with a piece selected and a move
/// of the list from it to that square, the move starts being shown; otherwise, unless a
/// capture sequence is under way, pressing on a piece of the side to move selects and holds
/// it and lists the moves of the position, and pressing elsewhere drops the selection.
pub open spec fn after_press(v: GameView, r: i32, c: i32) -> GameView {
    let idx = clicked_index(r, c);
    let bit = 1u64 << (idx as u64);
    let found = match v.selected {
        Some(sel) => find_move(v.legal_moves, sel as nat, bit),
        None => None,
    };
    match found {
        Some(m) => GameView {
            animation: Some(
                MoveAnimation { piece: piece_at_bit_spec(v.board, m.from).unwrap(), move_data: m },
            ),
            ..v
        },
        None => if v.is_mid_capture {
            v
        } else {
            match piece_at_bit_spec(v.board, bit) {
                Some(p) => if p.color == v.board.turn {
                    GameView {
                        selected: Some(idx as usize),
                        dragged: Some(idx as usize),
                        legal_moves: all_moves_spec(v.board, v.force_max_capture),
                        ..v
                    }
                } else {
                    GameView { selected: None, ..v }
                },
                None => GameView { selected: None, ..v },
            }
        },
    }
}

/// The game after the player lets go over `target` (`None` off the board): a held piece is
/// dropped, playing the listed move from its square to the target square if there is one.
pub open spec fn after_release(v: GameView, target: Option<(i32, i32)>) -> GameView {
    match v.dragged {
        None => v,
        Some(d) => {
            let found = match target {
                Some(rc) => find_move(
                    v.legal_moves,
                    d as nat,
                    1u64 << (clicked_index(rc.0, rc.1) as u64),
                ),
                None => None,
            };
            let v1 = match found {
                Some(m) => after_move(v, m),
                None => v,
            };
            GameView { dragged: None, ..v1 }
        },
    }
}

/// Whether the side to move is played by the computer.
pub open spec fn ai_to_move(v: GameView) -> bool {
    (v.ai_white && v.board.turn == PieceColor::White) || (v.ai_black && v.board.turn
        == PieceColor::Black)
}

/// `w` is `v` with the computer's move being shown: a move that the search may pick in the
/// position (see `search_pick` and `find_best_move`).
pub open spec fn ai_moved(v: GameView, w: GameView) -> bool {
    let ms = all_moves_spec(v.board, v.force_max_capture);
    &&& w.animation matches Some(a) && {
        &&& w == (GameView { ai_should_move: false, animation: Some(a), ..v })
        &&& a.piece == piece_at_bit_spec(v.board, a.move_data.from).unwrap()
        &&& search_pick(v.counts, v.force_max_capture, v.board, a.move_data)
    }
}

/// Nothing that the next move counts can overflow.
pub open spec fn room_for_move(v: GameView) -> bool {
    &&& v.half_move_clock < i32::MAX
    &&& i32::MIN < v.full_move_number < i32::MAX
    &&& forall|k: BitboardState| #[trigger] v.counts.dom().contains(k) ==> v.counts[k] < usize::MAX
}

impl Game {
    pub closed spec fn view(&self) -> GameView {
        GameView {
            board: self.board_state,
            legal_moves: self.legal_moves@,
            history: self.history@,
            mode: self.mode,
            ai_white: self.ai_white,
            ai_black: self.ai_black,
            ai_should_move: self.ai_should_move,
            last_move: self.last_move,
            is_mid_capture: self.is_mid_capture,
            counts: self.position_counts@,
            force_max_capture: self.force_max_capture,
            ai_time_tenths: self.ai_time_tenths,
            dragged: self.dragged_piece_idx,
            selected: self.selected_square_idx,
            animation: self.animation,
            half_move_clock: self.half_move_clock,
            full_move_number: self.full_move_number,
            flipped: self.flipped,
            game_over_printed: self.game_over_printed,
        }
    }

    /// The game's invariant: the position and every earlier one are well formed, every count is
    /// at least one, the move list is legal while a piece is selected or held, the move being
    /// shown is legal, and the thinking time is within its range.
    pub closed spec fn wf(&self) -> bool {
        &&& self.board_state.valid()
        &&& forall|i: int| 0 <= i < self.history@.len() ==> (#[trigger] self.history@[i]).valid()
        &&& self.position_counts.wf()
        &&& (self.selected_square_idx is Some || self.dragged_piece_idx is Some) ==> forall|i: int|
            0 <= i < self.legal_moves@.len() ==> legal_move(
                self.board_state,
                #[trigger] self.legal_moves@[i],
            )
        &&& self.animation matches Some(a) ==> legal_move(self.board_state, a.move_data)
        &&& 1 <= self.ai_time_tenths <= 30
    }

    pub proof fn lemma_wf(&self)
        requires
            self.wf(),
        ensures
            self@.board.valid(),
            1 <= self@.ai_time_tenths <= 30,
            forall|k: BitboardState| #[trigger] self@.counts.dom().contains(k) ==> self@.counts[k]
                >= 1,
            self@.animation matches Some(a) ==> legal_move(self@.board, a.move_data),
            (self@.selected is Some || self@.dragged is Some) ==> forall|i: int|
                0 <= i < self@.legal_moves.len() ==> legal_move(
                    self@.board,
                    #[trigger] self@.legal_moves[i],
                ),
    {
        self.position_counts.lemma_wf();
    }

    /// A new game on the menu screen: the opening position, the most captures forced, and
    /// eight tenths of a second of thinking time.
    pub fn new() -> (g: Self)
        ensures
            g.wf(),
            g@ == fresh_board(
                GameView {
                    board: initial_state(),
                    legal_moves: seq![],
                    history: seq![],
                    mode: Mode::Menu,
                    ai_white: false,
                    ai_black: false,
                    ai_should_move: false,
                    last_move: None,
                    is_mid_capture: false,
                    counts: Map::empty(),
                    force_max_capture: true,
                    ai_time_tenths: 8,
                    dragged: None,
                    selected: None,
                    animation: None,
                    half_move_clock: 0,
                    full_move_number: 1,
                    flipped: false,
                    game_over_printed: false,
                },
            ),
    {
        let mut g = Game {
            board_state: BitboardState::new(),
            legal_moves: Vec::new(),
            history: Vec::new(),
            mode: Mode::Menu,
            ai_white: false,
            ai_black: false,
            ai_should_move: false,
            last_move: None,
            is_mid_capture: false,
            position_counts: PositionCounts::new(),
            force_max_capture: true,
            ai_time_tenths: 8,
            dragged_piece_idx: None,
            selected_square_idx: None,
            animation: None,
            half_move_clock: 0,
            full_move_number: 1,
            flipped: false,
            game_over_printed: false,
        };
        proof {
            lemma_initial_valid();
        }
        g.reset_board();
        assert(g@ =~= fresh_board(
                GameView {
                    board: initial_state(),
                    legal_moves: seq![],
                    history: seq![],
                    mode: Mode::Menu,
                    ai_white: false,
                    ai_black: false,
                    ai_should_move: false,
                    last_move: None,
                    is_mid_capture: false,
                    counts: Map::empty(),
                    force_max_capture: true,
                    ai_time_tenths: 8,
                    dragged: None,
                    selected: None,
                    animation: None,
                    half_move_clock: 0,
                    full_move_number: 1,
                    flipped: false,
                    game_over_printed: false,
                },
            ));
        g
    }

    /// Starts the game over from the opening position; the mode, the players and the
    /// settings stay.
    pub fn reset_board(&mut self)
        requires
            old(self).wf(),
        ensures
            final(self).wf(),
            final(self)@ == fresh_board(old(self)@),
    {
        self.board_state = BitboardState::new();
        self.legal_moves.clear();
        self.history.clear();
        self.last_move = None;
        self.is_mid_capture = false;
        proof {
            self.position_counts.lemma_wf();
        }
        self.position_counts.clear();
        self.position_counts.insert(self.board_state, 1);
        self.ai_should_move = false;
        self.half_move_clock = 0;
        self.full_move_number = 1;
        self.game_over_printed = false;
        self.dragged_piece_idx = None;
        self.selected_square_idx = None;
        self.animation = None;
        proof {
            lemma_initial_valid();
        }
        assert(self@ =~= fresh_board(old(self)@));
    }

    pub fn board_state(&self) -> (r: BitboardState)
        ensures
            r == self@.board,
    {
        self.board_state
    }

    pub fn legal_moves(&self) -> (r: &Vec<Move>)
        ensures
            r@ == self@.legal_moves,
    {
        &self.legal_moves
    }

    pub fn history(&self) -> (r: &Vec<BitboardState>)
        ensures
            r@ == self@.history,
    {
        &self.history
    }

    pub fn mode(&self) -> (r: Mode)
        ensures
            r == self@.mode,
    {
        self.mode
    }

    pub fn ai_white(&self) -> (r: bool)
        ensures
            r == self@.ai_white,
    {
        self.ai_white
    }

    pub fn ai_black(&self) -> (r: bool)
        ensures
            r == self@.ai_black,
    {
        self.ai_black
    }

    pub fn last_move(&self) -> (r: Option<Move>)
        ensures
            r == self@.last_move,
    {
        self.last_move
    }

    pub fn is_mid_capture(&self) -> (r: bool)
        ensures
            r == self@.is_mid_capture,
    {
        self.is_mid_capture
    }

    pub fn force_max_capture(&self) -> (r: bool)
        ensures
            r == self@.force_max_capture,
    {
        self.force_max_capture
    }

    /// The thinking time, in tenths of a second.
    pub fn ai_time_tenths(&self) -> (r: u32)
        ensures
            r == self@.ai_time_tenths,
    {
        self.ai_time_tenths
    }

    /// The thinking time, in milliseconds.
    pub fn ai_time_limit_ms(&self) -> (r: u128)
        ensures
            r == self@.ai_time_tenths * 100,
    {
        self.ai_time_tenths as u128 * 100
    }

    pub fn dragged_piece_idx(&self) -> (r: Option<usize>)
        ensures
            r == self@.dragged,
    {
        self.dragged_piece_idx
    }

    pub fn selected_square_idx(&self) -> (r: Option<usize>)
        ensures
            r == self@.selected,
    {
        self.selected_square_idx
    }

    pub fn animation(&self) -> (r: Option<MoveAnimation>)
        ensures
            r == self@.animation,
    {
        self.animation
    }

    pub fn half_move_clock(&self) -> (r: i32)
        ensures
            r == self@.half_move_clock,
    {
        self.half_move_clock
    }

    pub fn full_move_number(&self) -> (r: i32)
        ensures
            r == self@.full_move_number,
    {
        self.full_move_number
    }

    pub fn flipped(&self) -> (r: bool)
        ensures
            r == self@.flipped,
    {
        self.flipped
    }

    pub fn game_over_printed(&self) -> (r: bool)
        ensures
            r == self@.game_over_printed,
    {
        self.game_over_printed
    }

    pub fn ai_should_move(&self) -> (r: bool)
        ensures
            r == self@.ai_should_move,
    {
        self.ai_should_move
    }

    /// How often `s` has occurred.
    pub fn position_count(&self, s: &BitboardState) -> (r: usize)
        requires
            self.wf(),
        ensures
            r == count_of(self@.counts, *s),
    {
        match self.position_counts.get(s) {
            Some(c) => c,
            None => 0,
        }
    }

    pub(crate) fn position_counts(&self) -> (r: &PositionCounts)
        ensures
            r@ == self@.counts,
            self.wf() ==> r.wf(),
    {
        &self.position_counts
    }

    /// Whether the next move can be counted without overflow (see `room_for_move`).
    pub fn has_room(&self) -> (r: bool)
        requires
            self.wf(),
        ensures
            r == room_for_move(self@),
    {
        let counts_ok = self.position_counts.all_below_max();
        let clocks_ok = self.half_move_clock < i32::MAX && self.full_move_number > i32::MIN
            && self.full_move_number < i32::MAX;
        assert(self@.counts == self.position_counts@);
        assert(counts_ok == forall|k: BitboardState| #[trigger] self@.counts.dom().contains(k) ==> self@.counts[k] < usize::MAX);
        clocks_ok && counts_ok
    }

    /// How the game stands (see `game_result`).
    pub fn is_game_over(&self) -> (r: Option<Option<PieceColor>>)
        requires
            self.wf(),
        ensures
            r == game_result(self@),
    {
        let moves = generate_all_moves(&self.board_state, self.force_max_capture);
        let white_can_move = moves.len() != 0 && self.board_state.turn == PieceColor::White;
        let black_can_move = moves.len() != 0 && self.board_state.turn == PieceColor::Black;

        if self.board_state.white_pieces() == 0 {
            return Some(Some(PieceColor::Black));
        }
        if self.board_state.black_pieces() == 0 {
            return Some(Some(PieceColor::White));
        }
        if !white_can_move && self.board_state.turn == PieceColor::White {
            return Some(Some(PieceColor::Black));
        }
        if !black_can_move && self.board_state.turn == PieceColor::Black {
            return Some(Some(PieceColor::White));
        }
        if let Some(count) = self.position_counts.get(&self.board_state) {
            if count >= 3 {
                return Some(None);
            }
        }
        if self.half_move_clock >= 100 {
            return Some(None);
        }
        None
    }

    /// Begins showing move `m`.
    pub fn start_move_animation(&mut self, m: Move)
        requires
            old(self).wf(),
            legal_move(old(self)@.board, m),
        ensures
            final(self).wf(),
            final(self)@ == (GameView {
                animation: Some(
                    MoveAnimation {
                        piece: piece_at_bit_spec(old(self)@.board, m.from).unwrap(),
                        move_data: m,
                    },
                ),
                ..old(self)@
            }),
    {
        proof {
            lemma_mover_piece(self.board_state, m.from);
        }
        let piece = self.board_state.get_piece_at_bit(m.from).unwrap();
        self.animation = Some(MoveAnimation { piece, move_data: m });
        assert(self@ =~= GameView {
            animation: Some(MoveAnimation { piece, move_data: m }),
            ..old(self)@
        });
    }

    /// Plays `m`: records the position, updates the clocks and the counts, and when the move
    /// captured and the same piece can capture again, hands the turn back to the mover with
    /// that piece selected and its captures as the move list (see `after_move`). Returns
    /// whether the move captured.
    #[verifier::rlimit(60)]
    pub fn finalize_move(&mut self, m: &Move) -> (captured: bool)
        requires
            old(self).wf(),
            old(self)@.animation is None,
            legal_move(old(self)@.board, *m),
            room_for_move(old(self)@),
        ensures
            final(self).wf(),
            final(self)@ == after_move(old(self)@, *m),
            captured == (m.captures != 0),
    {
        proof {
            lemma_mover_piece(self.board_state, m.from);
            lemma_apply_move(self.board_state, *m);
            self.position_counts.lemma_wf();
        }
        let ghost v = self@;
        let piece = self.board_state.get_piece_at_bit(m.from).unwrap();
        let is_capture = m.captures != 0;
        let is_man = piece.kind == PieceKind::Man;

        if is_capture || is_man {
            self.half_move_clock = 0;
        } else {
            self.half_move_clock = self.half_move_clock + 1;
        }

        if self.board_state.turn == PieceColor::Black {
            self.full_move_number = self.full_move_number + 1;
        }

        self.history.push(self.board_state);
        self.board_state = self.board_state.apply_move(m);
        self.last_move = Some(*m);
        self.is_mid_capture = false;
        self.dragged_piece_idx = None;
        self.selected_square_idx = None;

        let ghost n = self.board_state;
        assert(count_of(self.position_counts@, n) < usize::MAX);
        self.position_counts.increment(self.board_state);

        if m.captures != 0 {
            let next_captures = generate_captures_from_pos(
                &self.board_state,
                m.to,
                self.force_max_capture,
            );
            if next_captures.len() != 0 {
                self.board_state.turn = self.board_state.turn.not();
                proof {
                    let b = self.board_state;
                    assert(same_pieces(n, b));
                    lemma_captures_from_pieces(n, b, m.to, self.force_max_capture);
                    assert(b.own_pieces() == n.pieces_of(v.board.turn));
                    let (own, f, t) = (v.board.own_pieces(), m.from, m.to);
                    lemma_word_facts(t, own & !f, 0);
                    lemma_captures_from_legal(b, m.to, self.force_max_capture);
                }
                self.selected_square_idx = Some(m.to.trailing_zeros() as usize);
                self.legal_moves = next_captures;
                self.is_mid_capture = true;
            }
        }
        proof {
            assert forall|i: int| 0 <= i < self.history@.len() implies (
            #[trigger] self.history@[i]).valid() by {
                if i < v.history.len() {
                    assert(self.history@[i] == v.history[i]);
                }
            }
        }
        assert(self@ =~= after_move(v, *m));
        m.captures != 0
    }

    /// Takes back the last recorded position (see `after_undo`).
    pub fn undo(&mut self)
        requires
            old(self).wf(),
            old(self)@.history.len() > 0 && old(self)@.board.turn == PieceColor::White
                ==> old(self)@.full_move_number > i32::MIN,
        ensures
            final(self).wf(),
            final(self)@ == after_undo(old(self)@),
    {
        let ghost v = self@;
        if let Some(removed_state) = self.history.pop() {
            self.position_counts.decrement(removed_state);
            if self.board_state.turn == PieceColor::White {
                self.full_move_number = self.full_move_number - 1;
            }
        }
        let hl = self.history.len();
        if hl > 0 {
            self.board_state = self.history[hl - 1];
            assert(self.history@[hl - 1].valid());
        } else {
            self.board_state = BitboardState::new();
            self.full_move_number = 1;
            proof {
                lemma_initial_valid();
            }
        }
        self.legal_moves.clear();
        self.last_move = None;
        self.is_mid_capture = false;
        self.game_over_printed = false;
        self.dragged_piece_idx = None;
        self.selected_square_idx = None;
        self.animation = None;
        proof {
            assert forall|i: int| 0 <= i < self.history@.len() implies (
            #[trigger] self.history@[i]).valid() by {
                assert(self.history@[i] == v.history[i]);
            }
        }
        assert(self@ =~= after_undo(v));
    }

    /// Follows a button of the menu: a computer-against-computer or a two-player game starts a
    /// new game with those players; the settings button opens the settings; the other button
    /// goes on to choosing a side.
    pub fn select_menu_item(&mut self, choice: Mode)
        requires
            old(self).wf(),
        ensures
            final(self).wf(),
            final(self)@ == (if choice == Mode::AvA {
                GameView {
                    mode: Mode::AvA,
                    ai_white: true,
                    ai_black: true,
                    ..fresh_board(old(self)@)
                }
            } else if choice == Mode::PvP {
                GameView {
                    mode: Mode::PvP,
                    ai_white: false,
                    ai_black: false,
                    ..fresh_board(old(self)@)
                }
            } else if choice == Mode::Settings {
                GameView { mode: Mode::Settings, ..old(self)@ }
            } else {
                GameView { mode: Mode::SideSelection, ..old(self)@ }
            }),
    {
        if choice == Mode::AvA {
            self.mode = Mode::AvA;
            self.reset_board();
            self.ai_white = true;
            self.ai_black = true;
        } else if choice == Mode::PvP {
            self.mode = Mode::PvP;
            self.reset_board();
            self.ai_white = false;
            self.ai_black = false;
        } else if choice == Mode::Settings {
            self.mode = Mode::Settings;
        } else {
            self.mode = Mode::SideSelection;
        }
        assert(self@ =~= (if choice == Mode::AvA {
            GameView { mode: Mode::AvA, ai_white: true, ai_black: true, ..fresh_board(old(self)@) }
        } else if choice == Mode::PvP {
            GameView { mode: Mode::PvP, ai_white: false, ai_black: false, ..fresh_board(old(self)@) }
        } else if choice == Mode::Settings {
            GameView { mode: Mode::Settings, ..old(self)@ }
        } else {
            GameView { mode: Mode::SideSelection, ..old(self)@ }
        }));
    }

    /// Switches to another screen; the game itself stays as it is.
    pub fn set_mode(&mut self, mode: Mode)
        requires
            old(self).wf(),
        ensures
            final(self).wf(),
            final(self)@ == (GameView { mode, ..old(self)@ }),
    {
        self.mode = mode;
        assert(self@ =~= GameView { mode, ..old(self)@ });
    }

    /// Switches forcing the most captures on or off.
    pub fn toggle_force_max_capture(&mut self)
        requires
            old(self).wf(),
        ensures
            final(self).wf(),
            final(self)@ == (GameView {
                force_max_capture: !old(self)@.force_max_capture,
                ..old(self)@
            }),
    {
        self.force_max_capture = !self.force_max_capture;
        assert(self@ =~= GameView {
            force_max_capture: !old(self)@.force_max_capture,
            ..old(self)@
        });
    }

    /// A tenth of a second less thinking time, down to a tenth.
    pub fn decrease_ai_time(&mut self)
        requires
            old(self).wf(),
        ensures
            final(self).wf(),
            final(self)@ == (GameView {
                ai_time_tenths: if old(self)@.ai_time_tenths > 1 {
                    (old(self)@.ai_time_tenths - 1) as u32
                } else {
                    1
                },
                ..old(self)@
            }),
    {
        self.ai_time_tenths = if self.ai_time_tenths > 1 {
            self.ai_time_tenths - 1
        } else {
            1
        };
        assert(self@ =~= GameView {
            ai_time_tenths: if old(self)@.ai_time_tenths > 1 {
                (old(self)@.ai_time_tenths - 1) as u32
            } else {
                1
            },
            ..old(self)@
        });
    }

    /// A tenth of a second more thinking time, up to three seconds.
    pub fn increase_ai_time(&mut self)
        requires
            old(self).wf(),
        ensures
            final(self).wf(),
            final(self)@ == (GameView {
                ai_time_tenths: if old(self)@.ai_time_tenths < 30 {
                    (old(self)@.ai_time_tenths + 1) as u32
                } else {
                    30
                },
                ..old(self)@
            }),
    {
        self.ai_time_tenths = if self.ai_time_tenths < 30 {
            self.ai_time_tenths + 1
        } else {
            30
        };
        assert(self@ =~= GameView {
            ai_time_tenths: if old(self)@.ai_time_tenths < 30 {
                (old(self)@.ai_time_tenths + 1) as u32
            } else {
                30
            },
            ..old(self)@
        });
    }

    /// Starts a game against the computer, the player taking White (board seen from White's
    /// side) or Black (board turned round).
    pub fn choose_side(&mut self, play_white: bool)
        requires
            old(self).wf(),
        ensures
            final(self).wf(),
            final(self)@ == (GameView {
                mode: Mode::PvA,
                ai_white: !play_white,
                ai_black: play_white,
                flipped: !play_white,
                ..fresh_board(old(self)@)
            }),
    {
        self.mode = Mode::PvA;
        self.reset_board();
        if play_white {
            self.ai_white = false;
            self.ai_black = true;
            self.flipped = false;
        } else {
            self.ai_white = true;
            self.ai_black = false;
            self.flipped = true;
        }
        assert(self@ =~= GameView {
            mode: Mode::PvA,
            ai_white: !play_white,
            ai_black: play_white,
            flipped: !play_white,
            ..fresh_board(old(self)@)
        });
    }

    /// Turns the board round.
    pub fn flip(&mut self)
        requires
            old(self).wf(),
        ensures
            final(self).wf(),
            final(self)@ == (GameView { flipped: !old(self)@.flipped, ..old(self)@ }),
    {
        self.flipped = !self.flipped;
        assert(self@ =~= GameView { flipped: !old(self)@.flipped, ..old(self)@ });
    }

    /// Notes that the result has been shown.
    pub fn mark_game_over_printed(&mut self)
        requires
            old(self).wf(),
        ensures
            final(self).wf(),
            final(self)@ == (GameView { game_over_printed: true, ..old(self)@ }),
    {
        if !self.game_over_printed {
            self.game_over_printed = true;
        }
        assert(self@ =~= GameView { game_over_printed: true, ..old(self)@ });
    }

    /// Whether the side to move is played by the computer.
    pub fn is_ai_turn(&self) -> (r: bool)
        ensures
            r == ai_to_move(self@),
    {
        (self.ai_white && self.board_state.turn == PieceColor::White) || (self.ai_black
            && self.board_state.turn == PieceColor::Black)
    }

    /// The first listed move from square `from_idx` to `to` (see `find_move`).
    fn find_listed_move(&self, from_idx: usize, to: u64) -> (r: Option<Move>)
        ensures
            r == find_move(self@.legal_moves, from_idx as nat, to),
            r matches Some(m) ==> exists|i: int|
                0 <= i < self@.legal_moves.len() && self@.legal_moves[i] == m,
    {
        let mut i: usize = 0;
        while i < self.legal_moves.len()
            invariant
                0 <= i <= self.legal_moves@.len(),
                find_move(self.legal_moves@, from_idx as nat, to) == find_move_from(
                    self.legal_moves@,
                    i as int,
                    from_idx as nat,
                    to,
                ),
            decreases self.legal_moves.len() - i,
        {
            let m = self.legal_moves[i];
            if m.from.trailing_zeros() as usize == from_idx && m.to == to {
                return Some(m);
            }
            i = i + 1;
        }
        None
    }

    /// Handles a press on row `r`, column `c` of the board (see `after_press`). Returns
    /// whether a move started being shown.
    pub fn press_square(&mut self, r: i32, c: i32) -> (started: bool)
        requires
            old(self).wf(),
            0 <= r < 8,
            0 <= c < 8,
        ensures
            final(self).wf(),
            final(self)@ == after_press(old(self)@, r, c),
            started == (old(self)@.selected matches Some(sel) && find_move(
                old(self)@.legal_moves,
                sel as nat,
                1u64 << (clicked_index(r, c) as u64),
            ) is Some),
    {
        let ghost v = self@;
        proof {
            self.lemma_wf();
        }
        let clicked_idx = (7 - r) * 8 + c;
        let clicked_bit = 1u64 << (clicked_idx as u64);

        let mut moved = false;
        if let Some(sel_idx) = self.selected_square_idx {
            let move_to_apply = self.find_listed_move(sel_idx, clicked_bit);
            if let Some(m) = move_to_apply {
                self.start_move_animation(m);
                moved = true;
            }
        }

        if !moved && !self.is_mid_capture {
            if let Some(p) = self.board_state.get_piece_at(r, c) {
                if p.color == self.board_state.turn {
                    self.selected_square_idx = Some(clicked_idx as usize);
                    self.dragged_piece_idx = Some(clicked_idx as usize);
                    self.legal_moves = generate_all_moves(
                        &self.board_state,
                        self.force_max_capture,
                    );
                    proof {
                        lemma_all_moves_legal(self.board_state, self.force_max_capture);
                    }
                } else {
                    self.selected_square_idx = None;
                }
            } else {
                self.selected_square_idx = None;
            }
        }
        assert(self@ =~= after_press(v, r, c));
        moved
    }

    /// Handles letting go of the mouse over `target` (see `after_release`). Returns whether
    /// a move was played, and if so whether it captured.
    pub fn release_square(&mut self, target: Option<(i32, i32)>) -> (played: Option<bool>)
        requires
            old(self).wf(),
            old(self)@.animation is None,
            room_for_move(old(self)@),
            target matches Some(rc) ==> 0 <= rc.0 < 8 && 0 <= rc.1 < 8,
        ensures
            final(self).wf(),
            final(self)@ == after_release(old(self)@, target),
            played is Some ==> old(self)@.dragged is Some,
    {
        let ghost v = self@;
        let mut played: Option<bool> = None;
        if let Some(drag_idx) = self.dragged_piece_idx {
            if let Some((r, c)) = target {
                let target_idx = (7 - r) * 8 + c;
                let target_bit = 1u64 << (target_idx as u64);
                let move_to_apply = self.find_listed_move(drag_idx, target_bit);
                if let Some(m) = move_to_apply {
                    proof {
                        self.lemma_wf();
                    }
                    played = Some(self.finalize_move(&m));
                }
            }
            self.dragged_piece_idx = None;
        }
        assert(self@ =~= after_release(v, target));
        played
    }

    /// Ends the move being shown, playing it (see `after_move`). Returns whether a move was
    /// played, and if so whether it captured.
    pub fn finish_animation(&mut self) -> (played: Option<bool>)
        requires
            old(self).wf(),
            room_for_move(old(self)@),
        ensures
            final(self).wf(),
            match old(self)@.animation {
                None => final(self)@ == old(self)@ && played is None,
                Some(a) => final(self)@ == after_move(
                    GameView { animation: None, ..old(self)@ },
                    a.move_data,
                ) && played == Some(a.move_data.captures != 0),
            },
    {
        let ghost v = self@;
        match self.animation {
            None => None,
            Some(anim) => {
                let m = anim.move_data;
                self.animation = None;
                assert(self@ =~= GameView { animation: None, ..v });
                Some(self.finalize_move(&m))
            },
        }
    }

    /// One update of a game in play, before the players' input is looked at: nothing when the
    /// game is over; when the computer is to move, the first update marks it as due and the
    /// next one searches and starts showing its move.
    pub fn update_turn(&mut self) -> (step: TurnStep)
        requires
            old(self).wf(),
            old(self)@.animation is None,
        ensures
            final(self).wf(),
            game_result(old(self)@) is Some ==> step == TurnStep::GameOver && final(self)@ == old(self)@,
            game_result(old(self)@) is None && !ai_to_move(old(self)@) ==> step == TurnStep::PlayerToMove
                && final(self)@ == old(self)@,
            game_result(old(self)@) is None && ai_to_move(old(self)@) && !old(self)@.ai_should_move
                ==> step == TurnStep::AiWaiting && final(self)@ == (GameView {
                ai_should_move: true,
                ..old(self)@
            }),
            game_result(old(self)@) is None && ai_to_move(old(self)@) && old(self)@.ai_should_move
                ==> step == TurnStep::AiMoved && ai_moved(old(self)@, final(self)@),
    {
        let ghost v = self@;
        if self.is_game_over().is_some() {
            return TurnStep::GameOver;
        }
        let is_ai_turn = self.is_ai_turn();
        if is_ai_turn {
            if !self.ai_should_move {
                self.ai_should_move = true;
                assert(self@ =~= GameView { ai_should_move: true, ..v });
                return TurnStep::AiWaiting;
            } else {
                let best = find_best_move(self);
                if let Some(m) = best {
                    proof {
                        lemma_all_moves_legal(self.board_state, self.force_max_capture);
                        let ms = all_moves_spec(self.board_state, self.force_max_capture);
                        let j = choose|j: int| 0 <= j < ms.len() && ms[j] == m;
                        assert(legal_move(self.board_state, ms[j]));
                    }
                    self.start_move_animation(m);
                }
                self.ai_should_move = false;
                assert(self@ =~= GameView {
                    ai_should_move: false,
                    animation: self@.animation,
                    ..v
                });
                return TurnStep::AiMoved;
            }
        }
        TurnStep::PlayerToMove
    }
}



/// The computer only ever plays a legal move.
pub proof fn lemma_ai_move_legal(v: GameView, w: GameView)
    requires
        v.board.valid(),
        ai_moved(v, w),
    ensures
        w.animation matches Some(a) && legal_move(v.board, a.move_data),
{
    let a = w.animation.unwrap();
    let ms = all_moves_spec(v.board, v.force_max_capture);
    lemma_all_moves_legal(v.board, v.force_max_capture);
    let j = choose|j: int| 0 <= j < ms.len() && ms[j] == a.move_data;
    assert(legal_move(v.board, ms[j]));
}

/// Undoing right after a move takes the move's record back off the history, and puts the
/// board at the position recorded before it (the opening position when there is none): an
/// undo goes back to the position before the previous record, two half-moves in ordinary
/// play.
pub proof fn lemma_undo_after_move(v: GameView, m: Move)
    ensures
        after_undo(after_move(v, m)).history == v.history,
        after_undo(after_move(v, m)).board == (if v.history.len() > 0 {
            v.history.last()
        } else {
            initial_state()
        }),
        after_undo(after_move(v, m)).legal_moves.len() == 0,
        after_undo(after_move(v, m)).selected is None,
        after_undo(after_move(v, m)).animation is None,
{
    assert(v.history.push(v.board).drop_last() =~= v.history);
}

/// Playing a legal move keeps the position well formed, removes exactly the jumped pieces,
/// and counts the position reached once more.
pub proof fn lemma_move_effect(v: GameView, m: Move)
    requires
        v.board.valid(),
        legal_move(v.board, m),
    ensures
        after_move(v, m).board.valid(),
        after_move(v, m).board.piece_count() + pop(m.captures) == v.board.piece_count(),
        count_of(after_move(v, m).counts, apply_move_spec(v.board, m)) == count_of(
            v.counts,
            apply_move_spec(v.board, m),
        ) + 1,
        after_move(v, m).history == v.history.push(v.board),
{
    lemma_apply_move(v.board, m);
}

/// Who wins when the game ends for want of pieces or moves: a side without pieces has lost,
/// and when both sides have pieces but the side to move has no move, the side to move has
/// lost and the other side has won.
pub proof fn lemma_stuck_side_loses(v: GameView)
    ensures
        v.board.white_pieces() == 0 ==> game_result(v) == Some(Some(PieceColor::Black)),
        v.board.white_pieces() != 0 && v.board.black_pieces() == 0 ==> game_result(v) == Some(
            Some(PieceColor::White),
        ),
        v.board.white_pieces() != 0 && v.board.black_pieces() != 0 && all_moves_spec(
            v.board,
            v.force_max_capture,
        ).len() == 0 ==> game_result(v) == Some(Some(opposite(v.board.turn))),
        all_moves_spec(v.board, v.force_max_capture).len() > 0 && v.board.white_pieces() != 0
            && v.board.black_pieces() != 0 ==> game_result(v) != Some(Some(v.board.turn)) && game_result(
            v,
        ) != Some(Some(opposite(v.board.turn))),
{
}

} // verus!
