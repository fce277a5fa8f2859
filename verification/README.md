# checkers

Checkers (draughts on an 8×8 board) with a computer opponent, written in Verus.

The rules and the engine live in `src/` and are verified:

- `bits` — bit tricks on 64-bit boards and facts about counting set bits;
- `board` — pieces, moves, positions as four bitboards, playing a move;
- `movegen` — plain steps, jump sequences, compulsory and most-captures rules;
- `eval` — the static evaluation of a position;
- `counts` — how often each position has occurred;
- `clock` — the only contact with the clock, for the thinking time;
- `search` — quiescence search, alpha-beta search and iterative deepening;
- `symmetry` — turning the board round with the sides swapped negates the evaluation;
- `game` — the state of a game: history, undo, repetition and move counters, settings and
  the handling of the players' presses.

`app/` draws the game with macroquad, reads the mouse, plays the sounds and animates the
moves; it loads its pictures and sounds from an `assets` directory.
