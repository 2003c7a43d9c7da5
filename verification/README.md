# reversi

Reversi (Othello) in the terminal, one human (Black) against a bot (White)
that plays the legal move of greatest positional weight. Flipped discs are
shown in waves, nearest first.

- `src/` is the game, verified with Verus:
  - `cell.rs`: squares and colours;
  - `board.rs`: the rules over a board seen as rows of squares (flip lines,
    legal moves, disc counts, the weight table) and their lemmas;
  - `model.rs`: the game as a mathematical value and what each operation does to it;
  - `game.rs`: the executable game, each operation proved against `model.rs`;
  - `laws.rs`: properties of whole games (the states every operation keeps,
    what a move does once its flips are shown);
  - `screen.rs`: where the picture goes on the terminal and how squares look.
- `app/` draws with crossterm and runs the input and animation loop.
- `tests/` runs the library on concrete games.
