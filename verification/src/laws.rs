//! Properties of the game as a whole: what every operation keeps true, and
//! what a move does once its flips have all been shown.
use vstd::prelude::*;
use crate::cell::{Cell, opponent_of, player_for};
use crate::board::{
    on_board, cell_at, legal_at, legal_moves, disc_count, lemma_count_bounds, lemma_flip_line_holds,
    lemma_legal_moves_contains, lemma_legal_moves_are_legal, lemma_flip_waves_hold, flip_waves,
    flip_line, count_in_row, count_in_rows, run_end, run_cells, is_grid, wave_of, longest_line,
    flips_somewhere, weight, unit_dir, steps_left, dir_row, dir_col, legal_in_row, legal_in_rows,
};
use crate::model::{
    GameModel, Key, initial_board, initial_model, advance_model, handle_key_model, bot_move_model,
    try_place_model, place_model, finish_model, recount_model, best_index,
    set_square, Status, animation_step_model, apply_wave,
};

verus! {

/// The states a game can be in: the cursor, the moves on offer and the
/// flips waiting are on the board;
/// flips wait only during the animation; during the animation the game is
/// not over and no move is offered; when the game is over neither player can
/// move, nothing is offered, and the message names the side with more discs
/// on the board (or a draw); otherwise the moves offered are exactly the
/// legal moves of the player to move, and there is at least one; and outside
/// the animation the score is the number of discs of each colour. The message
/// fits the turn: it speaks to the human, refuses a move or says White was
/// skipped only on Black's turn, says the bot thinks or Black was skipped
/// only on White's turn, and gives a result only once the game is over.
pub open spec fn coherent(m: GameModel) -> bool {
    &&& m.wf()
    &&& on_board(m.cursor.0 as int, m.cursor.1 as int)
    &&& m.pending_flips.len() > 0 ==> m.animating
    &&& m.animating ==> !m.game_over && m.valid_moves.len() == 0
    &&& m.game_over ==> {
        &&& m.valid_moves.len() == 0
        &&& legal_moves(m.board, Cell::Black).len() == 0
        &&& legal_moves(m.board, Cell::White).len() == 0
        &&& (m.status == Status::YouWin) == (disc_count(m.board, Cell::Black) > disc_count(m.board, Cell::White))
        &&& (m.status == Status::BotWins) == (disc_count(m.board, Cell::White) > disc_count(m.board, Cell::Black))
        &&& (m.status == Status::Draw) == (disc_count(m.board, Cell::Black) == disc_count(m.board, Cell::White))
    }
    &&& !m.animating && !m.game_over ==> {
        &&& m.valid_moves == legal_moves(m.board, player_for(m.black_turn))
        &&& m.valid_moves.len() > 0
    }
    &&& !m.animating ==> {
        &&& m.black_count as nat == disc_count(m.board, Cell::Black)
        &&& m.white_count as nat == disc_count(m.board, Cell::White)
    }
    &&& (m.status == Status::YourTurn || m.status == Status::InvalidMove || m.status == Status::WhiteSkipped)
        ==> m.black_turn
    &&& (m.status == Status::BotThinking || m.status == Status::BlackSkipped) ==> !m.black_turn
    &&& (m.status == Status::YouWin || m.status == Status::BotWins || m.status == Status::Draw) ==> m.game_over
}

/// A new game is coherent.
pub proof fn lemma_new_game_coherent(term_size: (u16, u16))
    ensures
        coherent(initial_model(term_size)),
{
    let g = initial_board();
    let m = initial_model(term_size);
    reveal_with_fuel(count_in_row, 9);
    reveal_with_fuel(count_in_rows, 9);
    assert(disc_count(g, Cell::Black) == 2);
    assert(disc_count(g, Cell::White) == 2);
    lemma_legal_moves_are_legal(g, Cell::Black);
    lemma_legal_moves_contains(g, Cell::Black);
    assert(cell_at(g, 3, 3) == Cell::White);
    assert(cell_at(g, 4, 3) == Cell::Black);
    assert(run_end(g, 4, 3, 1, 0, Cell::White) == (4int, 3int));
    assert(run_end(g, 3, 3, 1, 0, Cell::White) == (4int, 3int));
    assert(run_cells(g, 4, 3, 1, 0, Cell::White).len() == 0);
    assert(run_cells(g, 3, 3, 1, 0, Cell::White).len() == 1);
    assert(flip_line(g, 2, 3, Cell::Black, 6).len() > 0);
    assert(legal_at(g, 2, 3, Cell::Black));
    assert(legal_moves(g, Cell::Black).contains((2usize, 3usize)));
}

/// Finishing a move from a state with no flips waiting, no animation and
/// the game not over gives a coherent state.
proof fn lemma_finish_coherent(m: GameModel)
    requires
        m.wf(),
        on_board(m.cursor.0 as int, m.cursor.1 as int),
        m.pending_flips.len() == 0,
        !m.animating,
        !m.game_over,
    ensures
        coherent(finish_model(m)),
{
    let m1 = recount_model(m);
    lemma_count_bounds(m.board, Cell::Black);
    lemma_count_bounds(m.board, Cell::White);
    lemma_legal_moves_are_legal(m.board, Cell::Black);
    lemma_legal_moves_are_legal(m.board, Cell::White);
    assert(m1.black_count as nat == disc_count(m.board, Cell::Black));
    assert(m1.white_count as nat == disc_count(m.board, Cell::White));
    let t = !m1.black_turn;
    assert(opponent_of(player_for(t)) == player_for(m1.black_turn));
}

/// Each step of the flip animation keeps a coherent game coherent.
pub proof fn lemma_advance_coherent(m: GameModel)
    requires
        coherent(m),
        m.animating,
    ensures
        coherent(advance_model(m)),
{
    if m.pending_flips.len() == 0 {
        lemma_finish_coherent(GameModel { animating: false, ..m });
    } else {
        let m1 = GameModel {
            board: apply_wave(m.board, m.pending_flips[0], player_for(m.flip_to_black)),
            pending_flips: m.pending_flips.drop_first(),
            ..m
        };
        assert(m1.wf()) by {
            assert forall|i: int, j: int|
                0 <= i < m1.pending_flips.len() && 0 <= j < m1.pending_flips[i].len() implies on_board(
                (#[trigger] m1.pending_flips[i][j]).0 as int,
                m1.pending_flips[i][j].1 as int,
            ) by {
                assert(m1.pending_flips[i] == m.pending_flips[i + 1]);
            }
        }
        if m1.pending_flips.len() == 0 {
            lemma_finish_coherent(GameModel { animating: false, ..m1 });
        }
    }
}

/// Placing the mover's disc on a square from the moves on offer keeps a
/// coherent game coherent.
proof fn lemma_place_coherent(m: GameModel, row: usize, col: usize)
    requires
        coherent(m),
        !m.game_over,
        on_board(row as int, col as int),
    ensures
        coherent(place_model(m, row, col)),
{
    let p = player_for(m.black_turn);
    let b = set_square(m.board, row as int, col as int, p);
    lemma_flip_waves_hold(b, row as int, col as int, p);
}

/// A refused or accepted request to play a square keeps a coherent game coherent.
proof fn lemma_try_place_coherent(m: GameModel, row: usize, col: usize)
    requires
        coherent(m),
        !m.game_over,
        !m.animating,
        m.black_turn,
    ensures
        coherent(try_place_model(m, row, col)),
{
    if m.valid_moves.contains((row, col)) {
        let i = choose|i: int| 0 <= i < m.valid_moves.len() && m.valid_moves[i] == (row, col);
        assert(on_board(m.valid_moves[i].0 as int, m.valid_moves[i].1 as int));
        lemma_place_coherent(m, row, col);
    }
}

/// Every key the human presses keeps a coherent game coherent.
pub proof fn lemma_handle_key_coherent(m: GameModel, key: Key, term_size: (u16, u16))
    requires
        coherent(m),
    ensures
        coherent(handle_key_model(m, key, term_size)),
{
    lemma_new_game_coherent(term_size);
    if !m.animating && !m.game_over && m.black_turn {
        lemma_try_place_coherent(m, m.cursor.0, m.cursor.1);
    }
}

/// The bot's move keeps a coherent game coherent, when it is made outside the
/// animation and before the game is over.
pub proof fn lemma_bot_move_coherent(m: GameModel)
    requires
        coherent(m),
        !m.animating,
        !m.game_over,
    ensures
        coherent(bot_move_model(m)),
{
    let moves = legal_moves(m.board, Cell::White);
    if moves.len() > 0 {
        lemma_best_index(moves, moves.len() as int);
        lemma_legal_moves_are_legal(m.board, Cell::White);
        let best = moves[best_index(moves, moves.len() as int)];
        lemma_place_coherent(m, best.0, best.1);
    }
}

/// The bot's choice among the first `n` moves is one of them, no other has a
/// greater positional weight, and every later one has a smaller weight.
pub proof fn lemma_best_index(moves: Seq<(usize, usize)>, n: int)
    requires
        1 <= n <= moves.len(),
    ensures
        0 <= best_index(moves, n) < n,
        forall|j: int|
            0 <= j < n ==> weight(#[trigger] moves[j].0 as int, moves[j].1 as int)
                <= weight(moves[best_index(moves, n)].0 as int, moves[best_index(moves, n)].1 as int),
        forall|j: int|
            best_index(moves, n) < j < n ==> weight(#[trigger] moves[j].0 as int, moves[j].1 as int)
                < weight(moves[best_index(moves, n)].0 as int, moves[best_index(moves, n)].1 as int),
    decreases n,
{
    if n > 1 {
        lemma_best_index(moves, n - 1);
    }
}

/// `g` with each wave of `waves` applied in turn, each setting its squares to `t`.
pub open spec fn apply_waves(g: Seq<Seq<Cell>>, waves: Seq<Seq<(usize, usize)>>, t: Cell) -> Seq<Seq<Cell>>
    decreases waves.len(),
{
    if waves.len() == 0 {
        g
    } else {
        apply_waves(apply_wave(g, waves[0], t), waves.drop_first(), t)
    }
}

/// The game after `n` steps of the flip animation.
pub open spec fn run_animation(m: GameModel, n: nat) -> GameModel
    decreases n,
{
    if n == 0 {
        m
    } else {
        run_animation(advance_model(m), (n - 1) as nat)
    }
}

/// Square `x` is turned over when `player` places at `(row, col)`.
pub open spec fn flipped_by(g: Seq<Seq<Cell>>, row: int, col: int, player: Cell, x: (usize, usize)) -> bool {
    exists|k: int| 0 <= k < 8 && (#[trigger] flip_line(g, row, col, player, k)).contains(x)
}

/// Once as many animation steps as there are waves have run, no flip is left,
/// the animation is over, and the board is the board with every wave applied.
pub proof fn lemma_run_animation(m: GameModel, n: nat)
    requires
        m.pending_flips.len() == n,
        n > 0,
    ensures
        run_animation(m, n).board == apply_waves(m.board, m.pending_flips, player_for(m.flip_to_black)),
        run_animation(m, n).pending_flips.len() == 0,
        !run_animation(m, n).animating,
        run_animation(m, n).black_count == disc_count(run_animation(m, n).board, Cell::Black) as u8,
        run_animation(m, n).white_count == disc_count(run_animation(m, n).board, Cell::White) as u8,
    decreases n,
{
    let m1 = advance_model(m);
    let t = player_for(m.flip_to_black);
    let b1 = apply_wave(m.board, m.pending_flips[0], t);
    assert(m1.board == b1);
    assert(m1.flip_to_black == m.flip_to_black);
    assert(apply_waves(m.board, m.pending_flips, t) == apply_waves(b1, m.pending_flips.drop_first(), t));
    if n > 1 {
        assert(m1.pending_flips == m.pending_flips.drop_first());
        lemma_run_animation(m1, (n - 1) as nat);
    } else {
        assert(run_animation(m1, 0) == m1);
        assert(apply_waves(b1, m.pending_flips.drop_first(), t) == b1);
    }
}

/// Applying waves sets exactly the squares listed in some wave.
proof fn lemma_apply_waves_pointwise(g: Seq<Seq<Cell>>, waves: Seq<Seq<(usize, usize)>>, t: Cell)
    requires
        is_grid(g),
    ensures
        is_grid(apply_waves(g, waves, t)),
        forall|r: int, c: int|
            on_board(r, c) ==> #[trigger] cell_at(apply_waves(g, waves, t), r, c) == if exists|i: int|
                0 <= i < waves.len() && (#[trigger] waves[i]).contains((r as usize, c as usize)) {
                t
            } else {
                cell_at(g, r, c)
            },
    decreases waves.len(),
{
    if waves.len() > 0 {
        let g1 = apply_wave(g, waves[0], t);
        let rest = waves.drop_first();
        lemma_apply_waves_pointwise(g1, rest, t);
        assert forall|r: int, c: int| on_board(r, c) implies #[trigger] cell_at(apply_waves(g, waves, t), r, c)
            == if exists|i: int| 0 <= i < waves.len() && (#[trigger] waves[i]).contains((r as usize, c as usize)) {
            t
        } else {
            cell_at(g, r, c)
        } by {
            let x = (r as usize, c as usize);
            if exists|i: int| 0 <= i < rest.len() && (#[trigger] rest[i]).contains(x) {
                let i = choose|i: int| 0 <= i < rest.len() && (#[trigger] rest[i]).contains(x);
                assert(waves[i + 1] == rest[i]);
            }
            if exists|i: int| 0 <= i < waves.len() && (#[trigger] waves[i]).contains(x) {
                let i = choose|i: int| 0 <= i < waves.len() && (#[trigger] waves[i]).contains(x);
                if i > 0 {
                    assert(rest[i - 1] == waves[i]);
                }
            }
        }
    }
}

/// Every flip line is at most as long as the longest one.
proof fn lemma_longest_line(g: Seq<Seq<Cell>>, row: int, col: int, player: Cell, n: int)
    ensures
        forall|k: int| 0 <= k < n ==> (#[trigger] flip_line(g, row, col, player, k)).len() <= longest_line(g, row, col, player, n),
        longest_line(g, row, col, player, n) > 0 ==> exists|k: int|
            0 <= k < n && (#[trigger] flip_line(g, row, col, player, k)).len() > 0,
    decreases n,
{
    if n > 0 {
        lemma_longest_line(g, row, col, player, n - 1);
        if longest_line(g, row, col, player, n) > 0 && longest_line(g, row, col, player, n - 1) == 0 {
            assert(flip_line(g, row, col, player, n - 1).len() > 0);
        }
    }
}

/// Square `x` is in wave `i` over the first `n` directions exactly when it is the
/// `i`-th disc of one of their flip lines.
proof fn lemma_wave_of_contains(g: Seq<Seq<Cell>>, row: int, col: int, player: Cell, i: int, n: int, x: (usize, usize))
    ensures
        wave_of(g, row, col, player, i, n).contains(x) <==> exists|k: int|
            0 <= k < n && 0 <= i < (#[trigger] flip_line(g, row, col, player, k)).len()
                && flip_line(g, row, col, player, k)[i] == x,
    decreases n,
{
    if n > 0 {
        lemma_wave_of_contains(g, row, col, player, i, n - 1, x);
        let prev = wave_of(g, row, col, player, i, n - 1);
        let line = flip_line(g, row, col, player, n - 1);
        let tail = if 0 <= i < line.len() { seq![line[i]] } else { Seq::<(usize, usize)>::empty() };
        let w = wave_of(g, row, col, player, i, n);
        assert(w == prev + tail);
        if w.contains(x) {
            let j = choose|j: int| 0 <= j < w.len() && #[trigger] w[j] == x;
            if j < prev.len() {
                assert(prev[j] == x);
                assert(prev.contains(x));
            } else {
                assert(flip_line(g, row, col, player, n - 1)[i] == x);
            }
        }
        if exists|k: int|
            0 <= k < n && 0 <= i < (#[trigger] flip_line(g, row, col, player, k)).len()
                && flip_line(g, row, col, player, k)[i] == x {
            let k = choose|k: int|
                0 <= k < n && 0 <= i < (#[trigger] flip_line(g, row, col, player, k)).len()
                    && flip_line(g, row, col, player, k)[i] == x;
            if k < n - 1 {
                assert(prev.contains(x));
                let j = choose|j: int| 0 <= j < prev.len() && #[trigger] prev[j] == x;
                assert(w[j] == x);
            } else {
                assert(w[prev.len() as int] == x);
            }
        }
    }
}

/// The waves of a move list exactly the discs that the move turns over.
pub proof fn lemma_flip_waves_cover(g: Seq<Seq<Cell>>, row: int, col: int, player: Cell, x: (usize, usize))
    ensures
        (exists|i: int|
            0 <= i < flip_waves(g, row, col, player).len() && (#[trigger] flip_waves(g, row, col, player)[i]).contains(x))
            <==> flipped_by(g, row, col, player, x),
{
    let waves = flip_waves(g, row, col, player);
    lemma_longest_line(g, row, col, player, 8);
    if exists|i: int| 0 <= i < waves.len() && (#[trigger] waves[i]).contains(x) {
        let i = choose|i: int| 0 <= i < waves.len() && (#[trigger] waves[i]).contains(x);
        lemma_wave_of_contains(g, row, col, player, i, 8, x);
        let k = choose|k: int|
            0 <= k < 8 && 0 <= i < (#[trigger] flip_line(g, row, col, player, k)).len()
                && flip_line(g, row, col, player, k)[i] == x;
        assert(flip_line(g, row, col, player, k).contains(x));
    }
    if flipped_by(g, row, col, player, x) {
        let k = choose|k: int| 0 <= k < 8 && (#[trigger] flip_line(g, row, col, player, k)).contains(x);
        let line = flip_line(g, row, col, player, k);
        let i = choose|i: int| 0 <= i < line.len() && #[trigger] line[i] == x;
        lemma_wave_of_contains(g, row, col, player, i, 8, x);
        assert(waves[i] == wave_of(g, row, col, player, i, 8));
        assert(waves[i].contains(x));
    }
}

/// A move turns over some disc exactly when its first wave is not empty.
pub proof fn lemma_flips_iff_first_wave(g: Seq<Seq<Cell>>, row: int, col: int, player: Cell)
    ensures
        flips_somewhere(g, row, col, player) <==> flip_waves(g, row, col, player)[0].len() > 0,
{
    let waves = flip_waves(g, row, col, player);
    lemma_longest_line(g, row, col, player, 8);
    if flips_somewhere(g, row, col, player) {
        let k = choose|k: int| 0 <= k < 8 && (#[trigger] flip_line(g, row, col, player, k)).len() > 0;
        let x = flip_line(g, row, col, player, k)[0];
        lemma_wave_of_contains(g, row, col, player, 0, 8, x);
        assert(waves[0].contains(x));
    }
    if waves[0].len() > 0 {
        let x = waves[0][0];
        assert(waves[0].contains(x));
        lemma_wave_of_contains(g, row, col, player, 0, 8, x);
    }
}

/// `(r, c)` lies strictly ahead of `(row, col)` in direction `(dr, dc)`.
pub open spec fn ahead(row: int, col: int, r: int, c: int, dr: int, dc: int) -> bool {
    &&& (dr > 0 ==> r > row)
    &&& (dr < 0 ==> r < row)
    &&& (dr == 0 ==> r == row)
    &&& (dc > 0 ==> c > col)
    &&& (dc < 0 ==> c < col)
    &&& (dc == 0 ==> c == col)
}

/// A walk that starts ahead of `(row, col)` never comes back to it, so
/// changing that square changes neither where the walk stops nor what it passes.
proof fn lemma_run_unaffected(
    g: Seq<Seq<Cell>>,
    row: int,
    col: int,
    v: Cell,
    r: int,
    c: int,
    dr: int,
    dc: int,
    opp: Cell,
)
    requires
        is_grid(g),
        on_board(row, col),
        unit_dir(dr, dc),
        ahead(row, col, r, c, dr, dc),
    ensures
        run_end(set_square(g, row, col, v), r, c, dr, dc, opp) == run_end(g, r, c, dr, dc, opp),
        run_cells(set_square(g, row, col, v), r, c, dr, dc, opp) == run_cells(g, r, c, dr, dc, opp),
        ahead(row, col, run_end(g, r, c, dr, dc, opp).0, run_end(g, r, c, dr, dc, opp).1, dr, dc),
    decreases steps_left(r, c, dr, dc),
{
    let g2 = set_square(g, row, col, v);
    if on_board(r, c) {
        assert(cell_at(g2, r, c) == cell_at(g, r, c));
    }
    if on_board(r, c) && cell_at(g, r, c) == opp {
        lemma_run_unaffected(g, row, col, v, r + dr, c + dc, dr, dc, opp);
    }
}

/// Placing a disc on `(row, col)` changes none of the flip lines from `(row, col)`.
pub proof fn lemma_flip_line_after_placing(g: Seq<Seq<Cell>>, row: int, col: int, v: Cell, player: Cell, k: int)
    requires
        is_grid(g),
        on_board(row, col),
        0 <= k < 8,
    ensures
        flip_line(set_square(g, row, col, v), row, col, player, k) == flip_line(g, row, col, player, k),
{
    let dr = dir_row(k);
    let dc = dir_col(k);
    let opp = opponent_of(player);
    lemma_run_unaffected(g, row, col, v, row + dr, col + dc, dr, dc, opp);
    let end = run_end(g, row + dr, col + dc, dr, dc, opp);
    if on_board(end.0, end.1) {
        assert(cell_at(set_square(g, row, col, v), end.0, end.1) == cell_at(g, end.0, end.1));
    }
}

/// Once a placement's flips have all been shown, the animation is over, no flip
/// is left, and the board is the board before the move with the new disc
/// placed and every disc on a line closed by the move turned to the mover's
/// colour; every other square is as it was.
pub proof fn lemma_move_result(m: GameModel, row: usize, col: usize)
    requires
        is_grid(m.board),
        on_board(row as int, col as int),
    ensures
        ({
            let p = player_for(m.black_turn);
            let m1 = place_model(m, row, col);
            let f = run_animation(m1, m1.pending_flips.len());
            &&& m1.pending_flips.len() > 0
            &&& !f.animating
            &&& f.pending_flips.len() == 0
            &&& is_grid(f.board)
            &&& forall|r: int, c: int|
                on_board(r, c) ==> #[trigger] cell_at(f.board, r, c) == if (r == row && c == col) || flipped_by(
                    m.board,
                    row as int,
                    col as int,
                    p,
                    (r as usize, c as usize),
                ) {
                    p
                } else {
                    cell_at(m.board, r, c)
                }
        }),
{
    let p = player_for(m.black_turn);
    let b = set_square(m.board, row as int, col as int, p);
    let m1 = place_model(m, row, col);
    let waves = flip_waves(b, row as int, col as int, p);
    assert(is_grid(b));
    lemma_run_animation(m1, m1.pending_flips.len());
    lemma_apply_waves_pointwise(b, waves, p);
    let f = run_animation(m1, m1.pending_flips.len());
    assert forall|k: int| 0 <= k < 8 implies #[trigger] flip_line(b, row as int, col as int, p, k) == flip_line(
        m.board,
        row as int,
        col as int,
        p,
        k,
    ) by {
        lemma_flip_line_after_placing(m.board, row as int, col as int, p, p, k);
    }
    assert forall|r: int, c: int| on_board(r, c) implies #[trigger] cell_at(f.board, r, c) == if (r == row && c
        == col) || flipped_by(m.board, row as int, col as int, p, (r as usize, c as usize)) {
        p
    } else {
        cell_at(m.board, r, c)
    } by {
        let x = (r as usize, c as usize);
        lemma_flip_waves_cover(b, row as int, col as int, p, x);
        if flipped_by(b, row as int, col as int, p, x) {
            let k = choose|k: int| 0 <= k < 8 && (#[trigger] flip_line(b, row as int, col as int, p, k)).contains(x);
            assert(flip_line(m.board, row as int, col as int, p, k).contains(x));
        }
        if flipped_by(m.board, row as int, col as int, p, x) {
            let k = choose|k: int|
                0 <= k < 8 && (#[trigger] flip_line(m.board, row as int, col as int, p, k)).contains(x);
            assert(flip_line(b, row as int, col as int, p, k).contains(x));
        }
        assert(cell_at(f.board, r, c) == cell_at(apply_waves(b, waves, p), r, c));
    }
}

/// The number of discs on the board, of either colour.
pub open spec fn disc_total(g: Seq<Seq<Cell>>) -> nat {
    disc_count(g, Cell::Black) + disc_count(g, Cell::White)
}

proof fn lemma_row_fill(g1: Seq<Seq<Cell>>, g2: Seq<Seq<Cell>>, r: int, n: int, row: int, col: int)
    requires
        0 <= n <= 8,
        forall|c: int|
            0 <= c < 8 && !(r == row && c == col) ==> (#[trigger] cell_at(g1, r, c) == Cell::Empty) == (
            cell_at(g2, r, c) == Cell::Empty),
        r == row ==> 0 <= col < 8 && cell_at(g1, row, col) == Cell::Empty && cell_at(g2, row, col) != Cell::Empty,
    ensures
        count_in_row(g2, Cell::Black, r, n) + count_in_row(g2, Cell::White, r, n) == count_in_row(g1, Cell::Black, r, n)
            + count_in_row(g1, Cell::White, r, n) + (if r == row && col < n { 1int } else { 0int }),
    decreases n,
{
    if n > 0 {
        lemma_row_fill(g1, g2, r, n - 1, row, col);
        let a = cell_at(g1, r, n - 1);
        let b = cell_at(g2, r, n - 1);
        if !(r == row && n - 1 == col) {
            assert((a == Cell::Empty) == (b == Cell::Empty));
        }
    }
}

proof fn lemma_rows_fill(g1: Seq<Seq<Cell>>, g2: Seq<Seq<Cell>>, n: int, row: int, col: int)
    requires
        0 <= n <= 8,
        on_board(row, col),
        cell_at(g1, row, col) == Cell::Empty,
        cell_at(g2, row, col) != Cell::Empty,
        forall|r: int, c: int|
            on_board(r, c) && !(r == row && c == col) ==> (#[trigger] cell_at(g1, r, c) == Cell::Empty) == (
            cell_at(g2, r, c) == Cell::Empty),
    ensures
        count_in_rows(g2, Cell::Black, n) + count_in_rows(g2, Cell::White, n) == count_in_rows(g1, Cell::Black, n)
            + count_in_rows(g1, Cell::White, n) + (if row < n { 1int } else { 0int }),
    decreases n,
{
    if n > 0 {
        lemma_rows_fill(g1, g2, n - 1, row, col);
        lemma_row_fill(g1, g2, n - 1, 8, row, col);
    }
}

/// A completed move on an empty square adds exactly one disc to the board:
/// the discs it turns over change colour but not number.
pub proof fn lemma_move_adds_one_disc(m: GameModel, row: usize, col: usize)
    requires
        is_grid(m.board),
        on_board(row as int, col as int),
        cell_at(m.board, row as int, col as int) == Cell::Empty,
    ensures
        ({
            let m1 = place_model(m, row, col);
            disc_total(run_animation(m1, m1.pending_flips.len()).board) == disc_total(m.board) + 1
        }),
{
    let p = player_for(m.black_turn);
    let m1 = place_model(m, row, col);
    let f = run_animation(m1, m1.pending_flips.len());
    lemma_move_result(m, row, col);
    assert forall|r: int, c: int| on_board(r, c) && !(r == row && c == col) implies (#[trigger] cell_at(
        m.board,
        r,
        c,
    ) == Cell::Empty) == (cell_at(f.board, r, c) == Cell::Empty) by {
        if flipped_by(m.board, row as int, col as int, p, (r as usize, c as usize)) {
            let k = choose|k: int|
                0 <= k < 8 && (#[trigger] flip_line(m.board, row as int, col as int, p, k)).contains(
                    (r as usize, c as usize),
                );
            lemma_flip_line_holds(m.board, row as int, col as int, p, k);
            let line = flip_line(m.board, row as int, col as int, p, k);
            let i = choose|i: int| 0 <= i < line.len() && #[trigger] line[i] == (r as usize, c as usize);
            assert(cell_at(m.board, r, c) == opponent_of(p));
        }
    }
    lemma_rows_fill(m.board, f.board, 8, row as int, col as int);
}

/// Number of squares `(r, c)` with `c < n` in row `r` for which `pred` holds.
pub open spec fn marked_in_row(pred: spec_fn((usize, usize)) -> bool, r: int, n: int) -> nat
    decreases n,
{
    if n <= 0 {
        0
    } else {
        marked_in_row(pred, r, n - 1) + (if pred((r as usize, (n - 1) as usize)) {
            1nat
        } else {
            0nat
        })
    }
}

/// Number of squares in the first `n` rows for which `pred` holds.
pub open spec fn marked_in_rows(pred: spec_fn((usize, usize)) -> bool, n: int) -> nat
    decreases n,
{
    if n <= 0 {
        0
    } else {
        marked_in_rows(pred, n - 1) + marked_in_row(pred, n - 1, 8)
    }
}

/// The squares that `player` placing at `(row, col)` turns over.
pub open spec fn flipped_pred(g: Seq<Seq<Cell>>, row: int, col: int, player: Cell) -> spec_fn((usize, usize)) -> bool {
    |x: (usize, usize)| flipped_by(g, row, col, player, x)
}

/// Number of discs that `player` placing at `(row, col)` turns over.
pub open spec fn flipped_count(g: Seq<Seq<Cell>>, row: int, col: int, player: Cell) -> nat {
    marked_in_rows(flipped_pred(g, row, col, player), 8)
}

proof fn lemma_row_counts(
    g: Seq<Seq<Cell>>,
    f: Seq<Seq<Cell>>,
    row: int,
    col: int,
    p: Cell,
    r: int,
    n: int,
)
    requires
        0 <= n <= 8,
        0 <= r < 8,
        p != Cell::Empty,
        forall|c: int|
            0 <= c < 8 ==> #[trigger] cell_at(f, r, c) == if (r == row && c == col) || flipped_by(
                g,
                row,
                col,
                p,
                (r as usize, c as usize),
            ) {
                p
            } else {
                cell_at(g, r, c)
            },
        forall|c: int|
            0 <= c < 8 && #[trigger] flipped_by(g, row, col, p, (r as usize, c as usize)) ==> cell_at(g, r, c)
                == opponent_of(p),
        r == row ==> cell_at(g, row, col) == Cell::Empty,
    ensures
        count_in_row(f, p, r, n) == count_in_row(g, p, r, n) + (if r == row && 0 <= col < n { 1int } else { 0int })
            + marked_in_row(flipped_pred(g, row, col, p), r, n),
        count_in_row(f, opponent_of(p), r, n) + marked_in_row(flipped_pred(g, row, col, p), r, n) == count_in_row(
            g,
            opponent_of(p),
            r,
            n,
        ),
    decreases n,
{
    if n > 0 {
        lemma_row_counts(g, f, row, col, p, r, n - 1);
        let c = n - 1;
        let fl = flipped_by(g, row, col, p, (r as usize, c as usize));
        assert(cell_at(f, r, c) == if (r == row && c == col) || fl { p } else { cell_at(g, r, c) });
        if fl {
            assert(cell_at(g, r, c) == opponent_of(p));
        }
    }
}

proof fn lemma_rows_counts(g: Seq<Seq<Cell>>, f: Seq<Seq<Cell>>, row: int, col: int, p: Cell, n: int)
    requires
        0 <= n <= 8,
        on_board(row, col),
        p != Cell::Empty,
        cell_at(g, row, col) == Cell::Empty,
        forall|r: int, c: int|
            on_board(r, c) ==> #[trigger] cell_at(f, r, c) == if (r == row && c == col) || flipped_by(
                g,
                row,
                col,
                p,
                (r as usize, c as usize),
            ) {
                p
            } else {
                cell_at(g, r, c)
            },
        forall|r: int, c: int|
            on_board(r, c) && #[trigger] flipped_by(g, row, col, p, (r as usize, c as usize)) ==> cell_at(g, r, c)
                == opponent_of(p),
    ensures
        count_in_rows(f, p, n) == count_in_rows(g, p, n) + (if row < n { 1int } else { 0int }) + marked_in_rows(flipped_pred(g, row, col, p), n),
        count_in_rows(f, opponent_of(p), n) + marked_in_rows(flipped_pred(g, row, col, p), n) == count_in_rows(
            g,
            opponent_of(p),
            n,
        ),
    decreases n,
{
    if n > 0 {
        lemma_rows_counts(g, f, row, col, p, n - 1);
        let r = n - 1;
        assert forall|c: int| 0 <= c < 8 implies #[trigger] cell_at(f, r, c) == if (r == row && c == col)
            || flipped_by(g, row, col, p, (r as usize, c as usize)) {
            p
        } else {
            cell_at(g, r, c)
        } by {
            assert(on_board(r, c));
        }
        assert forall|c: int|
            0 <= c < 8 && #[trigger] flipped_by(g, row, col, p, (r as usize, c as usize)) implies cell_at(g, r, c)
            == opponent_of(p) by {
            assert(on_board(r, c));
        }
        lemma_row_counts(g, f, row, col, p, r, 8);
    }
}

/// A completed move on an empty square gives the mover one disc more than
/// before plus one for each disc turned over, takes each disc turned over
/// from the opponent, and leaves the score showing these counts. The discs
/// turned over are as many as the waves the move queues list in all.
pub proof fn lemma_move_counts(m: GameModel, row: usize, col: usize)
    requires
        is_grid(m.board),
        on_board(row as int, col as int),
        cell_at(m.board, row as int, col as int) == Cell::Empty,
    ensures
        ({
            let p = player_for(m.black_turn);
            let n = flipped_count(m.board, row as int, col as int, p);
            let m1 = place_model(m, row, col);
            let f = run_animation(m1, m1.pending_flips.len());
            &&& total_len(m1.pending_flips) == n
            &&& disc_count(f.board, p) == disc_count(m.board, p) + 1 + n
            &&& disc_count(f.board, opponent_of(p)) + n == disc_count(m.board, opponent_of(p))
            &&& f.black_count as nat == disc_count(f.board, Cell::Black)
            &&& f.white_count as nat == disc_count(f.board, Cell::White)
        }),
{
    let p = player_for(m.black_turn);
    let m1 = place_model(m, row, col);
    let f = run_animation(m1, m1.pending_flips.len());
    lemma_move_result(m, row, col);
    lemma_run_animation(m1, m1.pending_flips.len());
    lemma_count_bounds(f.board, Cell::Black);
    lemma_count_bounds(f.board, Cell::White);
    assert forall|r: int, c: int|
        on_board(r, c) && #[trigger] flipped_by(m.board, row as int, col as int, p, (r as usize, c as usize))
        implies cell_at(m.board, r, c) == opponent_of(p) by {
        let x = (r as usize, c as usize);
        let k = choose|k: int| 0 <= k < 8 && (#[trigger] flip_line(m.board, row as int, col as int, p, k)).contains(x);
        lemma_flip_line_holds(m.board, row as int, col as int, p, k);
        let line = flip_line(m.board, row as int, col as int, p, k);
        let i = choose|i: int| 0 <= i < line.len() && #[trigger] line[i] == x;
    }
    lemma_rows_counts(m.board, f.board, row as int, col as int, p, 8);
    let b = set_square(m.board, row as int, col as int, p);
    lemma_wave_total(b, row as int, col as int, p);
    assert forall|x: (usize, usize)| x.0 < 8 && x.1 < 8 implies #[trigger] flipped_pred(b, row as int, col as int, p)(x)
        == flipped_pred(m.board, row as int, col as int, p)(x) by {
        if flipped_by(b, row as int, col as int, p, x) {
            let k = choose|k: int| 0 <= k < 8 && (#[trigger] flip_line(b, row as int, col as int, p, k)).contains(x);
            lemma_flip_line_after_placing(m.board, row as int, col as int, p, p, k);
            assert(flip_line(m.board, row as int, col as int, p, k).contains(x));
        }
        if flipped_by(m.board, row as int, col as int, p, x) {
            let k = choose|k: int|
                0 <= k < 8 && (#[trigger] flip_line(m.board, row as int, col as int, p, k)).contains(x);
            lemma_flip_line_after_placing(m.board, row as int, col as int, p, p, k);
            assert(flip_line(b, row as int, col as int, p, k).contains(x));
        }
    }
    lemma_marked_ext(flipped_pred(b, row as int, col as int, p), flipped_pred(m.board, row as int, col as int, p), 8);
}

proof fn lemma_marked_row_split(
    u: spec_fn((usize, usize)) -> bool,
    a: spec_fn((usize, usize)) -> bool,
    b: spec_fn((usize, usize)) -> bool,
    r: int,
    n: int,
)
    requires
        0 <= r < 8,
        0 <= n <= 8,
        forall|x: (usize, usize)| x.0 < 8 && x.1 < 8 ==> #[trigger] u(x) == (a(x) || b(x)),
        forall|x: (usize, usize)| x.0 < 8 && x.1 < 8 ==> !(#[trigger] a(x) && b(x)),
    ensures
        marked_in_row(u, r, n) == marked_in_row(a, r, n) + marked_in_row(b, r, n),
    decreases n,
{
    if n > 0 {
        lemma_marked_row_split(u, a, b, r, n - 1);
        let x = (r as usize, (n - 1) as usize);
        assert(u(x) == (a(x) || b(x)));
        assert(!(a(x) && b(x)));
    }
}

/// Counting squares is additive over a predicate split into two disjoint ones.
proof fn lemma_marked_split(
    u: spec_fn((usize, usize)) -> bool,
    a: spec_fn((usize, usize)) -> bool,
    b: spec_fn((usize, usize)) -> bool,
    n: int,
)
    requires
        0 <= n <= 8,
        forall|x: (usize, usize)| x.0 < 8 && x.1 < 8 ==> #[trigger] u(x) == (a(x) || b(x)),
        forall|x: (usize, usize)| x.0 < 8 && x.1 < 8 ==> !(#[trigger] a(x) && b(x)),
    ensures
        marked_in_rows(u, n) == marked_in_rows(a, n) + marked_in_rows(b, n),
    decreases n,
{
    if n > 0 {
        lemma_marked_split(u, a, b, n - 1);
        lemma_marked_row_split(u, a, b, n - 1, 8);
    }
}

proof fn lemma_marked_row_single(y: (usize, usize), r: int, n: int)
    requires
        0 <= r < 8,
        0 <= n <= 8,
    ensures
        marked_in_row(|x: (usize, usize)| x == y, r, n) == if r == y.0 && y.1 < n { 1int } else { 0int },
    decreases n,
{
    if n > 0 {
        lemma_marked_row_single(y, r, n - 1);
    }
}

/// Exactly one square on the board is the square `y`.
proof fn lemma_marked_single(y: (usize, usize), n: int)
    requires
        0 <= n <= 8,
        y.0 < 8,
        y.1 < 8,
    ensures
        marked_in_rows(|x: (usize, usize)| x == y, n) == if y.0 < n { 1int } else { 0int },
    decreases n,
{
    if n > 0 {
        lemma_marked_single(y, n - 1);
        lemma_marked_row_single(y, n - 1, 8);
    }
}

proof fn lemma_marked_row_ext(a: spec_fn((usize, usize)) -> bool, b: spec_fn((usize, usize)) -> bool, r: int, n: int)
    requires
        0 <= r < 8,
        0 <= n <= 8,
        forall|x: (usize, usize)| x.0 < 8 && x.1 < 8 ==> #[trigger] a(x) == b(x),
    ensures
        marked_in_row(a, r, n) == marked_in_row(b, r, n),
    decreases n,
{
    if n > 0 {
        lemma_marked_row_ext(a, b, r, n - 1);
        assert(a((r as usize, (n - 1) as usize)) == b((r as usize, (n - 1) as usize)));
    }
}

/// Predicates that agree on the board mark as many squares.
proof fn lemma_marked_ext(a: spec_fn((usize, usize)) -> bool, b: spec_fn((usize, usize)) -> bool, n: int)
    requires
        0 <= n <= 8,
        forall|x: (usize, usize)| x.0 < 8 && x.1 < 8 ==> #[trigger] a(x) == b(x),
    ensures
        marked_in_rows(a, n) == marked_in_rows(b, n),
    decreases n,
{
    if n > 0 {
        lemma_marked_ext(a, b, n - 1);
        lemma_marked_row_ext(a, b, n - 1, 8);
    }
}

proof fn lemma_marked_row_none(a: spec_fn((usize, usize)) -> bool, r: int, n: int)
    requires
        0 <= r < 8,
        0 <= n <= 8,
        forall|x: (usize, usize)| x.0 < 8 && x.1 < 8 ==> !#[trigger] a(x),
    ensures
        marked_in_row(a, r, n) == 0,
    decreases n,
{
    if n > 0 {
        lemma_marked_row_none(a, r, n - 1);
        assert(!a((r as usize, (n - 1) as usize)));
    }
}

/// A predicate that holds nowhere on the board marks no square.
proof fn lemma_marked_none(a: spec_fn((usize, usize)) -> bool, n: int)
    requires
        0 <= n <= 8,
        forall|x: (usize, usize)| x.0 < 8 && x.1 < 8 ==> !#[trigger] a(x),
    ensures
        marked_in_rows(a, n) == 0,
    decreases n,
{
    if n > 0 {
        lemma_marked_none(a, n - 1);
        lemma_marked_row_none(a, n - 1, 8);
    }
}

/// A list of distinct squares on the board marks as many squares as it is long.
proof fn lemma_marked_seq(s: Seq<(usize, usize)>)
    requires
        s.no_duplicates(),
        forall|i: int| 0 <= i < s.len() ==> (#[trigger] s[i]).0 < 8 && s[i].1 < 8,
    ensures
        marked_in_rows(|x: (usize, usize)| s.contains(x), 8) == s.len(),
    decreases s.len(),
{
    if s.len() == 0 {
        lemma_marked_none(|x: (usize, usize)| s.contains(x), 8);
    } else {
        let t = s.drop_last();
        let y = s.last();
        assert(t.no_duplicates());
        assert forall|i: int| 0 <= i < t.len() implies (#[trigger] t[i]).0 < 8 && t[i].1 < 8 by {
            assert(t[i] == s[i]);
        }
        lemma_marked_seq(t);
        lemma_marked_single(y, 8);
        assert forall|x: (usize, usize)| x.0 < 8 && x.1 < 8 implies #[trigger] s.contains(x) == (t.contains(x) || x
            == y) by {
            if s.contains(x) {
                let i = choose|i: int| 0 <= i < s.len() && #[trigger] s[i] == x;
                if i < s.len() - 1 {
                    assert(t[i] == x);
                }
            }
            if t.contains(x) {
                let i = choose|i: int| 0 <= i < t.len() && #[trigger] t[i] == x;
                assert(s[i] == x);
            }
            if x == y {
                assert(s[s.len() - 1] == x);
            }
        }
        assert forall|x: (usize, usize)| x.0 < 8 && x.1 < 8 implies !(#[trigger] t.contains(x) && x == y) by {
            if t.contains(x) && x == y {
                let i = choose|i: int| 0 <= i < t.len() && #[trigger] t[i] == x;
                assert(s[i] == s[s.len() - 1]);
            }
        }
        lemma_marked_split(
            |x: (usize, usize)| s.contains(x),
            |x: (usize, usize)| t.contains(x),
            |x: (usize, usize)| x == y,
            8,
        );
    }
}

/// The squares a walk passes are distinct, and each lies ahead of the square
/// the walk steps from.
proof fn lemma_run_cells_ahead(g: Seq<Seq<Cell>>, a: int, b: int, dr: int, dc: int, opp: Cell)
    requires
        unit_dir(dr, dc),
    ensures
        run_cells(g, a, b, dr, dc, opp).no_duplicates(),
        forall|i: int|
            0 <= i < run_cells(g, a, b, dr, dc, opp).len() ==> {
                let x = #[trigger] run_cells(g, a, b, dr, dc, opp)[i];
                &&& on_board(x.0 as int, x.1 as int)
                &&& ahead(a - dr, b - dc, x.0 as int, x.1 as int, dr, dc)
            },
    decreases steps_left(a, b, dr, dc),
{
    if on_board(a, b) && cell_at(g, a, b) == opp {
        lemma_run_cells_ahead(g, a + dr, b + dc, dr, dc, opp);
        let rest = run_cells(g, a + dr, b + dc, dr, dc, opp);
        let all = run_cells(g, a, b, dr, dc, opp);
        assert(all == seq![(a as usize, b as usize)] + rest);
        assert forall|i: int| 0 <= i < all.len() implies {
            let x = #[trigger] all[i];
            &&& on_board(x.0 as int, x.1 as int)
            &&& ahead(a - dr, b - dc, x.0 as int, x.1 as int, dr, dc)
        } by {
            if i > 0 {
                assert(all[i] == rest[i - 1]);
            }
        }
        assert forall|i: int, j: int| 0 <= i < all.len() && 0 <= j < all.len() && i != j implies all[i] != all[j] by {
            if i > 0 && j > 0 {
                assert(all[i] == rest[i - 1]);
                assert(all[j] == rest[j - 1]);
            } else if i == 0 {
                assert(all[j] == rest[j - 1]);
            } else {
                assert(all[i] == rest[i - 1]);
            }
        }
    }
}

/// Each flip line lists distinct squares on the board, each ahead of `(row, col)`
/// in its direction.
proof fn lemma_flip_line_ahead(g: Seq<Seq<Cell>>, row: int, col: int, player: Cell, k: int)
    requires
        0 <= k < 8,
    ensures
        flip_line(g, row, col, player, k).no_duplicates(),
        forall|i: int|
            0 <= i < flip_line(g, row, col, player, k).len() ==> {
                let x = #[trigger] flip_line(g, row, col, player, k)[i];
                &&& x.0 < 8 && x.1 < 8
                &&& ahead(row, col, x.0 as int, x.1 as int, dir_row(k), dir_col(k))
            },
{
    lemma_run_cells_ahead(g, row + dir_row(k), col + dir_col(k), dir_row(k), dir_col(k), opponent_of(player));
}

/// Flip lines in different directions share no square.
proof fn lemma_flip_lines_disjoint(g: Seq<Seq<Cell>>, row: int, col: int, player: Cell, k: int, j: int, x: (usize, usize))
    requires
        0 <= k < 8,
        0 <= j < 8,
        k != j,
    ensures
        !(flip_line(g, row, col, player, k).contains(x) && flip_line(g, row, col, player, j).contains(x)),
{
    if flip_line(g, row, col, player, k).contains(x) && flip_line(g, row, col, player, j).contains(x) {
        lemma_flip_line_ahead(g, row, col, player, k);
        lemma_flip_line_ahead(g, row, col, player, j);
        let lk = flip_line(g, row, col, player, k);
        let lj = flip_line(g, row, col, player, j);
        let a = choose|a: int| 0 <= a < lk.len() && #[trigger] lk[a] == x;
        let b = choose|b: int| 0 <= b < lj.len() && #[trigger] lj[b] == x;
        assert(ahead(row, col, x.0 as int, x.1 as int, dir_row(k), dir_col(k)));
        assert(ahead(row, col, x.0 as int, x.1 as int, dir_row(j), dir_col(j)));
    }
}

/// Sum of the lengths of the flip lines in the first `n` directions.
pub open spec fn lines_len(g: Seq<Seq<Cell>>, row: int, col: int, player: Cell, n: int) -> nat
    decreases n,
{
    if n <= 0 {
        0
    } else {
        lines_len(g, row, col, player, n - 1) + flip_line(g, row, col, player, n - 1).len()
    }
}

/// The squares on some flip line among the first `n` directions.
pub open spec fn lines_pred(g: Seq<Seq<Cell>>, row: int, col: int, player: Cell, n: int) -> spec_fn((usize, usize)) -> bool {
    |x: (usize, usize)| exists|k: int| 0 <= k < n && (#[trigger] flip_line(g, row, col, player, k)).contains(x)
}

/// The flip lines of the first `n` directions cover as many squares as they are long together.
proof fn lemma_lines_marked(g: Seq<Seq<Cell>>, row: int, col: int, player: Cell, n: int)
    requires
        0 <= n <= 8,
    ensures
        marked_in_rows(lines_pred(g, row, col, player, n), 8) == lines_len(g, row, col, player, n),
    decreases n,
{
    if n == 0 {
        lemma_marked_none(lines_pred(g, row, col, player, n), 8);
    } else {
        lemma_lines_marked(g, row, col, player, n - 1);
        let line = flip_line(g, row, col, player, n - 1);
        lemma_flip_line_ahead(g, row, col, player, n - 1);
        lemma_marked_seq(line);
        assert forall|x: (usize, usize)| x.0 < 8 && x.1 < 8 implies #[trigger] lines_pred(g, row, col, player, n)(x)
            == (lines_pred(g, row, col, player, n - 1)(x) || line.contains(x)) by {
            if lines_pred(g, row, col, player, n)(x) {
                let k = choose|k: int| 0 <= k < n && (#[trigger] flip_line(g, row, col, player, k)).contains(x);
                if k < n - 1 {
                    assert(lines_pred(g, row, col, player, n - 1)(x));
                }
            }
            if lines_pred(g, row, col, player, n - 1)(x) {
                let k = choose|k: int| 0 <= k < n - 1 && (#[trigger] flip_line(g, row, col, player, k)).contains(x);
                assert(lines_pred(g, row, col, player, n)(x));
            }
            if line.contains(x) {
                assert(flip_line(g, row, col, player, n - 1).contains(x));
            }
        }
        assert forall|x: (usize, usize)| x.0 < 8 && x.1 < 8 implies !(#[trigger] lines_pred(g, row, col, player, n - 1)(x)
            && line.contains(x)) by {
            if lines_pred(g, row, col, player, n - 1)(x) && line.contains(x) {
                let k = choose|k: int| 0 <= k < n - 1 && (#[trigger] flip_line(g, row, col, player, k)).contains(x);
                lemma_flip_lines_disjoint(g, row, col, player, k, n - 1, x);
            }
        }
        lemma_marked_split(
            lines_pred(g, row, col, player, n),
            lines_pred(g, row, col, player, n - 1),
            |x: (usize, usize)| line.contains(x),
            8,
        );
    }
}

/// Total number of squares listed in `ws`.
pub open spec fn total_len(ws: Seq<Seq<(usize, usize)>>) -> nat
    decreases ws.len(),
{
    if ws.len() == 0 {
        0
    } else {
        total_len(ws.drop_last()) + ws.last().len()
    }
}

/// Total length of the first `l` waves over the first `n` directions.
spec fn waves_upto(g: Seq<Seq<Cell>>, row: int, col: int, player: Cell, l: int, n: int) -> nat
    decreases l,
{
    if l <= 0 {
        0
    } else {
        waves_upto(g, row, col, player, l - 1, n) + wave_of(g, row, col, player, l - 1, n).len()
    }
}

/// Sum over the first `n` directions of the flip line's length, cut at `l`.
spec fn cut_lines_len(g: Seq<Seq<Cell>>, row: int, col: int, player: Cell, l: int, n: int) -> nat
    decreases n,
{
    if n <= 0 {
        0
    } else {
        let len = flip_line(g, row, col, player, n - 1).len();
        cut_lines_len(g, row, col, player, l, n - 1) + (if len < l { len } else { l as nat })
    }
}

proof fn lemma_waves_upto_step(g: Seq<Seq<Cell>>, row: int, col: int, player: Cell, l: int, n: int)
    requires
        0 <= l,
        1 <= n,
    ensures
        waves_upto(g, row, col, player, l, n) == waves_upto(g, row, col, player, l, n - 1) + ({
            let len = flip_line(g, row, col, player, n - 1).len();
            if len < l { len } else { l as nat }
        }),
    decreases l,
{
    if l > 0 {
        lemma_waves_upto_step(g, row, col, player, l - 1, n);
    }
}

proof fn lemma_waves_upto_cut(g: Seq<Seq<Cell>>, row: int, col: int, player: Cell, l: int, n: int)
    requires
        0 <= l,
        0 <= n,
    ensures
        waves_upto(g, row, col, player, l, n) == cut_lines_len(g, row, col, player, l, n),
    decreases n, l,
{
    if n == 0 {
        if l > 0 {
            lemma_waves_upto_cut(g, row, col, player, l - 1, n);
        }
    } else {
        lemma_waves_upto_step(g, row, col, player, l, n);
        lemma_waves_upto_cut(g, row, col, player, l, n - 1);
    }
}

proof fn lemma_cut_lines_len(g: Seq<Seq<Cell>>, row: int, col: int, player: Cell, l: int, n: int)
    requires
        0 <= n,
        l >= longest_line(g, row, col, player, n),
    ensures
        cut_lines_len(g, row, col, player, l, n) == lines_len(g, row, col, player, n),
    decreases n,
{
    if n > 0 {
        lemma_longest_line(g, row, col, player, n);
        assert(flip_line(g, row, col, player, n - 1).len() <= longest_line(g, row, col, player, n));
        lemma_cut_lines_len(g, row, col, player, l, n - 1);
    }
}

proof fn lemma_total_len_waves(g: Seq<Seq<Cell>>, row: int, col: int, player: Cell, ws: Seq<Seq<(usize, usize)>>)
    requires
        forall|i: int| 0 <= i < ws.len() ==> #[trigger] ws[i] == wave_of(g, row, col, player, i, 8),
    ensures
        total_len(ws) == waves_upto(g, row, col, player, ws.len() as int, 8),
    decreases ws.len(),
{
    if ws.len() > 0 {
        let t = ws.drop_last();
        assert forall|i: int| 0 <= i < t.len() implies #[trigger] t[i] == wave_of(g, row, col, player, i, 8) by {
            assert(t[i] == ws[i]);
        }
        lemma_total_len_waves(g, row, col, player, t);
        assert(ws.last() == ws[ws.len() - 1]);
    }
}

/// The waves of a move list as many squares in all as the move turns over.
pub proof fn lemma_wave_total(g: Seq<Seq<Cell>>, row: int, col: int, player: Cell)
    ensures
        total_len(flip_waves(g, row, col, player)) == flipped_count(g, row, col, player),
{
    let ws = flip_waves(g, row, col, player);
    let l = ws.len() as int;
    lemma_total_len_waves(g, row, col, player, ws);
    lemma_waves_upto_cut(g, row, col, player, l, 8);
    lemma_cut_lines_len(g, row, col, player, l, 8);
    lemma_lines_marked(g, row, col, player, 8);
    assert forall|x: (usize, usize)| x.0 < 8 && x.1 < 8 implies #[trigger] flipped_pred(g, row, col, player)(x)
        == lines_pred(g, row, col, player, 8)(x) by {
    }
    lemma_marked_ext(flipped_pred(g, row, col, player), lines_pred(g, row, col, player, 8), 8);
}

/// The square `d` steps from `(row, col)` in direction `(dr, dc)`.
pub open spec fn along(row: int, col: int, dr: int, dc: int, d: int) -> (int, int)
    decreases d,
{
    if d <= 0 {
        (row, col)
    } else {
        let p = along(row, col, dr, dc, d - 1);
        (p.0 + dr, p.1 + dc)
    }
}

/// Seen from `(row, col)` in direction `(dr, dc)`, the next `d` squares (at
/// least one) hold discs of the opponent of `player` and the square after
/// them holds a disc of `player`.
pub open spec fn closed_run(g: Seq<Seq<Cell>>, row: int, col: int, player: Cell, dr: int, dc: int, d: int) -> bool {
    &&& unit_dir(dr, dc)
    &&& d >= 1
    &&& forall|i: int|
        1 <= i <= d ==> on_board(#[trigger] along(row, col, dr, dc, i).0, along(row, col, dr, dc, i).1)
            && cell_at(g, along(row, col, dr, dc, i).0, along(row, col, dr, dc, i).1) == opponent_of(player)
    &&& on_board(along(row, col, dr, dc, d + 1).0, along(row, col, dr, dc, d + 1).1)
    &&& cell_at(g, along(row, col, dr, dc, d + 1).0, along(row, col, dr, dc, d + 1).1) == player
}

/// `(r, c)` as a square index.
pub open spec fn sq(p: (int, int)) -> (usize, usize) {
    (p.0 as usize, p.1 as usize)
}

/// A walk that starts `s + 1` steps out passes the squares `s + 1, s + 2, ...`
/// in order, all holding `opp`, and stops on the first square after them that
/// is off the board or does not hold `opp`.
proof fn lemma_walk(g: Seq<Seq<Cell>>, row: int, col: int, dr: int, dc: int, opp: Cell, s: int)
    requires
        unit_dir(dr, dc),
        s >= 0,
    ensures
        ({
            let st = along(row, col, dr, dc, s + 1);
            let cells = run_cells(g, st.0, st.1, dr, dc, opp);
            let n = cells.len() as int;
            &&& forall|i: int|
                0 <= i < n ==> {
                    let q = #[trigger] along(row, col, dr, dc, s + 1 + i);
                    &&& cells[i] == sq(q)
                    &&& on_board(q.0, q.1)
                    &&& cell_at(g, q.0, q.1) == opp
                }
            &&& run_end(g, st.0, st.1, dr, dc, opp) == along(row, col, dr, dc, s + 1 + n)
            &&& !(on_board(along(row, col, dr, dc, s + 1 + n).0, along(row, col, dr, dc, s + 1 + n).1)
                && cell_at(g, along(row, col, dr, dc, s + 1 + n).0, along(row, col, dr, dc, s + 1 + n).1) == opp)
        }),
    decreases steps_left(along(row, col, dr, dc, s + 1).0, along(row, col, dr, dc, s + 1).1, dr, dc),
{
    let st = along(row, col, dr, dc, s + 1);
    let nx = along(row, col, dr, dc, s + 2);
    assert(nx == (st.0 + dr, st.1 + dc));
    if on_board(st.0, st.1) && cell_at(g, st.0, st.1) == opp {
        lemma_walk(g, row, col, dr, dc, opp, s + 1);
        let cells = run_cells(g, st.0, st.1, dr, dc, opp);
        let rest = run_cells(g, nx.0, nx.1, dr, dc, opp);
        assert(cells == seq![sq(st)] + rest);
        assert forall|i: int| 0 <= i < cells.len() implies {
            let q = #[trigger] along(row, col, dr, dc, s + 1 + i);
            &&& cells[i] == sq(q)
            &&& on_board(q.0, q.1)
            &&& cell_at(g, q.0, q.1) == opp
        } by {
            if i > 0 {
                assert(cells[i] == rest[i - 1]);
                assert(along(row, col, dr, dc, s + 1 + 1 + (i - 1)) == along(row, col, dr, dc, s + 1 + i));
            }
        }
        assert(s + 1 + 1 + rest.len() == s + 1 + cells.len());
    } else {
        assert(run_cells(g, st.0, st.1, dr, dc, opp).len() == 0);
    }
}

/// The index of the compass step `(dr, dc)` among the eight directions.
pub open spec fn dir_index(dr: int, dc: int) -> int {
    if dr == -1 {
        dc + 1
    } else if dr == 0 {
        if dc == -1 { 3 } else { 4 }
    } else {
        dc + 6
    }
}

proof fn lemma_dir_index(dr: int, dc: int)
    requires
        unit_dir(dr, dc),
    ensures
        0 <= dir_index(dr, dc) < 8,
        dir_row(dir_index(dr, dc)) == dr,
        dir_col(dir_index(dr, dc)) == dc,
{
}

/// A non-empty flip line is a closed run, listed square by square from the
/// nearest.
proof fn lemma_flip_line_is_closed_run(g: Seq<Seq<Cell>>, row: int, col: int, player: Cell, k: int)
    requires
        0 <= k < 8,
        flip_line(g, row, col, player, k).len() > 0,
    ensures
        closed_run(g, row, col, player, dir_row(k), dir_col(k), flip_line(g, row, col, player, k).len() as int),
        forall|i: int|
            0 <= i < flip_line(g, row, col, player, k).len() ==> #[trigger] flip_line(g, row, col, player, k)[i]
                == sq(along(row, col, dir_row(k), dir_col(k), i + 1)),
{
    let dr = dir_row(k);
    let dc = dir_col(k);
    let opp = opponent_of(player);
    lemma_walk(g, row, col, dr, dc, opp, 0);
    assert(along(row, col, dr, dc, 0) == (row, col));
    assert(along(row, col, dr, dc, 1) == (row + dr, col + dc));
    let line = flip_line(g, row, col, player, k);
    let n = line.len() as int;
    assert forall|i: int| 1 <= i <= n implies on_board(#[trigger] along(row, col, dr, dc, i).0, along(row, col, dr, dc, i).1)
        && cell_at(g, along(row, col, dr, dc, i).0, along(row, col, dr, dc, i).1) == opp by {
        assert(along(row, col, dr, dc, 0 + 1 + (i - 1)) == along(row, col, dr, dc, i));
    }
    assert forall|i: int| 0 <= i < n implies #[trigger] line[i] == sq(along(row, col, dr, dc, i + 1)) by {
        assert(along(row, col, dr, dc, 0 + 1 + i) == along(row, col, dr, dc, i + 1));
    }
}

/// The flip line in the direction of a closed run of `d` discs is that run,
/// square by square from the nearest.
proof fn lemma_closed_run_is_flip_line(g: Seq<Seq<Cell>>, row: int, col: int, player: Cell, dr: int, dc: int, d: int)
    requires
        player != Cell::Empty,
        closed_run(g, row, col, player, dr, dc, d),
    ensures
        flip_line(g, row, col, player, dir_index(dr, dc)).len() == d,
        forall|i: int|
            0 <= i < d ==> #[trigger] flip_line(g, row, col, player, dir_index(dr, dc))[i] == sq(
                along(row, col, dr, dc, i + 1),
            ),
{
    let k = dir_index(dr, dc);
    lemma_dir_index(dr, dc);
    let opp = opponent_of(player);
    lemma_walk(g, row, col, dr, dc, opp, 0);
    assert(along(row, col, dr, dc, 0) == (row, col));
    assert(along(row, col, dr, dc, 1) == (row + dr, col + dc));
    let cells = run_cells(g, row + dr, col + dc, dr, dc, opp);
    let n = cells.len() as int;
    if n < d {
        assert(on_board(along(row, col, dr, dc, 1 + n).0, along(row, col, dr, dc, 1 + n).1));
    }
    if n > d {
        assert(along(row, col, dr, dc, 0 + 1 + d) == along(row, col, dr, dc, d + 1));
    }
    assert(n == d);
    assert(along(row, col, dr, dc, 0 + 1 + n) == along(row, col, dr, dc, d + 1));
    assert forall|i: int| 0 <= i < d implies #[trigger] flip_line(g, row, col, player, k)[i] == sq(
        along(row, col, dr, dc, i + 1),
    ) by {
        assert(along(row, col, dr, dc, 0 + 1 + i) == along(row, col, dr, dc, i + 1));
    }
}

/// The square `i` steps from `(row, col)` in direction `(dr, dc)` is in wave
/// `i - 1` of the move at `(row, col)`.
pub open spec fn in_wave(g: Seq<Seq<Cell>>, row: int, col: int, player: Cell, dr: int, dc: int, i: int) -> bool {
    &&& 0 <= i - 1 < flip_waves(g, row, col, player).len()
    &&& flip_waves(g, row, col, player)[i - 1].contains(sq(along(row, col, dr, dc, i)))
}

proof fn lemma_closed_run_in_waves(g: Seq<Seq<Cell>>, row: int, col: int, player: Cell, dr: int, dc: int, d: int, i: int)
    requires
        player != Cell::Empty,
        closed_run(g, row, col, player, dr, dc, d),
        1 <= i <= d,
    ensures
        i - 1 < flip_waves(g, row, col, player).len(),
        flip_waves(g, row, col, player)[i - 1].contains(sq(along(row, col, dr, dc, i))),
{
    let ws = flip_waves(g, row, col, player);
    lemma_longest_line(g, row, col, player, 8);
    lemma_closed_run_is_flip_line(g, row, col, player, dr, dc, d);
    lemma_dir_index(dr, dc);
    let k = dir_index(dr, dc);
    let x = sq(along(row, col, dr, dc, i));
    assert(flip_line(g, row, col, player, k)[i - 1] == x);
    assert(flip_line(g, row, col, player, k).len() <= longest_line(g, row, col, player, 8));
    lemma_wave_of_contains(g, row, col, player, i - 1, 8, x);
    assert(ws[i - 1] == wave_of(g, row, col, player, i - 1, 8));
}

/// Every disc of a closed run is turned over, in the wave of its distance:
/// the `i`-th disc of the run (from 1) is in wave `i - 1`. And every disc in a
/// wave is the `j + 1`-th disc of some closed run, `j` being the wave's index.
pub proof fn lemma_waves_are_closed_runs(g: Seq<Seq<Cell>>, row: int, col: int, player: Cell)
    requires
        player != Cell::Empty,
    ensures
        forall|dr: int, dc: int, d: int, i: int|
            #[trigger] closed_run(g, row, col, player, dr, dc, d) && 1 <= i <= d ==> #[trigger] in_wave(
                g,
                row,
                col,
                player,
                dr,
                dc,
                i,
            ),
        forall|j: int, x: (usize, usize)|
            0 <= j < flip_waves(g, row, col, player).len() && #[trigger] flip_waves(g, row, col, player)[j].contains(x)
                ==> exists|dr: int, dc: int, d: int|
                #[trigger] closed_run(g, row, col, player, dr, dc, d) && j + 1 <= d && x == sq(along(row, col, dr, dc, j + 1)),
{
    let ws = flip_waves(g, row, col, player);
    lemma_longest_line(g, row, col, player, 8);
    assert forall|dr: int, dc: int, d: int, i: int|
        #[trigger] closed_run(g, row, col, player, dr, dc, d) && 1 <= i <= d implies #[trigger] in_wave(
            g,
            row,
            col,
            player,
            dr,
            dc,
            i,
        ) by {
        lemma_closed_run_in_waves(g, row, col, player, dr, dc, d, i);
    }
    assert forall|j: int, x: (usize, usize)|
        0 <= j < ws.len() && #[trigger] ws[j].contains(x) implies exists|dr: int, dc: int, d: int|
        #[trigger] closed_run(g, row, col, player, dr, dc, d) && j + 1 <= d && x == sq(along(row, col, dr, dc, j + 1)) by {
        assert(ws[j] == wave_of(g, row, col, player, j, 8));
        lemma_wave_of_contains(g, row, col, player, j, 8, x);
        let k = choose|k: int|
            0 <= k < 8 && 0 <= j < (#[trigger] flip_line(g, row, col, player, k)).len()
                && flip_line(g, row, col, player, k)[j] == x;
        lemma_flip_line_is_closed_run(g, row, col, player, k);
        let d = flip_line(g, row, col, player, k).len() as int;
        assert(closed_run(g, row, col, player, dir_row(k), dir_col(k), d));
    }
}

/// A move turns over some disc exactly when, in one of the eight directions,
/// a closed run of opposing discs starts next to it.
pub proof fn lemma_flips_iff_closed_run(g: Seq<Seq<Cell>>, row: int, col: int, player: Cell)
    requires
        player != Cell::Empty,
    ensures
        flips_somewhere(g, row, col, player) <==> exists|dr: int, dc: int, d: int|
            #[trigger] closed_run(g, row, col, player, dr, dc, d),
{
    if flips_somewhere(g, row, col, player) {
        let k = choose|k: int| 0 <= k < 8 && (#[trigger] flip_line(g, row, col, player, k)).len() > 0;
        lemma_flip_line_is_closed_run(g, row, col, player, k);
        let d = flip_line(g, row, col, player, k).len() as int;
        assert(closed_run(g, row, col, player, dir_row(k), dir_col(k), d));
    }
    if exists|dr: int, dc: int, d: int| #[trigger] closed_run(g, row, col, player, dr, dc, d) {
        let (dr, dc, d) = choose|dr: int, dc: int, d: int| #[trigger] closed_run(g, row, col, player, dr, dc, d);
        lemma_closed_run_is_flip_line(g, row, col, player, dr, dc, d);
        lemma_dir_index(dr, dc);
        assert(flip_line(g, row, col, player, dir_index(dr, dc)).len() > 0);
    }
}

/// The legal moves of a player are exactly the empty squares on the board
/// next to which, in one of the eight directions, a closed run of opposing
/// discs starts.
pub proof fn lemma_legal_moves_are_closed_runs(g: Seq<Seq<Cell>>, player: Cell)
    requires
        player != Cell::Empty,
    ensures
        forall|x: (usize, usize)|
            #[trigger] legal_moves(g, player).contains(x) <==> {
                &&& on_board(x.0 as int, x.1 as int)
                &&& cell_at(g, x.0 as int, x.1 as int) == Cell::Empty
                &&& exists|dr: int, dc: int, d: int| #[trigger] closed_run(g, x.0 as int, x.1 as int, player, dr, dc, d)
            },
{
    lemma_legal_moves_contains(g, player);
    assert forall|x: (usize, usize)|
        #[trigger] legal_moves(g, player).contains(x) <==> {
            &&& on_board(x.0 as int, x.1 as int)
            &&& cell_at(g, x.0 as int, x.1 as int) == Cell::Empty
            &&& exists|dr: int, dc: int, d: int| #[trigger] closed_run(g, x.0 as int, x.1 as int, player, dr, dc, d)
        } by {
        lemma_flips_iff_closed_run(g, x.0 as int, x.1 as int, player);
    }
}

/// Move `i` of `moves` weighs at least as much as every move, and more than
/// every later one.
pub open spec fn heaviest_last(moves: Seq<(usize, usize)>, i: int) -> bool {
    &&& 0 <= i < moves.len()
    &&& forall|j: int|
        0 <= j < moves.len() ==> weight(#[trigger] moves[j].0 as int, moves[j].1 as int) <= weight(
            moves[i].0 as int,
            moves[i].1 as int,
        )
    &&& forall|j: int|
        i < j < moves.len() ==> weight(#[trigger] moves[j].0 as int, moves[j].1 as int) < weight(
            moves[i].0 as int,
            moves[i].1 as int,
        )
}

/// The bot plays one of White's legal moves, none of White's legal moves
/// weighs more, and every legal move after it in reading order weighs less;
/// without a legal move it changes nothing.
pub proof fn lemma_bot_move_choice(m: GameModel)
    ensures
        legal_moves(m.board, Cell::White).len() == 0 ==> bot_move_model(m) == m,
        legal_moves(m.board, Cell::White).len() > 0 ==> exists|i: int|
            #[trigger] heaviest_last(legal_moves(m.board, Cell::White), i) && bot_move_model(m) == place_model(
                m,
                legal_moves(m.board, Cell::White)[i].0,
                legal_moves(m.board, Cell::White)[i].1,
            ),
{
    let moves = legal_moves(m.board, Cell::White);
    if moves.len() > 0 {
        lemma_best_index(moves, moves.len() as int);
        let i = best_index(moves, moves.len() as int);
        assert(heaviest_last(moves, i));
        assert(bot_move_model(m) == place_model(m, moves[i].0, moves[i].1));
    }
}

/// A request to play a square that is not on offer changes only the message,
/// which says the move is invalid; a square on offer is played.
pub proof fn lemma_try_place_refuses(m: GameModel, row: usize, col: usize)
    ensures
        !m.valid_moves.contains((row, col)) ==> try_place_model(m, row, col) == (GameModel {
            status: Status::InvalidMove,
            ..m
        }),
        m.valid_moves.contains((row, col)) ==> try_place_model(m, row, col) == place_model(m, row, col),
{
}

/// Every square holds a black disc, a white disc or nothing: the three
/// counts add up to the 64 squares.
pub proof fn lemma_counts_partition(g: Seq<Seq<Cell>>)
    ensures
        disc_count(g, Cell::Black) + disc_count(g, Cell::White) + disc_count(g, Cell::Empty) == 64,
{
    lemma_rows_partition(g, 8);
}

proof fn lemma_row_partition(g: Seq<Seq<Cell>>, r: int, n: int)
    requires
        0 <= n,
    ensures
        count_in_row(g, Cell::Black, r, n) + count_in_row(g, Cell::White, r, n) + count_in_row(g, Cell::Empty, r, n) == n,
    decreases n,
{
    if n > 0 {
        lemma_row_partition(g, r, n - 1);
    }
}

proof fn lemma_rows_partition(g: Seq<Seq<Cell>>, n: int)
    requires
        0 <= n,
    ensures
        count_in_rows(g, Cell::Black, n) + count_in_rows(g, Cell::White, n) + count_in_rows(g, Cell::Empty, n) == 8 * n,
    decreases n,
{
    if n > 0 {
        lemma_rows_partition(g, n - 1);
        lemma_row_partition(g, n - 1, 8);
    }
}

/// A square is turned over by a move exactly when it is on a closed run of
/// opposing discs next to the move.
pub proof fn lemma_flipped_by_closed_run(g: Seq<Seq<Cell>>, row: int, col: int, player: Cell, x: (usize, usize))
    requires
        player != Cell::Empty,
    ensures
        flipped_by(g, row, col, player, x) <==> exists|dr: int, dc: int, d: int, i: int|
            #[trigger] closed_run(g, row, col, player, dr, dc, d) && 1 <= i <= d && x == sq(#[trigger] along(row, col, dr, dc, i)),
{
    if flipped_by(g, row, col, player, x) {
        let k = choose|k: int| 0 <= k < 8 && (#[trigger] flip_line(g, row, col, player, k)).contains(x);
        let line = flip_line(g, row, col, player, k);
        let j = choose|j: int| 0 <= j < line.len() && #[trigger] line[j] == x;
        lemma_flip_line_is_closed_run(g, row, col, player, k);
        assert(closed_run(g, row, col, player, dir_row(k), dir_col(k), line.len() as int));
        assert(x == sq(along(row, col, dir_row(k), dir_col(k), j + 1)));
    }
    if exists|dr: int, dc: int, d: int, i: int|
        #[trigger] closed_run(g, row, col, player, dr, dc, d) && 1 <= i <= d && x == sq(#[trigger] along(row, col, dr, dc, i)) {
        let (dr, dc, d, i) = choose|dr: int, dc: int, d: int, i: int|
            #[trigger] closed_run(g, row, col, player, dr, dc, d) && 1 <= i <= d && x == sq(#[trigger] along(row, col, dr, dc, i));
        lemma_closed_run_is_flip_line(g, row, col, player, dr, dc, d);
        lemma_dir_index(dr, dc);
        let k = dir_index(dr, dc);
        assert(flip_line(g, row, col, player, k)[i - 1] == x);
        assert(flip_line(g, row, col, player, k).contains(x));
    }
}

/// The direction that item `a` of wave `i` over the first `n` directions comes from.
spec fn wave_dir(g: Seq<Seq<Cell>>, row: int, col: int, player: Cell, i: int, n: int, a: int) -> int
    decreases n,
{
    if n <= 0 {
        0
    } else if a < wave_of(g, row, col, player, i, n - 1).len() {
        wave_dir(g, row, col, player, i, n - 1, a)
    } else {
        n - 1
    }
}

proof fn lemma_wave_dir(g: Seq<Seq<Cell>>, row: int, col: int, player: Cell, i: int, n: int)
    requires
        0 <= n <= 8,
    ensures
        forall|a: int|
            0 <= a < wave_of(g, row, col, player, i, n).len() ==> {
                let k = #[trigger] wave_dir(g, row, col, player, i, n, a);
                &&& 0 <= k < n
                &&& 0 <= i < flip_line(g, row, col, player, k).len()
                &&& wave_of(g, row, col, player, i, n)[a] == flip_line(g, row, col, player, k)[i]
            },
        forall|a: int, b: int|
            0 <= a < b < wave_of(g, row, col, player, i, n).len() ==> #[trigger] wave_dir(g, row, col, player, i, n, a)
                < #[trigger] wave_dir(g, row, col, player, i, n, b),
    decreases n,
{
    if n > 0 {
        lemma_wave_dir(g, row, col, player, i, n - 1);
        let prev = wave_of(g, row, col, player, i, n - 1);
        let w = wave_of(g, row, col, player, i, n);
        assert forall|a: int| 0 <= a < w.len() implies {
            let k = #[trigger] wave_dir(g, row, col, player, i, n, a);
            &&& 0 <= k < n
            &&& 0 <= i < flip_line(g, row, col, player, k).len()
            &&& w[a] == flip_line(g, row, col, player, k)[i]
        } by {
            if a < prev.len() {
                assert(w[a] == prev[a]);
                assert(wave_dir(g, row, col, player, i, n, a) == wave_dir(g, row, col, player, i, n - 1, a));
            }
        }
        assert forall|a: int, b: int| 0 <= a < b < w.len() implies #[trigger] wave_dir(g, row, col, player, i, n, a)
            < #[trigger] wave_dir(g, row, col, player, i, n, b) by {
            if b < prev.len() {
                assert(wave_dir(g, row, col, player, i, n, a) == wave_dir(g, row, col, player, i, n - 1, a));
                assert(wave_dir(g, row, col, player, i, n, b) == wave_dir(g, row, col, player, i, n - 1, b));
            } else {
                assert(wave_dir(g, row, col, player, i, n, a) == wave_dir(g, row, col, player, i, n - 1, a));
            }
        }
    }
}

/// Item `a` of wave `j` is the disc `j + 1` steps away in direction `k`.
pub open spec fn wave_item_from(g: Seq<Seq<Cell>>, row: int, col: int, player: Cell, j: int, a: int, k: int) -> bool {
    flip_waves(g, row, col, player)[j][a] == sq(along(row, col, dir_row(k), dir_col(k), j + 1))
}

/// Items `a` and `b` of wave `j` come from directions in that order.
pub open spec fn in_direction_order(g: Seq<Seq<Cell>>, row: int, col: int, player: Cell, j: int, a: int, b: int) -> bool {
    exists|k1: int, k2: int|
        0 <= k1 < k2 < 8 && #[trigger] wave_item_from(g, row, col, player, j, a, k1)
            && #[trigger] wave_item_from(g, row, col, player, j, b, k2)
}

/// Within a wave the discs come in direction order (NW, N, NE, W, E, SW, S,
/// SE): of two discs of wave `j`, the earlier is `j + 1` steps away in an
/// earlier direction than the later one.
pub proof fn lemma_wave_direction_order(g: Seq<Seq<Cell>>, row: int, col: int, player: Cell)
    ensures
        forall|j: int, a: int, b: int|
            0 <= j < flip_waves(g, row, col, player).len() && 0 <= a < b < flip_waves(g, row, col, player)[j].len()
                ==> #[trigger] in_direction_order(g, row, col, player, j, a, b),
{
    assert forall|j: int, a: int, b: int|
        0 <= j < flip_waves(g, row, col, player).len() && 0 <= a < b < flip_waves(g, row, col, player)[j].len()
            implies #[trigger] in_direction_order(g, row, col, player, j, a, b) by {
        let ws = flip_waves(g, row, col, player);
        assert(ws[j] == wave_of(g, row, col, player, j, 8));
        lemma_wave_dir(g, row, col, player, j, 8);
        let k1 = wave_dir(g, row, col, player, j, 8, a);
        let k2 = wave_dir(g, row, col, player, j, 8, b);
        lemma_flip_line_is_closed_run(g, row, col, player, k1);
        lemma_flip_line_is_closed_run(g, row, col, player, k2);
        assert(wave_item_from(g, row, col, player, j, a, k1));
        assert(wave_item_from(g, row, col, player, j, b, k2));
    }
}

/// Keys do nothing while flips are shown or while the bot is to move in a
/// running game. On the human's turn the arrows move the cursor one square in
/// their direction, not past the edge, and change nothing else; Enter and
/// space ask to play the square under the cursor; R starts a new game.
pub proof fn lemma_keys(m: GameModel, key: Key, term_size: (u16, u16))
    ensures
        m.animating ==> handle_key_model(m, key, term_size) == m,
        !m.animating && !m.game_over && !m.black_turn ==> handle_key_model(m, key, term_size) == m,
        !m.animating && !m.game_over && m.black_turn ==> {
            let r = m.cursor.0;
            let c = m.cursor.1;
            &&& handle_key_model(m, Key::Up, term_size) == (GameModel {
                cursor: (if r > 0 { (r - 1) as usize } else { r }, c),
                ..m
            })
            &&& handle_key_model(m, Key::Down, term_size) == (GameModel {
                cursor: (if r < 7 { (r + 1) as usize } else { r }, c),
                ..m
            })
            &&& handle_key_model(m, Key::Left, term_size) == (GameModel {
                cursor: (r, if c > 0 { (c - 1) as usize } else { c }),
                ..m
            })
            &&& handle_key_model(m, Key::Right, term_size) == (GameModel {
                cursor: (r, if c < 7 { (c + 1) as usize } else { c }),
                ..m
            })
            &&& handle_key_model(m, Key::Enter, term_size) == try_place_model(m, r, c)
            &&& handle_key_model(m, Key::Char(' '), term_size) == try_place_model(m, r, c)
            &&& handle_key_model(m, Key::Char('r'), term_size) == initial_model(term_size)
            &&& handle_key_model(m, Key::Char('R'), term_size) == initial_model(term_size)
            &&& handle_key_model(m, Key::Other, term_size) == m
        },
        m.game_over && !m.animating ==> {
            &&& handle_key_model(m, Key::Char('r'), term_size) == initial_model(term_size)
            &&& (key != Key::Char('r') && key != Key::Char('R') ==> handle_key_model(m, key, term_size) == m)
        },
{
}

/// Square `a` comes before square `b` in reading order.
pub open spec fn reads_before(a: (usize, usize), b: (usize, usize)) -> bool {
    a.0 < b.0 || (a.0 == b.0 && a.1 < b.1)
}

proof fn lemma_legal_in_row_sorted(g: Seq<Seq<Cell>>, player: Cell, row: int, n: int)
    requires
        0 <= row < 8,
        0 <= n <= 8,
    ensures
        forall|i: int|
            0 <= i < legal_in_row(g, player, row, n).len() ==> (#[trigger] legal_in_row(g, player, row, n)[i]).0 == row
                && legal_in_row(g, player, row, n)[i].1 < n,
        forall|i: int, j: int|
            0 <= i < j < legal_in_row(g, player, row, n).len() ==> reads_before(
                #[trigger] legal_in_row(g, player, row, n)[i],
                #[trigger] legal_in_row(g, player, row, n)[j],
            ),
    decreases n,
{
    if n > 0 {
        lemma_legal_in_row_sorted(g, player, row, n - 1);
        let prev = legal_in_row(g, player, row, n - 1);
        let s = legal_in_row(g, player, row, n);
        assert forall|i: int| 0 <= i < s.len() implies (#[trigger] s[i]).0 == row && s[i].1 < n by {
            if i < prev.len() {
                assert(s[i] == prev[i]);
            }
        }
        assert forall|i: int, j: int| 0 <= i < j < s.len() implies reads_before(#[trigger] s[i], #[trigger] s[j]) by {
            assert(s[i] == prev[i]);
            if j < prev.len() {
                assert(s[j] == prev[j]);
            }
        }
    }
}

proof fn lemma_legal_in_rows_sorted(g: Seq<Seq<Cell>>, player: Cell, n: int)
    requires
        0 <= n <= 8,
    ensures
        forall|i: int| 0 <= i < legal_in_rows(g, player, n).len() ==> (#[trigger] legal_in_rows(g, player, n)[i]).0 < n,
        forall|i: int, j: int|
            0 <= i < j < legal_in_rows(g, player, n).len() ==> reads_before(
                #[trigger] legal_in_rows(g, player, n)[i],
                #[trigger] legal_in_rows(g, player, n)[j],
            ),
    decreases n,
{
    if n > 0 {
        lemma_legal_in_rows_sorted(g, player, n - 1);
        lemma_legal_in_row_sorted(g, player, n - 1, 8);
        let prev = legal_in_rows(g, player, n - 1);
        let tail = legal_in_row(g, player, n - 1, 8);
        let s = legal_in_rows(g, player, n);
        assert(s == prev + tail);
        assert forall|i: int| 0 <= i < s.len() implies (#[trigger] s[i]).0 < n by {
            if i < prev.len() {
                assert(s[i] == prev[i]);
            } else {
                assert(s[i] == tail[i - prev.len()]);
            }
        }
        assert forall|i: int, j: int| 0 <= i < j < s.len() implies reads_before(#[trigger] s[i], #[trigger] s[j]) by {
            if j < prev.len() {
                assert(s[i] == prev[i]);
                assert(s[j] == prev[j]);
            } else if i < prev.len() {
                assert(s[i] == prev[i]);
                assert(s[j] == tail[j - prev.len()]);
            } else {
                assert(s[i] == tail[i - prev.len()]);
                assert(s[j] == tail[j - prev.len()]);
            }
        }
    }
}

/// The legal moves are listed in reading order: row by row, left to right.
pub proof fn lemma_legal_moves_sorted(g: Seq<Seq<Cell>>, player: Cell)
    ensures
        forall|i: int, j: int|
            0 <= i < j < legal_moves(g, player).len() ==> reads_before(
                #[trigger] legal_moves(g, player)[i],
                #[trigger] legal_moves(g, player)[j],
            ),
{
    lemma_legal_in_rows_sorted(g, player, 8);
}

} // verus!
