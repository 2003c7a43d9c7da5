//! The game state and its operations: moves, flip animation, turns and keys.
use vstd::prelude::*;
use crate::cell::{Cell, opponent_of, player_for, current_player};
use crate::board::{
    Board, grid, on_board, unit_dir, dir_row, dir_col, steps_left, run_end, run_cells,
    flip_line, flips_somewhere, wave_of, longest_line, flip_waves, legal_in_row, legal_in_rows,
    legal_moves, count_in_row, count_in_rows, positional_weight,
    lemma_flip_waves_hold, lemma_legal_moves_are_legal, lemma_count_bounds, lemma_count_prefix,
};
use crate::model::{
    Status, Key, GameModel, recount_model, compute_valid_model, set_square, place_model,
    end_turn_model, finish_model, apply_wave, advance_model, try_place_model, best_index,
    bot_move_model, initial_board, initial_model, handle_key_model, animation_step_model,
};

verus! {

/// A whole game: board, turn, moves on offer, score, message, and the flips
/// that are still to be shown.
pub struct Game {
    pub board: Board,
    pub cursor: (usize, usize),
    /// Black (the human) is to move; otherwise White (the bot).
    pub black_turn: bool,
    pub valid_moves: Vec<(usize, usize)>,
    pub black_count: u8,
    pub white_count: u8,
    pub game_over: bool,
    pub status: Status,
    pub needs_clear: bool,
    pub last_term_size: (u16, u16),
    /// Squares still to be turned over, one wave per entry, nearest wave first.
    pub pending_flips: Vec<Vec<(usize, usize)>>,
    pub flip_to_black: bool,
    pub animating: bool,
}

impl View for Game {
    type V = GameModel;

    open spec fn view(&self) -> GameModel {
        GameModel {
            board: grid(self.board),
            cursor: self.cursor,
            black_turn: self.black_turn,
            valid_moves: self.valid_moves@,
            black_count: self.black_count,
            white_count: self.white_count,
            game_over: self.game_over,
            status: self.status,
            needs_clear: self.needs_clear,
            last_term_size: self.last_term_size,
            pending_flips: self.pending_flips@.map_values(|w: Vec<(usize, usize)>| w@),
            flip_to_black: self.flip_to_black,
            animating: self.animating,
        }
    }
}

/// The step of the `k`-th direction.
fn direction(k: usize) -> (d: (i32, i32))
    requires
        k < 8,
    ensures
        d.0 == dir_row(k as int),
        d.1 == dir_col(k as int),
        unit_dir(d.0 as int, d.1 as int),
{
    match k {
        0 => (-1, -1),
        1 => (-1, 0),
        2 => (-1, 1),
        3 => (0, -1),
        4 => (0, 1),
        5 => (1, -1),
        6 => (1, 0),
        _ => (1, 1),
    }
}

/// Whether `p` is listed in `v`.
pub(crate) fn contains_pos(v: &Vec<(usize, usize)>, p: (usize, usize)) -> (b: bool)
    ensures
        b == v@.contains(p),
{
    let mut i: usize = 0;
    while i < v.len()
        invariant
            i <= v.len(),
            forall|j: int| 0 <= j < i ==> v@[j] != p,
        decreases v.len() - i,
    {
        if v[i].0 == p.0 && v[i].1 == p.1 {
            assert(v@[i as int] == p);
            return true;
        }
        i += 1;
    }
    false
}

impl Game {
    /// Whether `player` placing at `(row, col)` would turn over at least one disc.
    pub fn would_flip(&self, row: usize, col: usize, player: Cell) -> (res: bool)
        requires
            row < 0x7fff_ffff,
            col < 0x7fff_ffff,
        ensures
            res == flips_somewhere(self@.board, row as int, col as int, player),
    {
        let ghost g = self@.board;
        let opponent = player.opponent();
        let mut k: usize = 0;
        while k < 8
            invariant
                k <= 8,
                row < 0x7fff_ffff,
                col < 0x7fff_ffff,
                g == self@.board,
                opponent == opponent_of(player),
                forall|j: int| 0 <= j < k ==> (#[trigger] flip_line(g, row as int, col as int, player, j)).len() == 0,
            decreases 8 - k,
        {
            let (dr, dc) = direction(k);
            let mut r: i32 = row as i32 + dr;
            let mut c: i32 = col as i32 + dc;
            let mut found = false;
            let ghost sr = r as int;
            let ghost sc = c as int;
            while r >= 0 && r < 8 && c >= 0 && c < 8
                invariant
                    k < 8,
                    g == self@.board,
                    opponent == opponent_of(player),
                    dr == dir_row(k as int),
                    dc == dir_col(k as int),
                    unit_dir(dr as int, dc as int),
                    sr == row + dr,
                    sc == col + dc,
                    (-1 <= r <= 8 && -1 <= c <= 8) || (r == sr && c == sc),
                    run_end(g, r as int, c as int, dr as int, dc as int, opponent)
                        == run_end(g, sr, sc, dr as int, dc as int, opponent),
                    found ==> run_cells(g, sr, sc, dr as int, dc as int, opponent).len() > 0,
                    !found ==> r == sr && c == sc,
                ensures
                    flip_line(g, row as int, col as int, player, k as int).len() == 0,
                decreases steps_left(r as int, c as int, dr as int, dc as int),
            {
                let cell = self.board[r as usize][c as usize];
                if cell == opponent {
                    found = true;
                } else if cell == player && found {
                    assert(flip_line(g, row as int, col as int, player, k as int).len() > 0);
                    return true;
                } else {
                    break;
                }
                r = r + dr;
                c = c + dc;
            }
            k += 1;
        }
        false
    }

    /// The discs that `player` placing at `(row, col)` turns over, grouped into
    /// waves by distance from `(row, col)`: wave `i` holds the discs `i + 1`
    /// steps away, in direction order.
    pub fn collect_flips(&self, row: usize, col: usize, player: Cell) -> (waves: Vec<Vec<(usize, usize)>>)
        requires
            row < 0x7fff_ffff,
            col < 0x7fff_ffff,
        ensures
            waves@.map_values(|w: Vec<(usize, usize)>| w@) == flip_waves(self@.board, row as int, col as int, player),
    {
        let ghost g = self@.board;
        let opponent = player.opponent();
        let mut lines: Vec<Vec<(usize, usize)>> = Vec::new();
        let mut k: usize = 0;
        while k < 8
            invariant
                k <= 8,
                row < 0x7fff_ffff,
                col < 0x7fff_ffff,
                g == self@.board,
                opponent == opponent_of(player),
                lines.len() == k,
                forall|j: int| 0 <= j < k ==> #[trigger] lines@[j]@ == flip_line(g, row as int, col as int, player, j),
            decreases 8 - k,
        {
            let (dr, dc) = direction(k);
            let mut r: i32 = row as i32 + dr;
            let mut c: i32 = col as i32 + dc;
            let ghost sr = r as int;
            let ghost sc = c as int;
            let mut line: Vec<(usize, usize)> = Vec::new();
            while r >= 0 && r < 8 && c >= 0 && c < 8
                invariant
                    g == self@.board,
                    unit_dir(dr as int, dc as int),
                    (-1 <= r <= 8 && -1 <= c <= 8) || (r == sr && c == sc),
                    run_end(g, r as int, c as int, dr as int, dc as int, opponent)
                        == run_end(g, sr, sc, dr as int, dc as int, opponent),
                    run_cells(g, sr, sc, dr as int, dc as int, opponent)
                        == line@ + run_cells(g, r as int, c as int, dr as int, dc as int, opponent),
                ensures
                    run_end(g, sr, sc, dr as int, dc as int, opponent) == (r as int, c as int),
                    run_cells(g, sr, sc, dr as int, dc as int, opponent) == line@,
                decreases steps_left(r as int, c as int, dr as int, dc as int),
            {
                let cell = self.board[r as usize][c as usize];
                if cell == opponent {
                    let ghost before = line@;
                    line.push((r as usize, c as usize));
                    assert(before + run_cells(g, r as int, c as int, dr as int, dc as int, opponent)
                        =~= line@ + run_cells(g, (r + dr) as int, (c + dc) as int, dr as int, dc as int, opponent));
                } else {
                    assert(line@ + run_cells(g, r as int, c as int, dr as int, dc as int, opponent) =~= line@);
                    break;
                }
                r = r + dr;
                c = c + dc;
            }
            if r >= 0 && r < 8 && c >= 0 && c < 8 && self.board[r as usize][c as usize] == player {
                lines.push(line);
            } else {
                lines.push(Vec::new());
            }
            assert(lines@[k as int]@ == flip_line(g, row as int, col as int, player, k as int));
            k += 1;
        }

        let mut longest: usize = 0;
        let mut k: usize = 0;
        while k < 8
            invariant
                k <= 8,
                lines.len() == 8,
                forall|j: int| 0 <= j < 8 ==> #[trigger] lines@[j]@ == flip_line(g, row as int, col as int, player, j),
                longest == longest_line(g, row as int, col as int, player, k as int),
            decreases 8 - k,
        {
            if lines[k].len() > longest {
                longest = lines[k].len();
            }
            k += 1;
        }

        let count: usize = if longest == 0 { 1 } else { longest };
        let mut waves: Vec<Vec<(usize, usize)>> = Vec::new();
        let mut i: usize = 0;
        while i < count
            invariant
                i <= count,
                lines.len() == 8,
                forall|j: int| 0 <= j < 8 ==> #[trigger] lines@[j]@ == flip_line(g, row as int, col as int, player, j),
                waves.len() == i,
                forall|j: int| 0 <= j < i ==> #[trigger] waves@[j]@ == wave_of(g, row as int, col as int, player, j, 8),
            decreases count - i,
        {
            let mut w: Vec<(usize, usize)> = Vec::new();
            let mut k: usize = 0;
            while k < 8
                invariant
                    k <= 8,
                    lines.len() == 8,
                    forall|j: int| 0 <= j < 8 ==> #[trigger] lines@[j]@ == flip_line(g, row as int, col as int, player, j),
                    w@ == wave_of(g, row as int, col as int, player, i as int, k as int),
                decreases 8 - k,
            {
                if i < lines[k].len() {
                    w.push(lines[k][i]);
                }
                k += 1;
            }
            waves.push(w);
            i += 1;
        }
        assert(waves@.map_values(|w: Vec<(usize, usize)>| w@) =~= flip_waves(g, row as int, col as int, player));
        waves
    }

    /// The legal moves of `player`, in reading order.
    pub fn legal_moves_for(&self, player: Cell) -> (moves: Vec<(usize, usize)>)
        ensures
            moves@ == legal_moves(self@.board, player),
    {
        let ghost g = self@.board;
        let mut moves: Vec<(usize, usize)> = Vec::new();
        let mut row: usize = 0;
        while row < 8
            invariant
                row <= 8,
                g == self@.board,
                moves@ == legal_in_rows(g, player, row as int),
            decreases 8 - row,
        {
            let mut col: usize = 0;
            while col < 8
                invariant
                    row < 8,
                    col <= 8,
                    g == self@.board,
                    moves@ == legal_in_rows(g, player, row as int) + legal_in_row(g, player, row as int, col as int),
                decreases 8 - col,
            {
                let ghost before = moves@;
                if self.board[row][col].is_empty() && self.would_flip(row, col, player) {
                    moves.push((row, col));
                }
                assert(moves@ =~= legal_in_rows(g, player, row as int) + legal_in_row(g, player, row as int, col + 1));
                col += 1;
            }
            assert(moves@ =~= legal_in_rows(g, player, row + 1));
            row += 1;
        }
        moves
    }

    /// Offers the legal moves of the player to move.
    pub fn compute_valid_moves(&mut self)
        ensures
            final(self)@ == compute_valid_model(old(self)@),
            old(self)@.wf() ==> final(self)@.wf(),
    {
        proof {
            lemma_legal_moves_are_legal(self@.board, player_for(self.black_turn));
        }
        let player = current_player(self.black_turn);
        self.valid_moves = self.legal_moves_for(player);
        assert(self@ =~~= compute_valid_model(old(self)@));
    }

    /// Sets the two disc counts to the numbers of black and white discs on the board.
    pub fn recount(&mut self)
        ensures
            final(self)@ == recount_model(old(self)@),
            old(self)@.wf() ==> final(self)@.wf(),
    {
        let ghost g = self@.board;
        proof {
            lemma_count_bounds(g, Cell::Black);
            lemma_count_bounds(g, Cell::White);
        }
        let mut black: u8 = 0;
        let mut white: u8 = 0;
        let mut row: usize = 0;
        while row < 8
            invariant
                row <= 8,
                g == self@.board,
                black == count_in_rows(g, Cell::Black, row as int),
                white == count_in_rows(g, Cell::White, row as int),
            decreases 8 - row,
        {
            let mut col: usize = 0;
            while col < 8
                invariant
                    row < 8,
                    col <= 8,
                    g == self@.board,
                    black == count_in_rows(g, Cell::Black, row as int) + count_in_row(g, Cell::Black, row as int, col as int),
                    white == count_in_rows(g, Cell::White, row as int) + count_in_row(g, Cell::White, row as int, col as int),
                decreases 8 - col,
            {
                proof {
                    lemma_count_prefix(g, Cell::Black, row as int, col as int);
                    lemma_count_prefix(g, Cell::White, row as int, col as int);
                }
                match self.board[row][col] {
                    Cell::Black => black = black + 1,
                    Cell::White => white = white + 1,
                    _ => {},
                }
                col += 1;
            }
            row += 1;
        }
        self.black_count = black;
        self.white_count = white;
        assert(self@ =~~= recount_model(old(self)@));
    }

    /// The player to move puts a disc on `(row, col)`; the discs it turns over
    /// are queued as waves to be shown one by one.
    pub fn place(&mut self, row: usize, col: usize)
        requires
            row < 8,
            col < 8,
        ensures
            final(self)@ == place_model(old(self)@, row, col),
            final(self)@.wf(),
    {
        let player = current_player(self.black_turn);
        self.board[row][col] = player;
        assert(self@.board =~~= set_square(old(self)@.board, row as int, col as int, player));
        self.flip_to_black = match player {
            Cell::Black => true,
            _ => false,
        };
        self.pending_flips = self.collect_flips(row, col, player);
        proof {
            lemma_flip_waves_hold(self@.board, row as int, col as int, player);
        }
        self.valid_moves.clear();
        self.animating = true;
        assert(self@ =~~= place_model(old(self)@, row, col));
    }

    /// Ends the turn of the player who just moved (see `end_turn_model`).
    pub fn end_turn(&mut self)
        ensures
            final(self)@ == end_turn_model(old(self)@),
            old(self)@.wf() ==> final(self)@.wf(),
    {
        proof {
            lemma_legal_moves_are_legal(self@.board, Cell::Black);
            lemma_legal_moves_are_legal(self@.board, Cell::White);
        }
        self.black_turn = !self.black_turn;
        let player = current_player(self.black_turn);
        let moves = self.legal_moves_for(player);
        if moves.len() == 0 {
            let opponent_moves = self.legal_moves_for(player.opponent());
            if opponent_moves.len() == 0 {
                self.game_over = true;
                self.status = if self.black_count > self.white_count {
                    Status::YouWin
                } else if self.white_count > self.black_count {
                    Status::BotWins
                } else {
                    Status::Draw
                };
                self.valid_moves.clear();
                assert(self@ =~~= end_turn_model(old(self)@));
                return;
            }
            self.status = if self.black_turn { Status::BlackSkipped } else { Status::WhiteSkipped };
            self.black_turn = !self.black_turn;
            self.compute_valid_moves();
            assert(self@ =~~= end_turn_model(old(self)@));
            return;
        }
        self.valid_moves = moves;
        if self.black_turn {
            self.status = Status::YourTurn;
        } else {
            self.status = Status::BotThinking;
        }
        assert(self@ =~~= end_turn_model(old(self)@));
    }

    /// Counts the discs and ends the turn, once a move's flips are all shown.
    pub fn finish_flip(&mut self)
        ensures
            final(self)@ == finish_model(old(self)@),
            old(self)@.wf() ==> final(self)@.wf(),
    {
        self.recount();
        self.end_turn();
    }

    /// Shows the next wave of flips; returns whether the animation is over,
    /// in which case the move has been finished.
    pub fn advance_animation(&mut self) -> (done: bool)
        requires
            old(self)@.flips_on_board(),
        ensures
            final(self)@ == advance_model(old(self)@),
            final(self)@.flips_on_board(),
            old(self)@.wf() ==> final(self)@.wf(),
            done == (old(self)@.pending_flips.len() <= 1),
    {
        if self.pending_flips.len() == 0 {
            self.animating = false;
            self.finish_flip();
            return true;
        }
        let ghost m0 = self@;
        let wave = self.pending_flips.remove(0);
        assert(self@.pending_flips =~~= m0.pending_flips.drop_first());
        let target = current_player(self.flip_to_black);
        let mut board = self.board;
        let mut i: usize = 0;
        assert(grid(board) =~~= apply_wave(m0.board, wave@.take(0), target));
        while i < wave.len()
            invariant
                i <= wave.len(),
                wave@ == m0.pending_flips[0],
                m0.flips_on_board(),
                m0.pending_flips.len() > 0,
                grid(board) == apply_wave(m0.board, wave@.take(i as int), target),
            decreases wave.len() - i,
        {
            let (r, c) = wave[i];
            assert(on_board(m0.pending_flips[0][i as int].0 as int, m0.pending_flips[0][i as int].1 as int));
            let ghost prev = grid(board);
            board[r][c] = target;
            assert(grid(board) =~~= set_square(prev, r as int, c as int, target));
            proof {
                lemma_take_push_contains(wave@, i as int);
            }
            assert(grid(board) =~~= apply_wave(m0.board, wave@.take(i + 1), target));
            i += 1;
        }
        assert(wave@.take(wave.len() as int) =~= wave@);
        self.board = board;
        if self.pending_flips.len() == 0 {
            self.animating = false;
            self.finish_flip();
        }
        assert(self@ =~~= advance_model(m0));
        self.pending_flips.len() == 0
    }

    /// A new game, Black (the human) to move, on a terminal of size `term_size`.
    pub fn new(term_size: (u16, u16)) -> (g: Game)
        ensures
            g@ == initial_model(term_size),
            g@.wf(),
    {
        let mut board: Board = [[Cell::Empty; 8]; 8];
        board[3][3] = Cell::White;
        board[3][4] = Cell::Black;
        board[4][3] = Cell::Black;
        board[4][4] = Cell::White;
        assert(grid(board) =~~= initial_board());
        let mut g = Game {
            board,
            cursor: (3, 2),
            black_turn: true,
            valid_moves: Vec::new(),
            black_count: 2,
            white_count: 2,
            game_over: false,
            status: Status::YourTurn,
            needs_clear: true,
            last_term_size: term_size,
            pending_flips: Vec::new(),
            flip_to_black: true,
            animating: false,
        };
        g.compute_valid_moves();
        assert(g@ =~~= initial_model(term_size));
        g
    }

    /// Plays `(row, col)` for the human if it is among the moves on offer;
    /// otherwise says the move is invalid.
    pub fn try_place(&mut self, row: usize, col: usize)
        requires
            old(self)@.valid_moves.contains((row, col)) ==> row < 8 && col < 8,
        ensures
            final(self)@ == try_place_model(old(self)@, row, col),
            old(self)@.wf() ==> final(self)@.wf(),
    {
        if contains_pos(&self.valid_moves, (row, col)) {
            self.place(row, col);
        } else {
            self.status = Status::InvalidMove;
            assert(self@ =~~= try_place_model(old(self)@, row, col));
        }
    }

    /// The bot (White) plays its legal move of greatest positional weight,
    /// the last such in reading order; it does nothing without a legal move.
    pub fn bot_move(&mut self)
        ensures
            final(self)@ == bot_move_model(old(self)@),
            old(self)@.wf() ==> final(self)@.wf(),
    {
        let moves = self.legal_moves_for(Cell::White);
        if moves.len() == 0 {
            return;
        }
        proof {
            lemma_legal_moves_are_legal(self@.board, Cell::White);
        }
        let mut best: usize = 0;
        let mut i: usize = 1;
        while i < moves.len()
            invariant
                1 <= i <= moves.len(),
                moves@ == legal_moves(self@.board, Cell::White),
                forall|j: int| 0 <= j < moves.len() ==> on_board(#[trigger] moves@[j].0 as int, moves@[j].1 as int),
                best == best_index(moves@, i as int),
                best < i,
            decreases moves.len() - i,
        {
            let wi = positional_weight(moves[i].0, moves[i].1);
            let wb = positional_weight(moves[best].0, moves[best].1);
            if wi >= wb {
                best = i;
            }
            i += 1;
        }
        let (r, c) = moves[best];
        self.place(r, c);
    }

    /// Reacts to a key pressed by the human (see `handle_key_model`); a
    /// restart starts a new game on a terminal of size `term_size`.
    pub fn handle_key(&mut self, key: Key, term_size: (u16, u16))
        requires
            old(self)@.valid_moves.contains(old(self).cursor) ==> old(self).cursor.0 < 8 && old(self).cursor.1 < 8,
        ensures
            final(self)@ == handle_key_model(old(self)@, key, term_size),
            old(self)@.wf() ==> final(self)@.wf(),
    {
        if self.animating {
            return;
        }
        if self.game_over {
            if key == Key::Char('r') || key == Key::Char('R') {
                *self = Game::new(term_size);
            }
            return;
        }
        if !self.black_turn {
            return;
        }
        let (row, col) = self.cursor;
        match key {
            Key::Up => {
                if row > 0 {
                    self.cursor.0 = self.cursor.0 - 1;
                }
            },
            Key::Down => {
                if row < 7 {
                    self.cursor.0 = self.cursor.0 + 1;
                }
            },
            Key::Left => {
                if col > 0 {
                    self.cursor.1 = self.cursor.1 - 1;
                }
            },
            Key::Right => {
                if col < 7 {
                    self.cursor.1 = self.cursor.1 + 1;
                }
            },
            Key::Enter => {
                self.try_place(row, col);
            },
            Key::Char(ch) => {
                if ch == ' ' {
                    self.try_place(row, col);
                } else if ch == 'r' || ch == 'R' {
                    *self = Game::new(term_size);
                }
            },
            Key::Other => {},
        }
        assert(self@ =~~= handle_key_model(old(self)@, key, term_size));
    }

    /// Whether the bot should move now: it is White's turn and the game is running.
    pub fn bot_to_move(&self) -> (b: bool)
        ensures
            b == (!self.black_turn && !self.game_over),
    {
        !self.black_turn && !self.game_over
    }

    /// One timed step of the flip animation; when it ends the move and the
    /// bot is then to move, the bot replies at once.
    pub fn animation_step(&mut self)
        requires
            old(self)@.flips_on_board(),
        ensures
            final(self)@ == animation_step_model(old(self)@),
            old(self)@.wf() ==> final(self)@.wf(),
    {
        let done = self.advance_animation();
        if done && self.bot_to_move() {
            self.bot_move();
        }
    }
}

/// An item is among the first `i + 1` items iff it is among the first `i`
/// or it is item `i`.
proof fn lemma_take_push_contains<A>(s: Seq<A>, i: int)
    requires
        0 <= i < s.len(),
    ensures
        forall|x: A| #[trigger] s.take(i + 1).contains(x) <==> (s.take(i).contains(x) || x == s[i]),
{
    assert forall|x: A| #[trigger] s.take(i + 1).contains(x) implies (s.take(i).contains(x) || x == s[i]) by {
        let j = choose|j: int| 0 <= j < i + 1 && #[trigger] s.take(i + 1)[j] == x;
        if j < i {
            assert(s.take(i)[j] == x);
        }
    }
    assert forall|x: A| (s.take(i).contains(x) || x == s[i]) implies #[trigger] s.take(i + 1).contains(x) by {
        if s.take(i).contains(x) {
            let j = choose|j: int| 0 <= j < i && #[trigger] s.take(i)[j] == x;
            assert(s.take(i + 1)[j] == x);
        } else {
            assert(s.take(i + 1)[i] == x);
        }
    }
}

} // verus!
