//! The game as a mathematical value, and what each operation does to it.
use vstd::prelude::*;
use crate::cell::{Cell, opponent_of, player_for};
use crate::board::{on_board, disc_count, flip_waves, legal_moves, weight};

verus! {

/// The message shown under the board.
#[derive(Clone, Copy, Debug, PartialEq, Eq, Structural)]
pub enum Status {
    YourTurn,
    BotThinking,
    InvalidMove,
    BlackSkipped,
    WhiteSkipped,
    YouWin,
    BotWins,
    Draw,
}

impl Status {
    /// The words shown for this status.
    pub open spec fn text(self) -> Seq<char> {
        match self {
            Status::YourTurn => "Your turn (Black) - select a square"@,
            Status::BotThinking => "Bot is thinking..."@,
            Status::InvalidMove => "Invalid move - pick a highlighted square."@,
            Status::BlackSkipped => "Black has no moves - turn skipped!"@,
            Status::WhiteSkipped => "White has no moves - turn skipped!"@,
            Status::YouWin => "You win! Press R to restart."@,
            Status::BotWins => "Bot wins! Press R to restart."@,
            Status::Draw => "Draw! Press R to restart."@,
        }
    }

    /// The words shown for this status.
    pub fn message(&self) -> (s: &'static str)
        ensures
            s@ == self.text(),
    {
        match self {
            Status::YourTurn => "Your turn (Black) - select a square",
            Status::BotThinking => "Bot is thinking...",
            Status::InvalidMove => "Invalid move - pick a highlighted square.",
            Status::BlackSkipped => "Black has no moves - turn skipped!",
            Status::WhiteSkipped => "White has no moves - turn skipped!",
            Status::YouWin => "You win! Press R to restart.",
            Status::BotWins => "Bot wins! Press R to restart.",
            Status::Draw => "Draw! Press R to restart.",
        }
    }
}

/// The mathematical value of a `Game`.
#[verifier::ext_equal]
pub struct GameModel {
    pub board: Seq<Seq<Cell>>,
    pub cursor: (usize, usize),
    pub black_turn: bool,
    pub valid_moves: Seq<(usize, usize)>,
    pub black_count: u8,
    pub white_count: u8,
    pub game_over: bool,
    pub status: Status,
    pub needs_clear: bool,
    pub last_term_size: (u16, u16),
    pub pending_flips: Seq<Seq<(usize, usize)>>,
    pub flip_to_black: bool,
    pub animating: bool,
}

/// The model after counting the discs on the board.
pub open spec fn recount_model(m: GameModel) -> GameModel {
    GameModel {
        black_count: disc_count(m.board, Cell::Black) as u8,
        white_count: disc_count(m.board, Cell::White) as u8,
        ..m
    }
}

/// The model after offering the legal moves of the player to move.
pub open spec fn compute_valid_model(m: GameModel) -> GameModel {
    GameModel { valid_moves: legal_moves(m.board, player_for(m.black_turn)), ..m }
}

/// `g` with square `(r, c)` set to `v`.
pub open spec fn set_square(g: Seq<Seq<Cell>>, r: int, c: int, v: Cell) -> Seq<Seq<Cell>> {
    g.update(r, g[r].update(c, v))
}

/// The model after the player to move puts a disc on `(row, col)`: the disc
/// is placed, its flips wait in `pending_flips`, and no moves are offered
/// while they are shown.
pub open spec fn place_model(m: GameModel, row: usize, col: usize) -> GameModel {
    let p = player_for(m.black_turn);
    let b = set_square(m.board, row as int, col as int, p);
    GameModel {
        board: b,
        flip_to_black: m.black_turn,
        pending_flips: flip_waves(b, row as int, col as int, p),
        valid_moves: Seq::empty(),
        animating: true,
        ..m
    }
}

/// The message that ends a game with the given disc counts.
pub open spec fn result_status(black: u8, white: u8) -> Status {
    if black > white {
        Status::YouWin
    } else if white > black {
        Status::BotWins
    } else {
        Status::Draw
    }
}

/// The model after a turn ends: the turn passes to the other player if they
/// have a move; else, if the player who just moved can move again, the other
/// player's turn is skipped; else the game is over.
pub open spec fn end_turn_model(m: GameModel) -> GameModel {
    let t = !m.black_turn;
    let p = player_for(t);
    let moves = legal_moves(m.board, p);
    if moves.len() > 0 {
        GameModel {
            black_turn: t,
            valid_moves: moves,
            status: if t { Status::YourTurn } else { Status::BotThinking },
            ..m
        }
    } else if legal_moves(m.board, opponent_of(p)).len() > 0 {
        GameModel {
            status: if t { Status::BlackSkipped } else { Status::WhiteSkipped },
            valid_moves: legal_moves(m.board, player_for(m.black_turn)),
            ..m
        }
    } else {
        GameModel {
            black_turn: t,
            game_over: true,
            status: result_status(m.black_count, m.white_count),
            valid_moves: Seq::empty(),
            ..m
        }
    }
}

/// The model after the last flip of a move is shown: discs are counted
/// and the turn ends.
pub open spec fn finish_model(m: GameModel) -> GameModel {
    end_turn_model(recount_model(m))
}

/// `g` with every square listed in `wave` set to `t`.
pub open spec fn apply_wave(g: Seq<Seq<Cell>>, wave: Seq<(usize, usize)>, t: Cell) -> Seq<Seq<Cell>> {
    Seq::new(
        g.len(),
        |r: int| Seq::new(g[r].len(), |c: int| if wave.contains((r as usize, c as usize)) { t } else { g[r][c] }),
    )
}

/// The model after one step of the flip animation: the next wave is turned
/// to the mover's colour, and once no wave is left the move is finished.
pub open spec fn advance_model(m: GameModel) -> GameModel {
    if m.pending_flips.len() == 0 {
        finish_model(GameModel { animating: false, ..m })
    } else {
        let m1 = GameModel {
            board: apply_wave(m.board, m.pending_flips[0], player_for(m.flip_to_black)),
            pending_flips: m.pending_flips.drop_first(),
            ..m
        };
        if m1.pending_flips.len() == 0 {
            finish_model(GameModel { animating: false, ..m1 })
        } else {
            m1
        }
    }
}

impl GameModel {
    /// Every move on offer lies on the board.
    pub open spec fn moves_on_board(self) -> bool {
        forall|i: int|
            0 <= i < self.valid_moves.len() ==> on_board(
                (#[trigger] self.valid_moves[i]).0 as int,
                self.valid_moves[i].1 as int,
            )
    }

    /// Every flip waiting lies on the board.
    pub open spec fn flips_on_board(self) -> bool {
        forall|i: int, j: int|
            0 <= i < self.pending_flips.len() && 0 <= j < self.pending_flips[i].len() ==> on_board(
                (#[trigger] self.pending_flips[i][j]).0 as int,
                self.pending_flips[i][j].1 as int,
            )
    }

    /// Every move on offer and every flip waiting lies on the board.
    pub open spec fn wf(self) -> bool {
        self.moves_on_board() && self.flips_on_board()
    }
}

/// The model after the human asks to play `(row, col)`: the disc is placed
/// if the square is among the moves on offer; otherwise the move is refused.
pub open spec fn try_place_model(m: GameModel, row: usize, col: usize) -> GameModel {
    if m.valid_moves.contains((row, col)) {
        place_model(m, row, col)
    } else {
        GameModel { status: Status::InvalidMove, ..m }
    }
}

/// The index of the move the bot prefers among the first `n` of `moves`:
/// the last one of greatest positional weight.
pub open spec fn best_index(moves: Seq<(usize, usize)>, n: int) -> int
    decreases n,
{
    if n <= 1 {
        0
    } else {
        let j = best_index(moves, n - 1);
        if weight(moves[n - 1].0 as int, moves[n - 1].1 as int) >= weight(moves[j].0 as int, moves[j].1 as int) {
            n - 1
        } else {
            j
        }
    }
}

/// The model after the bot (White) moves: it plays its legal move of greatest
/// positional weight, the last such in reading order; with no legal move it
/// does nothing.
pub open spec fn bot_move_model(m: GameModel) -> GameModel {
    let moves = legal_moves(m.board, Cell::White);
    if moves.len() == 0 {
        m
    } else {
        let best = moves[best_index(moves, moves.len() as int)];
        place_model(m, best.0, best.1)
    }
}

/// The starting position: four discs in the centre, White on the diagonal.
pub open spec fn initial_board() -> Seq<Seq<Cell>> {
    Seq::new(
        8,
        |r: int|
            Seq::new(
                8,
                |c: int|
                    if (r == 3 && c == 3) || (r == 4 && c == 4) {
                        Cell::White
                    } else if (r == 3 && c == 4) || (r == 4 && c == 3) {
                        Cell::Black
                    } else {
                        Cell::Empty
                    },
            ),
    )
}

/// A new game on a terminal of size `term_size`: Black to move.
pub open spec fn initial_model(term_size: (u16, u16)) -> GameModel {
    GameModel {
        board: initial_board(),
        cursor: (3, 2),
        black_turn: true,
        valid_moves: legal_moves(initial_board(), Cell::Black),
        black_count: 2,
        white_count: 2,
        game_over: false,
        status: Status::YourTurn,
        needs_clear: true,
        last_term_size: term_size,
        pending_flips: Seq::empty(),
        flip_to_black: true,
        animating: false,
    }
}

/// A key the game reacts to.
#[derive(Clone, Copy, Debug, PartialEq, Eq, Structural)]
pub enum Key {
    Up,
    Down,
    Left,
    Right,
    Enter,
    Char(char),
    Other,
}

/// The model after the human presses `key`. Keys are ignored during the
/// flip animation and on the bot's turn; once the game is over only R
/// (restart) counts; arrows move the cursor within the board, Enter or space
/// plays the square under the cursor, R restarts with a new game on a
/// terminal of size `term_size`.
pub open spec fn handle_key_model(m: GameModel, key: Key, term_size: (u16, u16)) -> GameModel {
    let restart = key == Key::Char('r') || key == Key::Char('R');
    if m.animating {
        m
    } else if m.game_over {
        if restart {
            initial_model(term_size)
        } else {
            m
        }
    } else if !m.black_turn {
        m
    } else if key == Key::Up {
        if m.cursor.0 > 0 {
            GameModel { cursor: ((m.cursor.0 - 1) as usize, m.cursor.1), ..m }
        } else {
            m
        }
    } else if key == Key::Down {
        if m.cursor.0 < 7 {
            GameModel { cursor: ((m.cursor.0 + 1) as usize, m.cursor.1), ..m }
        } else {
            m
        }
    } else if key == Key::Left {
        if m.cursor.1 > 0 {
            GameModel { cursor: (m.cursor.0, (m.cursor.1 - 1) as usize), ..m }
        } else {
            m
        }
    } else if key == Key::Right {
        if m.cursor.1 < 7 {
            GameModel { cursor: (m.cursor.0, (m.cursor.1 + 1) as usize), ..m }
        } else {
            m
        }
    } else if key == Key::Enter || key == Key::Char(' ') {
        try_place_model(m, m.cursor.0, m.cursor.1)
    } else if restart {
        initial_model(term_size)
    } else {
        m
    }
}

/// The model after one timed step of the animation: the next wave is shown,
/// and if that ends the move and White is then to move in a running game,
/// the bot replies at once.
pub open spec fn animation_step_model(m: GameModel) -> GameModel {
    let m1 = advance_model(m);
    if m.pending_flips.len() <= 1 && !m1.black_turn && !m1.game_over {
        bot_move_model(m1)
    } else {
        m1
    }
}

} // verus!
