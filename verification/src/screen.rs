//! Where things go on the terminal, and how each square and the status line
//! look; the drawing itself is left to the terminal front end.
use vstd::prelude::*;
use crate::cell::Cell;
use crate::game::{Game, contains_pos};
use crate::model::GameModel;

verus! {

/// Width of a square's interior, in columns.
pub const CELL_W: u16 = 5;
/// Height of a square's interior, in rows.
pub const CELL_H: u16 = 3;
/// Width of the board with its grid lines: 8 squares and 9 lines.
pub const BOARD_PX_W: u16 = 49;
/// Height of the board with its grid lines.
pub const BOARD_PX_H: u16 = 33;
/// Width of the whole picture: labels, board, gap and sidebar.
pub const TOTAL_W: u16 = 72;
/// Height of the whole picture: title, gap, board, labels, status and legend.
pub const TOTAL_H: u16 = 39;

/// `a - b`, or 0 when `b` exceeds `a`.
pub open spec fn sat_sub(a: int, b: int) -> int {
    if a > b {
        a - b
    } else {
        0
    }
}

/// Where the picture is drawn on a terminal: its top-left corner, centred
/// as far as the terminal allows, and the top-left corner of the board.
pub struct Layout {
    pub ox: u16,
    pub oy: u16,
    pub board_x: u16,
    pub board_y: u16,
}

impl Layout {
    /// The placement is one that `layout` can produce.
    pub open spec fn fits(&self) -> bool {
        &&& self.ox <= 32767
        &&& self.oy <= 32767
        &&& self.board_x == self.ox + 3
        &&& self.board_y == self.oy + 2
    }

    /// The picture centred on a terminal of `term_w` columns and `term_h` rows.
    pub fn layout(term_w: u16, term_h: u16) -> (l: Layout)
        ensures
            l.ox == sat_sub(term_w as int, TOTAL_W as int) / 2,
            l.oy == sat_sub(term_h as int, TOTAL_H as int) / 2,
            l.fits(),
    {
        let ox = term_w.saturating_sub(TOTAL_W) / 2;
        let oy = term_h.saturating_sub(TOTAL_H) / 2;
        Layout { ox, oy, board_x: ox + 3, board_y: oy + 2 }
    }

    /// Top-left corner of the interior of square `(row, col)`.
    pub fn cell_origin(&self, row: usize, col: usize) -> (p: (u16, u16))
        requires
            self.fits(),
            row < 8,
            col < 8,
        ensures
            p.0 == self.board_x + 1 + col * (CELL_W + 1),
            p.1 == self.board_y + 1 + row * (CELL_H + 1),
    {
        let c = col as u16;
        let r = row as u16;
        (self.board_x + 1 + c * (CELL_W + 1), self.board_y + 1 + r * (CELL_H + 1))
    }

    /// Where a disc is drawn in square `(row, col)`: left of the middle of its interior.
    pub fn disc_pos(&self, row: usize, col: usize) -> (p: (u16, u16))
        requires
            self.fits(),
            row < 8,
            col < 8,
        ensures
            p.0 == self.board_x + 1 + col * (CELL_W + 1) + CELL_W / 2 - 1,
            p.1 == self.board_y + 1 + row * (CELL_H + 1) + CELL_H / 2,
    {
        let (cx, cy) = self.cell_origin(row, col);
        (cx + CELL_W / 2 - 1, cy + CELL_H / 2)
    }

    /// Where the label of row `row` is drawn, left of the board.
    pub fn row_label_pos(&self, row: usize) -> (p: (u16, u16))
        requires
            self.fits(),
            row < 8,
        ensures
            p.0 == self.ox,
            p.1 == self.board_y + 1 + row * (CELL_H + 1) + CELL_H / 2,
    {
        let r = row as u16;
        (self.ox, self.board_y + 1 + r * (CELL_H + 1) + CELL_H / 2)
    }

    /// Where the label of column `col` is drawn, under the board.
    pub fn col_label_pos(&self, col: usize) -> (p: (u16, u16))
        requires
            self.fits(),
            col < 8,
        ensures
            p.0 == self.board_x + 1 + col * (CELL_W + 1) + CELL_W / 2,
            p.1 == self.board_y + BOARD_PX_H,
    {
        let c = col as u16;
        (self.board_x + 1 + c * (CELL_W + 1) + CELL_W / 2, self.board_y + BOARD_PX_H)
    }

    /// The row of the status line, two rows under the board.
    pub fn status_row(&self) -> (y: u16)
        requires
            self.fits(),
        ensures
            y == self.board_y + BOARD_PX_H + 2,
    {
        self.board_y + BOARD_PX_H + 2
    }

    /// The column where the sidebar starts, two columns right of the board.
    pub fn sidebar_col(&self) -> (x: u16)
        requires
            self.fits(),
        ensures
            x == self.board_x + BOARD_PX_W + 2,
    {
        self.board_x + BOARD_PX_W + 2
    }
}

/// The background of a square.
#[derive(Clone, Copy, Debug, PartialEq, Eq, Structural)]
pub enum Highlight {
    /// The human's cursor is on the square.
    Cursor,
    /// The square is a move on offer.
    Valid,
    Plain,
}

/// The colour of the status line.
#[derive(Clone, Copy, Debug, PartialEq, Eq, Structural)]
pub enum Tone {
    GameOver,
    BotTurn,
    HumanTurn,
}

impl Game {
    /// How square `(row, col)` is shown: the cursor shows on the human's turn
    /// outside the animation; the moves on offer show outside the animation;
    /// the second result says whether to mark the square as a move on offer,
    /// which is done on empty squares only.
    pub fn square_look(&self, row: usize, col: usize) -> (r: (Highlight, bool))
        ensures
            ({
                let is_cursor = self.black_turn && !self.animating && self.cursor == (row, col);
                let is_valid = !self.animating && self@.valid_moves.contains((row, col));
                &&& r.0 == if is_cursor {
                    Highlight::Cursor
                } else if is_valid {
                    Highlight::Valid
                } else {
                    Highlight::Plain
                }
                &&& r.1 == (is_valid && row < 8 && col < 8 && self.board[row as int][col as int] == Cell::Empty)
            }),
    {
        let is_cursor = self.black_turn && !self.animating && self.cursor.0 == row && self.cursor.1 == col;
        let is_valid = !self.animating && contains_pos(&self.valid_moves, (row, col));
        let h = if is_cursor {
            Highlight::Cursor
        } else if is_valid {
            Highlight::Valid
        } else {
            Highlight::Plain
        };
        let dot = is_valid && row < 8 && col < 8 && self.board[row][col] == Cell::Empty;
        (h, dot)
    }

    /// The colour of the status line: the game's end, the bot's turn, or the human's.
    pub fn status_tone(&self) -> (t: Tone)
        ensures
            t == if self.game_over {
                Tone::GameOver
            } else if !self.black_turn {
                Tone::BotTurn
            } else {
                Tone::HumanTurn
            },
    {
        if self.game_over {
            Tone::GameOver
        } else if !self.black_turn {
            Tone::BotTurn
        } else {
            Tone::HumanTurn
        }
    }

    /// The side marked as to move in the sidebar; none once the game is over.
    pub fn active_side(&self) -> (s: Cell)
        ensures
            s == if self.game_over {
                Cell::Empty
            } else if self.black_turn {
                Cell::Black
            } else {
                Cell::White
            },
    {
        if self.game_over {
            Cell::Empty
        } else if self.black_turn {
            Cell::Black
        } else {
            Cell::White
        }
    }

    /// Records the terminal's size; when it changed, the screen is to be
    /// cleared and redrawn.
    pub fn note_terminal_size(&mut self, size: (u16, u16))
        ensures
            size != old(self).last_term_size ==> final(self)@ == (GameModel {
                last_term_size: size,
                needs_clear: true,
                ..old(self)@
            }),
            size == old(self).last_term_size ==> final(self)@ == old(self)@,
            old(self)@.wf() ==> final(self)@.wf(),
    {
        if size.0 != self.last_term_size.0 || size.1 != self.last_term_size.1 {
            self.last_term_size = size;
            self.needs_clear = true;
            assert(self@ =~~= (GameModel { last_term_size: size, needs_clear: true, ..old(self)@ }));
        }
    }
}

} // verus!
