//! The rules of Reversi stated over a board seen as rows of squares.
use vstd::prelude::*;
use crate::cell::{Cell, opponent_of};

verus! {

/// Number of rows and of columns.
pub const SIZE: usize = 8;

/// The board as it is stored: eight rows of eight squares.
pub type Board = [[Cell; 8]; 8];

/// The board as rows of squares.
pub open spec fn grid(b: Board) -> Seq<Seq<Cell>> {
    b@.map_values(|row: [Cell; 8]| row@)
}

pub open spec fn on_board(r: int, c: int) -> bool {
    0 <= r < 8 && 0 <= c < 8
}

pub open spec fn cell_at(g: Seq<Seq<Cell>>, r: int, c: int) -> Cell {
    g[r][c]
}

/// A grid of eight rows of eight squares.
pub open spec fn is_grid(g: Seq<Seq<Cell>>) -> bool {
    g.len() == 8 && forall|r: int| 0 <= r < 8 ==> #[trigger] g[r].len() == 8
}

/// One of the eight compass steps.
pub open spec fn unit_dir(dr: int, dc: int) -> bool {
    -1 <= dr <= 1 && -1 <= dc <= 1 && (dr != 0 || dc != 0)
}

/// Row step of the `k`-th direction; the directions run NW, N, NE, W, E, SW, S, SE.
pub open spec fn dir_row(k: int) -> int {
    if k < 3 {
        -1
    } else if k < 5 {
        0
    } else {
        1
    }
}

/// Column step of the `k`-th direction.
pub open spec fn dir_col(k: int) -> int {
    if k == 0 || k == 3 || k == 5 {
        -1
    } else if k == 1 || k == 6 {
        0
    } else {
        1
    }
}

/// A bound on how many more on-board squares a walk from `(r, c)` can visit.
pub open spec fn steps_left(r: int, c: int, dr: int, dc: int) -> int {
    (if dr > 0 {
        8 - r
    } else if dr < 0 {
        r + 1
    } else {
        0
    }) + (if dc > 0 {
        8 - c
    } else if dc < 0 {
        c + 1
    } else {
        0
    })
}

/// Where a walk from `(r, c)` in direction `(dr, dc)` stops when it passes over
/// squares holding `opp`: the first square that is off the board or does not hold `opp`.
pub open spec fn run_end(g: Seq<Seq<Cell>>, r: int, c: int, dr: int, dc: int, opp: Cell) -> (int, int)
    decreases steps_left(r, c, dr, dc),
{
    if unit_dir(dr, dc) && on_board(r, c) && cell_at(g, r, c) == opp {
        run_end(g, r + dr, c + dc, dr, dc, opp)
    } else {
        (r, c)
    }
}

/// The squares holding `opp` that such a walk passes over, in walking order.
pub open spec fn run_cells(g: Seq<Seq<Cell>>, r: int, c: int, dr: int, dc: int, opp: Cell) -> Seq<(usize, usize)>
    decreases steps_left(r, c, dr, dc),
{
    if unit_dir(dr, dc) && on_board(r, c) && cell_at(g, r, c) == opp {
        seq![(r as usize, c as usize)] + run_cells(g, r + dr, c + dc, dr, dc, opp)
    } else {
        Seq::empty()
    }
}

/// The discs that `player` placing at `(row, col)` turns over in direction `k`,
/// nearest first: the run of opposing discs next to `(row, col)`, if a disc of
/// `player` closes it; otherwise none.
pub open spec fn flip_line(g: Seq<Seq<Cell>>, row: int, col: int, player: Cell, k: int) -> Seq<(usize, usize)> {
    let dr = dir_row(k);
    let dc = dir_col(k);
    let opp = opponent_of(player);
    let end = run_end(g, row + dr, col + dc, dr, dc, opp);
    if on_board(end.0, end.1) && cell_at(g, end.0, end.1) == player {
        run_cells(g, row + dr, col + dc, dr, dc, opp)
    } else {
        Seq::empty()
    }
}

/// The `i`-th wave of flips over the first `n` directions: the `i`-th disc
/// (counting from 0, nearest first) of each direction's flip line, in direction order.
pub open spec fn wave_of(g: Seq<Seq<Cell>>, row: int, col: int, player: Cell, i: int, n: int) -> Seq<(usize, usize)>
    decreases n,
{
    if n <= 0 {
        Seq::empty()
    } else {
        let line = flip_line(g, row, col, player, n - 1);
        wave_of(g, row, col, player, i, n - 1) + (if 0 <= i < line.len() {
            seq![line[i]]
        } else {
            Seq::empty()
        })
    }
}

/// The length of the longest flip line among the first `n` directions.
pub open spec fn longest_line(g: Seq<Seq<Cell>>, row: int, col: int, player: Cell, n: int) -> nat
    decreases n,
{
    if n <= 0 {
        0
    } else {
        let prev = longest_line(g, row, col, player, n - 1);
        let len = flip_line(g, row, col, player, n - 1).len();
        if len > prev {
            len
        } else {
            prev
        }
    }
}

/// The flips of a move grouped by distance from the placed disc: wave `i`
/// holds every disc at distance `i + 1`. There is always at least one wave,
/// and it is empty when nothing is turned over.
pub open spec fn flip_waves(g: Seq<Seq<Cell>>, row: int, col: int, player: Cell) -> Seq<Seq<(usize, usize)>> {
    let n = longest_line(g, row, col, player, 8);
    Seq::new(if n == 0 { 1 } else { n }, |i: int| wave_of(g, row, col, player, i, 8))
}

/// Whether `player` placing at `(row, col)` turns over at least one disc.
pub open spec fn flips_somewhere(g: Seq<Seq<Cell>>, row: int, col: int, player: Cell) -> bool {
    exists|k: int| 0 <= k < 8 && (#[trigger] flip_line(g, row, col, player, k)).len() > 0
}

/// `(row, col)` is a legal move for `player`: an empty square from which
/// at least one disc is turned over.
pub open spec fn legal_at(g: Seq<Seq<Cell>>, row: int, col: int, player: Cell) -> bool {
    on_board(row, col) && cell_at(g, row, col) == Cell::Empty && flips_somewhere(g, row, col, player)
}

/// The legal moves among the first `n` squares of row `row`, left to right.
pub open spec fn legal_in_row(g: Seq<Seq<Cell>>, player: Cell, row: int, n: int) -> Seq<(usize, usize)>
    decreases n,
{
    if n <= 0 {
        Seq::empty()
    } else {
        legal_in_row(g, player, row, n - 1) + (if legal_at(g, row, n - 1, player) {
            seq![(row as usize, (n - 1) as usize)]
        } else {
            Seq::empty()
        })
    }
}

/// The legal moves in the first `n` rows, in reading order.
pub open spec fn legal_in_rows(g: Seq<Seq<Cell>>, player: Cell, n: int) -> Seq<(usize, usize)>
    decreases n,
{
    if n <= 0 {
        Seq::empty()
    } else {
        legal_in_rows(g, player, n - 1) + legal_in_row(g, player, n - 1, 8)
    }
}

/// All legal moves of `player`, in reading order (row by row, left to right).
pub open spec fn legal_moves(g: Seq<Seq<Cell>>, player: Cell) -> Seq<(usize, usize)> {
    legal_in_rows(g, player, 8)
}

/// Number of squares holding `color` among the first `n` squares of row `row`.
pub open spec fn count_in_row(g: Seq<Seq<Cell>>, color: Cell, row: int, n: int) -> nat
    decreases n,
{
    if n <= 0 {
        0
    } else {
        count_in_row(g, color, row, n - 1) + (if cell_at(g, row, n - 1) == color {
            1nat
        } else {
            0nat
        })
    }
}

/// Number of squares holding `color` in the first `n` rows.
pub open spec fn count_in_rows(g: Seq<Seq<Cell>>, color: Cell, n: int) -> nat
    decreases n,
{
    if n <= 0 {
        0
    } else {
        count_in_rows(g, color, n - 1) + count_in_row(g, color, n - 1, 8)
    }
}

/// Number of discs of `color` on the board.
pub open spec fn disc_count(g: Seq<Seq<Cell>>, color: Cell) -> nat {
    count_in_rows(g, color, 8)
}


/// Every square of a run is on the board and holds `opp`.
pub proof fn lemma_run_cells_hold(g: Seq<Seq<Cell>>, r: int, c: int, dr: int, dc: int, opp: Cell)
    ensures
        forall|i: int|
            0 <= i < run_cells(g, r, c, dr, dc, opp).len() ==> {
                let x = #[trigger] run_cells(g, r, c, dr, dc, opp)[i];
                on_board(x.0 as int, x.1 as int) && cell_at(g, x.0 as int, x.1 as int) == opp
            },
    decreases steps_left(r, c, dr, dc),
{
    if unit_dir(dr, dc) && on_board(r, c) && cell_at(g, r, c) == opp {
        lemma_run_cells_hold(g, r + dr, c + dc, dr, dc, opp);
        let rest = run_cells(g, r + dr, c + dc, dr, dc, opp);
        assert forall|i: int| 0 <= i < run_cells(g, r, c, dr, dc, opp).len() implies {
            let x = #[trigger] run_cells(g, r, c, dr, dc, opp)[i];
            on_board(x.0 as int, x.1 as int) && cell_at(g, x.0 as int, x.1 as int) == opp
        } by {
            if i > 0 {
                assert(run_cells(g, r, c, dr, dc, opp)[i] == rest[i - 1]);
            }
        }
    }
}

/// Every disc on a flip line is on the board and holds the opponent's colour.
pub proof fn lemma_flip_line_holds(g: Seq<Seq<Cell>>, row: int, col: int, player: Cell, k: int)
    ensures
        forall|i: int|
            0 <= i < flip_line(g, row, col, player, k).len() ==> {
                let x = #[trigger] flip_line(g, row, col, player, k)[i];
                on_board(x.0 as int, x.1 as int) && cell_at(g, x.0 as int, x.1 as int) == opponent_of(player)
            },
{
    lemma_run_cells_hold(g, row + dir_row(k), col + dir_col(k), dir_row(k), dir_col(k), opponent_of(player));
}

/// Every disc of a wave is on the board and holds the opponent's colour.
pub proof fn lemma_wave_of_holds(g: Seq<Seq<Cell>>, row: int, col: int, player: Cell, i: int, n: int)
    ensures
        forall|j: int|
            0 <= j < wave_of(g, row, col, player, i, n).len() ==> {
                let x = #[trigger] wave_of(g, row, col, player, i, n)[j];
                on_board(x.0 as int, x.1 as int) && cell_at(g, x.0 as int, x.1 as int) == opponent_of(player)
            },
    decreases n,
{
    if n > 0 {
        lemma_wave_of_holds(g, row, col, player, i, n - 1);
        lemma_flip_line_holds(g, row, col, player, n - 1);
        let prev = wave_of(g, row, col, player, i, n - 1);
        let line = flip_line(g, row, col, player, n - 1);
        assert forall|j: int| 0 <= j < wave_of(g, row, col, player, i, n).len() implies {
            let x = #[trigger] wave_of(g, row, col, player, i, n)[j];
            on_board(x.0 as int, x.1 as int) && cell_at(g, x.0 as int, x.1 as int) == opponent_of(player)
        } by {
            if j < prev.len() {
                assert(wave_of(g, row, col, player, i, n)[j] == prev[j]);
            } else {
                assert(wave_of(g, row, col, player, i, n)[j] == line[i]);
            }
        }
    }
}

/// Every disc in the waves of a move is on the board and holds the opponent's colour.
pub proof fn lemma_flip_waves_hold(g: Seq<Seq<Cell>>, row: int, col: int, player: Cell)
    ensures
        forall|i: int, j: int|
            0 <= i < flip_waves(g, row, col, player).len() && 0 <= j < flip_waves(g, row, col, player)[i].len()
                ==> {
                let x = #[trigger] flip_waves(g, row, col, player)[i][j];
                on_board(x.0 as int, x.1 as int) && cell_at(g, x.0 as int, x.1 as int) == opponent_of(player)
            },
{
    assert forall|i: int, j: int|
        0 <= i < flip_waves(g, row, col, player).len() && 0 <= j < flip_waves(g, row, col, player)[i].len()
        implies {
            let x = #[trigger] flip_waves(g, row, col, player)[i][j];
            on_board(x.0 as int, x.1 as int) && cell_at(g, x.0 as int, x.1 as int) == opponent_of(player)
        } by {
        lemma_wave_of_holds(g, row, col, player, i, 8);
        assert(flip_waves(g, row, col, player)[i] == wave_of(g, row, col, player, i, 8));
    }
}

/// Membership in the legal moves of one row.
proof fn lemma_legal_in_row_contains(g: Seq<Seq<Cell>>, player: Cell, row: int, n: int)
    requires
        0 <= row < 8,
        0 <= n <= 8,
    ensures
        forall|x: (usize, usize)|
            #[trigger] legal_in_row(g, player, row, n).contains(x) <==> (x.0 == row && x.1 < n && legal_at(
                g,
                x.0 as int,
                x.1 as int,
                player,
            )),
    decreases n,
{
    if n > 0 {
        lemma_legal_in_row_contains(g, player, row, n - 1);
        let prev = legal_in_row(g, player, row, n - 1);
        let tail = if legal_at(g, row, n - 1, player) {
            seq![(row as usize, (n - 1) as usize)]
        } else {
            Seq::<(usize, usize)>::empty()
        };
        assert forall|x: (usize, usize)|
            #[trigger] legal_in_row(g, player, row, n).contains(x) <==> (x.0 == row && x.1 < n && legal_at(
                g,
                x.0 as int,
                x.1 as int,
                player,
            )) by {
            assert(legal_in_row(g, player, row, n) == prev + tail);
            if legal_in_row(g, player, row, n).contains(x) {
                let j = choose|j: int| 0 <= j < (prev + tail).len() && #[trigger] (prev + tail)[j] == x;
                if j < prev.len() {
                    assert(prev[j] == x);
                    assert(prev.contains(x));
                }
            }
            if x.0 == row && x.1 < n && legal_at(g, x.0 as int, x.1 as int, player) {
                if x.1 < n - 1 {
                    assert(prev.contains(x));
                    let j = choose|j: int| 0 <= j < prev.len() && #[trigger] prev[j] == x;
                    assert((prev + tail)[j] == x);
                } else {
                    assert((prev + tail)[prev.len() as int] == x);
                }
            }
        }
    } else {
        assert forall|x: (usize, usize)|
            #[trigger] legal_in_row(g, player, row, n).contains(x) <==> (x.0 == row && x.1 < n && legal_at(
                g,
                x.0 as int,
                x.1 as int,
                player,
            )) by {
            assert(legal_in_row(g, player, row, n).len() == 0);
        }
    }
}

/// Membership in the legal moves of the first `n` rows.
proof fn lemma_legal_in_rows_contains(g: Seq<Seq<Cell>>, player: Cell, n: int)
    requires
        0 <= n <= 8,
    ensures
        forall|x: (usize, usize)|
            #[trigger] legal_in_rows(g, player, n).contains(x) <==> (x.0 < n && legal_at(
                g,
                x.0 as int,
                x.1 as int,
                player,
            )),
    decreases n,
{
    if n > 0 {
        lemma_legal_in_rows_contains(g, player, n - 1);
        lemma_legal_in_row_contains(g, player, n - 1, 8);
        let prev = legal_in_rows(g, player, n - 1);
        let tail = legal_in_row(g, player, n - 1, 8);
        assert forall|x: (usize, usize)|
            #[trigger] legal_in_rows(g, player, n).contains(x) <==> (x.0 < n && legal_at(
                g,
                x.0 as int,
                x.1 as int,
                player,
            )) by {
            assert(legal_in_rows(g, player, n) == prev + tail);
            if legal_in_rows(g, player, n).contains(x) {
                let j = choose|j: int| 0 <= j < (prev + tail).len() && #[trigger] (prev + tail)[j] == x;
                if j < prev.len() {
                    assert(prev[j] == x);
                    assert(prev.contains(x));
                } else {
                    assert(tail[j - prev.len()] == x);
                    assert(tail.contains(x));
                }
            }
            if x.0 < n && legal_at(g, x.0 as int, x.1 as int, player) {
                if x.0 < n - 1 {
                    assert(prev.contains(x));
                    let j = choose|j: int| 0 <= j < prev.len() && #[trigger] prev[j] == x;
                    assert((prev + tail)[j] == x);
                } else {
                    assert(tail.contains(x));
                    let j = choose|j: int| 0 <= j < tail.len() && #[trigger] tail[j] == x;
                    assert((prev + tail)[prev.len() + j] == x);
                }
            }
        }
    } else {
        assert forall|x: (usize, usize)|
            #[trigger] legal_in_rows(g, player, n).contains(x) <==> (x.0 < n && legal_at(
                g,
                x.0 as int,
                x.1 as int,
                player,
            )) by {
            assert(legal_in_rows(g, player, n).len() == 0);
        }
    }
}

/// A square is among the legal moves of `player` exactly when it is a legal
/// move of `player`.
pub proof fn lemma_legal_moves_contains(g: Seq<Seq<Cell>>, player: Cell)
    ensures
        forall|x: (usize, usize)|
            #[trigger] legal_moves(g, player).contains(x) <==> legal_at(g, x.0 as int, x.1 as int, player),
{
    lemma_legal_in_rows_contains(g, player, 8);
}

/// Every listed legal move is a legal move, and so lies on the board.
pub proof fn lemma_legal_moves_are_legal(g: Seq<Seq<Cell>>, player: Cell)
    ensures
        forall|i: int|
            0 <= i < legal_moves(g, player).len() ==> {
                let x = #[trigger] legal_moves(g, player)[i];
                legal_at(g, x.0 as int, x.1 as int, player) && on_board(x.0 as int, x.1 as int)
            },
{
    lemma_legal_moves_contains(g, player);
    assert forall|i: int| 0 <= i < legal_moves(g, player).len() implies {
        let x = #[trigger] legal_moves(g, player)[i];
        legal_at(g, x.0 as int, x.1 as int, player) && on_board(x.0 as int, x.1 as int)
    } by {
        assert(legal_moves(g, player).contains(legal_moves(g, player)[i]));
    }
}

/// The counts of a colour are at most the number of squares they range over.
pub proof fn lemma_count_bounds(g: Seq<Seq<Cell>>, color: Cell)
    ensures
        forall|r: int, n: int| 0 <= n ==> #[trigger] count_in_row(g, color, r, n) <= n,
        forall|n: int| 0 <= n ==> #[trigger] count_in_rows(g, color, n) <= 8 * n,
{
    assert forall|r: int, n: int| 0 <= n implies #[trigger] count_in_row(g, color, r, n) <= n by {
        lemma_count_in_row_bound(g, color, r, n);
    }
    assert forall|n: int| 0 <= n implies #[trigger] count_in_rows(g, color, n) <= 8 * n by {
        lemma_count_in_rows_bound(g, color, n);
    }
}

proof fn lemma_count_in_row_bound(g: Seq<Seq<Cell>>, color: Cell, r: int, n: int)
    requires
        0 <= n,
    ensures
        count_in_row(g, color, r, n) <= n,
    decreases n,
{
    if n > 0 {
        lemma_count_in_row_bound(g, color, r, n - 1);
    }
}

proof fn lemma_count_in_rows_bound(g: Seq<Seq<Cell>>, color: Cell, n: int)
    requires
        0 <= n,
    ensures
        count_in_rows(g, color, n) <= 8 * n,
    decreases n,
{
    if n > 0 {
        lemma_count_in_rows_bound(g, color, n - 1);
        lemma_count_in_row_bound(g, color, n - 1, 8);
    }
}

/// Bounds the partial count reached at square `(row, col)` below 64.
pub proof fn lemma_count_prefix(g: Seq<Seq<Cell>>, color: Cell, row: int, col: int)
    requires
        0 <= row < 8,
        0 <= col < 8,
    ensures
        count_in_rows(g, color, row) + count_in_row(g, color, row, col) < 64,
{
    lemma_count_in_rows_bound(g, color, row);
    lemma_count_in_row_bound(g, color, row, col);
}

/// The positional weight table: corners best, squares next to corners worst.
pub open spec fn weight_table() -> Seq<Seq<int>> {
    seq![
        seq![120, -20, 20, 5, 5, 20, -20, 120],
        seq![-20, -40, -5, -5, -5, -5, -40, -20],
        seq![20, -5, 15, 3, 3, 15, -5, 20],
        seq![5, -5, 3, 3, 3, 3, -5, 5],
        seq![5, -5, 3, 3, 3, 3, -5, 5],
        seq![20, -5, 15, 3, 3, 15, -5, 20],
        seq![-20, -40, -5, -5, -5, -5, -40, -20],
        seq![120, -20, 20, 5, 5, 20, -20, 120],
    ]
}

/// The positional weight of square `(r, c)`.
pub open spec fn weight(r: int, c: int) -> int {
    weight_table()[r][c]
}

/// The positional weight of square `(row, col)` in the standard Othello table.
pub fn positional_weight(row: usize, col: usize) -> (w: i32)
    requires
        row < 8,
        col < 8,
    ensures
        w == weight(row as int, col as int),
{
    let table: [[i32; 8]; 8] = [
        [120, -20, 20, 5, 5, 20, -20, 120],
        [-20, -40, -5, -5, -5, -5, -40, -20],
        [20, -5, 15, 3, 3, 15, -5, 20],
        [5, -5, 3, 3, 3, 3, -5, 5],
        [5, -5, 3, 3, 3, 3, -5, 5],
        [20, -5, 15, 3, 3, 15, -5, 20],
        [-20, -40, -5, -5, -5, -5, -40, -20],
        [120, -20, 20, 5, 5, 20, -20, 120],
    ];
    table[row][col]
}

/// The weight table is symmetric under every symmetry of the square board:
/// the two mirror images and the transposition.
pub proof fn lemma_weight_symmetric(r: int, c: int)
    requires
        on_board(r, c),
    ensures
        weight(r, c) == weight(c, r),
        weight(r, c) == weight(7 - r, c),
        weight(r, c) == weight(r, 7 - c),
{
    assert(r == 0 || r == 1 || r == 2 || r == 3 || r == 4 || r == 5 || r == 6 || r == 7);
    assert(c == 0 || c == 1 || c == 2 || c == 3 || c == 4 || c == 5 || c == 6 || c == 7);
}

/// The corners weigh most of all squares, and the squares diagonally next to
/// the corners least.
pub proof fn lemma_weight_extremes(r: int, c: int)
    requires
        on_board(r, c),
    ensures
        weight(r, c) <= weight(0, 0),
        weight(r, c) >= weight(1, 1),
        weight(0, 0) == weight(0, 7) && weight(0, 0) == weight(7, 0) && weight(0, 0) == weight(7, 7),
        weight(r, c) == weight(0, 0) ==> (r == 0 || r == 7) && (c == 0 || c == 7),
{
    assert(r == 0 || r == 1 || r == 2 || r == 3 || r == 4 || r == 5 || r == 6 || r == 7);
    assert(c == 0 || c == 1 || c == 2 || c == 3 || c == 4 || c == 5 || c == 6 || c == 7);
}

} // verus!
