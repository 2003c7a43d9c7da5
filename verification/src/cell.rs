use vstd::prelude::*;

verus! {

/// The contents of one square of the board.
#[derive(Clone, Copy, Debug, PartialEq, Eq, Structural)]
pub enum Cell {
    Empty,
    Black,
    White,
}

/// The colour that plays against `c`; an empty square has no opponent.
pub open spec fn opponent_of(c: Cell) -> Cell {
    match c {
        Cell::Black => Cell::White,
        Cell::White => Cell::Black,
        Cell::Empty => Cell::Empty,
    }
}

/// The colour whose turn it is, given whether Black is to move.
pub open spec fn player_for(black_turn: bool) -> Cell {
    if black_turn {
        Cell::Black
    } else {
        Cell::White
    }
}

impl Cell {
    /// The opposing colour; `Empty` for an empty square.
    pub fn opponent(&self) -> (r: Cell)
        ensures
            r == opponent_of(*self),
    {
        match self {
            Cell::Black => Cell::White,
            Cell::White => Cell::Black,
            _ => Cell::Empty,
        }
    }

    /// Whether the square holds no disc.
    pub fn is_empty(&self) -> (r: bool)
        ensures
            r == (*self == Cell::Empty),
    {
        match self {
            Cell::Empty => true,
            _ => false,
        }
    }
}

/// The disc colour of the player to move.
pub fn current_player(black_turn: bool) -> (r: Cell)
    ensures
        r == player_for(black_turn),
{
    if black_turn {
        Cell::Black
    } else {
        Cell::White
    }
}

/// Opposing colours are an involution on the two disc colours, and the
/// opponent of a disc colour is the other disc colour.
pub proof fn lemma_opponent_involutive(c: Cell)
    requires
        c != Cell::Empty,
    ensures
        opponent_of(opponent_of(c)) == c,
        opponent_of(c) != c,
        opponent_of(c) != Cell::Empty,
{
}

} // verus!
