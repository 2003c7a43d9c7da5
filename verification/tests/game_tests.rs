use reversi::board::{positional_weight, Board};
use reversi::cell::Cell;
use reversi::game::Game;
use reversi::model::{Key, Status};
use reversi::screen::{Highlight, Layout, Tone};

const E: Cell = Cell::Empty;
const B: Cell = Cell::Black;
const W: Cell = Cell::White;

fn empty_board() -> Board {
    [[E; 8]; 8]
}

fn game_with(board: Board, black_turn: bool) -> Game {
    let mut g = Game::new((120, 40));
    g.board = board;
    g.black_turn = black_turn;
    g.recount();
    g.compute_valid_moves();
    g
}

fn count(g: &Game, c: Cell) -> u8 {
    let mut n = 0;
    for r in 0..8 {
        for col in 0..8 {
            if g.board[r][col] == c {
                n += 1;
            }
        }
    }
    n
}

#[test]
fn opponent_swaps_colours() {
    assert_eq!(B.opponent(), W);
    assert_eq!(W.opponent(), B);
    assert_eq!(E.opponent(), E);
    assert!(E.is_empty());
    assert!(!B.is_empty());
}

#[test]
fn new_game_starting_position() {
    let g = Game::new((100, 50));
    assert_eq!(g.board[3][3], W);
    assert_eq!(g.board[3][4], B);
    assert_eq!(g.board[4][3], B);
    assert_eq!(g.board[4][4], W);
    assert_eq!(count(&g, E), 60);
    assert_eq!(g.black_count, 2);
    assert_eq!(g.white_count, 2);
    assert_eq!(g.cursor, (3, 2));
    assert!(g.black_turn);
    assert!(!g.game_over);
    assert!(!g.animating);
    assert!(g.needs_clear);
    assert_eq!(g.last_term_size, (100, 50));
    assert_eq!(g.status, Status::YourTurn);
    assert_eq!(g.valid_moves, vec![(2, 3), (3, 2), (4, 5), (5, 4)]);
    assert!(g.pending_flips.is_empty());
}

#[test]
fn legal_moves_of_white_at_start() {
    let g = Game::new((120, 40));
    assert_eq!(g.legal_moves_for(W), vec![(2, 4), (3, 5), (4, 2), (5, 3)]);
    assert_eq!(g.legal_moves_for(E), vec![]);
}

#[test]
fn would_flip_only_on_closed_lines() {
    let g = Game::new((120, 40));
    assert!(g.would_flip(2, 3, B));
    assert!(!g.would_flip(2, 2, B));
    assert!(!g.would_flip(0, 0, B));
    assert!(g.would_flip(2, 4, W));
    assert!(!g.would_flip(2, 3, W));
    assert!(!g.would_flip(2, 3, E));
}

#[test]
fn collect_flips_single_wave() {
    let g = Game::new((120, 40));
    assert_eq!(g.collect_flips(2, 3, B), vec![vec![(3, 3)]]);
}

#[test]
fn collect_flips_without_flips_gives_one_empty_wave() {
    let g = Game::new((120, 40));
    assert_eq!(g.collect_flips(0, 0, B), vec![Vec::<(usize, usize)>::new()]);
}

#[test]
fn collect_flips_groups_by_distance() {
    let mut b = empty_board();
    // row 0: placed at (0,0); whites at (0,1),(0,2),(0,3), black at (0,4)
    b[0][1] = W;
    b[0][2] = W;
    b[0][3] = W;
    b[0][4] = B;
    // column 0: white at (1,0), black at (2,0)
    b[1][0] = W;
    b[2][0] = B;
    // diagonal: white (1,1),(2,2), black (3,3)
    b[1][1] = W;
    b[2][2] = W;
    b[3][3] = B;
    let g = game_with(b, true);
    assert_eq!(
        g.collect_flips(0, 0, B),
        vec![vec![(0, 1), (1, 0), (1, 1)], vec![(0, 2), (2, 2)], vec![(0, 3)]]
    );
    assert!(g.would_flip(0, 0, B));
}

#[test]
fn unclosed_line_flips_nothing() {
    let mut b = empty_board();
    b[0][1] = W;
    b[0][2] = W;
    b[5][5] = B;
    let g = game_with(b, true);
    assert!(!g.would_flip(0, 0, B));
    assert_eq!(g.collect_flips(0, 0, B), vec![Vec::<(usize, usize)>::new()]);
}

#[test]
fn positional_weight_table() {
    assert_eq!(positional_weight(0, 0), 120);
    assert_eq!(positional_weight(0, 1), -20);
    assert_eq!(positional_weight(1, 1), -40);
    assert_eq!(positional_weight(2, 2), 15);
    assert_eq!(positional_weight(3, 3), 3);
    assert_eq!(positional_weight(7, 7), 120);
    assert_eq!(positional_weight(2, 0), 20);
    assert_eq!(positional_weight(1, 3), -5);
}

#[test]
fn positional_weight_is_symmetric() {
    for r in 0..8 {
        for c in 0..8 {
            let w = positional_weight(r, c);
            assert_eq!(w, positional_weight(c, r));
            assert_eq!(w, positional_weight(7 - r, c));
            assert_eq!(w, positional_weight(r, 7 - c));
        }
    }
}

#[test]
fn enter_places_and_animation_finishes_the_move() {
    let mut g = Game::new((120, 40));
    g.handle_key(Key::Enter, (120, 40));
    assert!(g.animating);
    assert_eq!(g.board[3][2], B);
    assert_eq!(g.board[3][3], W);
    assert!(g.flip_to_black);
    assert!(g.valid_moves.is_empty());
    assert_eq!(g.pending_flips, vec![vec![(3, 3)]]);
    // keys are ignored during the animation
    g.handle_key(Key::Left, (120, 40));
    assert_eq!(g.cursor, (3, 2));
    let done = g.advance_animation();
    assert!(done);
    assert!(!g.animating);
    assert_eq!(g.board[3][3], B);
    assert_eq!(g.black_count, 4);
    assert_eq!(g.white_count, 1);
    assert!(!g.black_turn);
    assert_eq!(g.status, Status::BotThinking);
    assert_eq!(g.valid_moves, g.legal_moves_for(W));
}

#[test]
fn waves_are_shown_one_at_a_time() {
    let mut b = empty_board();
    b[0][1] = W;
    b[0][2] = W;
    b[0][3] = B;
    b[7][7] = W;
    let mut g = game_with(b, true);
    g.place(0, 0);
    assert_eq!(g.pending_flips.len(), 2);
    assert!(!g.advance_animation());
    assert_eq!(g.board[0][1], B);
    assert_eq!(g.board[0][2], W);
    assert!(g.animating);
    assert!(g.advance_animation());
    assert_eq!(g.board[0][2], B);
    assert!(!g.animating);
    assert_eq!(g.black_count, 4);
    assert_eq!(g.white_count, 1);
}

#[test]
fn advance_with_no_waves_finishes() {
    let mut g = Game::new((120, 40));
    g.animating = true;
    g.valid_moves.clear();
    assert!(g.advance_animation());
    assert!(!g.animating);
    // the turn passed to White, who has moves
    assert!(!g.black_turn);
    assert_eq!(g.status, Status::BotThinking);
}

#[test]
fn invalid_square_is_refused() {
    let mut g = Game::new((120, 40));
    g.try_place(0, 0);
    assert_eq!(g.status, Status::InvalidMove);
    assert!(!g.animating);
    assert_eq!(g.board, Game::new((120, 40)).board);
    assert_eq!(g.status.message(), "Invalid move - pick a highlighted square.");
}

#[test]
fn cursor_moves_within_the_board() {
    let mut g = Game::new((120, 40));
    g.handle_key(Key::Up, (120, 40));
    assert_eq!(g.cursor, (2, 2));
    g.handle_key(Key::Right, (120, 40));
    assert_eq!(g.cursor, (2, 3));
    g.handle_key(Key::Down, (120, 40));
    g.handle_key(Key::Left, (120, 40));
    assert_eq!(g.cursor, (3, 2));
    for _ in 0..10 {
        g.handle_key(Key::Up, (120, 40));
        g.handle_key(Key::Left, (120, 40));
    }
    assert_eq!(g.cursor, (0, 0));
    for _ in 0..10 {
        g.handle_key(Key::Down, (120, 40));
        g.handle_key(Key::Right, (120, 40));
    }
    assert_eq!(g.cursor, (7, 7));
    g.handle_key(Key::Other, (120, 40));
    assert_eq!(g.cursor, (7, 7));
}

#[test]
fn space_places_like_enter() {
    let mut g = Game::new((120, 40));
    g.handle_key(Key::Up, (120, 40));
    g.handle_key(Key::Right, (120, 40));
    g.handle_key(Key::Char(' '), (120, 40));
    assert!(g.animating);
    assert_eq!(g.board[2][3], B);
}

#[test]
fn keys_ignored_on_bot_turn() {
    let mut g = Game::new((120, 40));
    g.black_turn = false;
    g.handle_key(Key::Up, (120, 40));
    assert_eq!(g.cursor, (3, 2));
    g.handle_key(Key::Char('r'), (120, 40));
    assert!(!g.black_turn);
}

#[test]
fn restart_key_resets_game() {
    let mut g = Game::new((120, 40));
    g.handle_key(Key::Enter, (120, 40));
    g.advance_animation();
    g.bot_move();
    while g.animating {
        g.advance_animation();
    }
    assert!(g.black_turn);
    g.handle_key(Key::Char('R'), (120, 40));
    assert_eq!(g.board, Game::new((120, 40)).board);
    assert_eq!(g.black_count, 2);
    assert!(g.black_turn);
    assert_eq!(g.status, Status::YourTurn);
}

#[test]
fn bot_picks_heaviest_square() {
    // White can take the corner (0,0) or the square (2,4)
    let mut b = empty_board();
    b[0][1] = B;
    b[0][2] = W;
    b[3][4] = B;
    b[4][4] = W;
    let mut g = game_with(b, false);
    let moves = g.legal_moves_for(W);
    assert_eq!(moves, vec![(0, 0), (2, 4)]);
    g.bot_move();
    assert_eq!(g.board[0][0], W);
    assert!(g.animating);
    assert!(!g.flip_to_black);
}

#[test]
fn bot_takes_last_of_equal_weights() {
    let mut g = Game::new((120, 40));
    g.black_turn = false;
    g.compute_valid_moves();
    // White's moves (2,4),(3,5),(4,2),(5,3) all weigh 3; the last wins
    g.bot_move();
    assert_eq!(g.board[5][3], W);
    assert_eq!(g.board[4][3], B);
    g.advance_animation();
    assert_eq!(g.board[4][3], W);
}

#[test]
fn bot_without_moves_does_nothing() {
    let mut b = empty_board();
    b[0][0] = B;
    let mut g = game_with(b, false);
    g.bot_move();
    assert_eq!(g.board, b);
    assert!(!g.animating);
}

#[test]
fn game_over_when_nobody_can_move() {
    let mut b = [[B; 8]; 8];
    b[7][6] = W;
    b[0][0] = E;
    let mut g = game_with(b, true);
    g.recount();
    g.end_turn();
    assert!(g.game_over);
    assert_eq!(g.status, Status::YouWin);
    assert_eq!(g.status.message(), "You win! Press R to restart.");
    assert!(g.valid_moves.is_empty());
    // only R counts once the game is over
    g.handle_key(Key::Enter, (120, 40));
    assert!(g.game_over);
    g.handle_key(Key::Char('r'), (120, 40));
    assert!(!g.game_over);
    assert_eq!(g.valid_moves, vec![(2, 3), (3, 2), (4, 5), (5, 4)]);
}

#[test]
fn game_over_results() {
    let mut b = [[W; 8]; 8];
    b[0][0] = B;
    let mut g = game_with(b, true);
    g.end_turn();
    assert!(g.game_over);
    assert_eq!(g.status, Status::BotWins);

    let mut b = [[E; 8]; 8];
    b[0][0] = B;
    b[7][7] = W;
    let mut g = game_with(b, false);
    g.end_turn();
    assert!(g.game_over);
    assert_eq!(g.status, Status::Draw);
    assert_eq!(g.status.message(), "Draw! Press R to restart.");
}

#[test]
fn turn_is_skipped_when_opponent_cannot_move() {
    // White to move next has nothing; Black can still play (0,2)
    let mut b = empty_board();
    b[0][0] = B;
    b[0][1] = W;
    let mut g = game_with(b, false);
    // Black just moved: ending its turn hands over to... White has no move
    g.black_turn = true;
    g.end_turn();
    assert!(!g.game_over);
    assert!(g.black_turn);
    assert_eq!(g.status, Status::WhiteSkipped);
    assert_eq!(g.status.message(), "White has no moves - turn skipped!");
    assert_eq!(g.valid_moves, vec![(0, 2)]);
}

#[test]
fn recount_counts_discs() {
    let mut g = Game::new((120, 40));
    g.board[0][0] = B;
    g.board[7][0] = W;
    g.board[7][1] = W;
    g.recount();
    assert_eq!(g.black_count, 3);
    assert_eq!(g.white_count, 4);
}

#[test]
fn status_messages() {
    assert_eq!(Status::YourTurn.message(), "Your turn (Black) - select a square");
    assert_eq!(Status::BotThinking.message(), "Bot is thinking...");
    assert_eq!(Status::BlackSkipped.message(), "Black has no moves - turn skipped!");
    assert_eq!(Status::BotWins.message(), "Bot wins! Press R to restart.");
}

#[test]
fn animation_step_lets_bot_reply() {
    let mut g = Game::new((120, 40));
    g.handle_key(Key::Enter, (120, 40));
    g.animation_step();
    // the human's move is done and the bot has already placed
    assert!(!g.black_turn);
    assert!(g.animating);
    assert_eq!(g.board[2][2], W);
    assert!(g.bot_to_move());
    while g.animating {
        g.animation_step();
    }
    assert!(g.black_turn);
    assert!(!g.bot_to_move());
}

#[test]
fn layout_centres_picture() {
    let l = Layout::layout(120, 40);
    assert_eq!((l.ox, l.oy, l.board_x, l.board_y), (24, 0, 27, 2));
    assert_eq!(l.cell_origin(0, 0), (28, 3));
    assert_eq!(l.cell_origin(7, 7), (70, 31));
    assert_eq!(l.disc_pos(0, 0), (29, 4));
    assert_eq!(l.row_label_pos(1), (24, 8));
    assert_eq!(l.col_label_pos(2), (42, 35));
    assert_eq!(l.status_row(), 37);
    assert_eq!(l.sidebar_col(), 78);
    let small = Layout::layout(10, 10);
    assert_eq!((small.ox, small.oy), (0, 0));
    let big = Layout::layout(u16::MAX, u16::MAX);
    assert_eq!((big.ox, big.oy), (32731, 32748));
}

#[test]
fn square_look_and_tones() {
    let mut g = Game::new((120, 40));
    assert_eq!(g.square_look(3, 2), (Highlight::Cursor, true));
    assert_eq!(g.square_look(2, 3), (Highlight::Valid, true));
    assert_eq!(g.square_look(3, 3), (Highlight::Plain, false));
    assert_eq!(g.status_tone(), Tone::HumanTurn);
    assert_eq!(g.active_side(), Cell::Black);
    g.black_turn = false;
    assert_eq!(g.square_look(3, 2), (Highlight::Valid, true));
    assert_eq!(g.status_tone(), Tone::BotTurn);
    assert_eq!(g.active_side(), Cell::White);
    g.game_over = true;
    assert_eq!(g.status_tone(), Tone::GameOver);
    assert_eq!(g.active_side(), Cell::Empty);
}

#[test]
fn terminal_resize_requests_clear() {
    let mut g = Game::new((120, 40));
    g.needs_clear = false;
    g.note_terminal_size((120, 40));
    assert!(!g.needs_clear);
    g.note_terminal_size((80, 24));
    assert!(g.needs_clear);
    assert_eq!(g.last_term_size, (80, 24));
}

#[test]
fn whole_game_keeps_state_coherent() {
    let mut g = Game::new((120, 40));
    let mut plies = 0;
    while !g.game_over && plies < 2000 {
        if g.animating {
            g.animation_step();
        } else if g.bot_to_move() {
            g.bot_move();
        } else {
            assert!(g.black_turn);
            let mv = g.valid_moves[g.valid_moves.len() / 2];
            g.try_place(mv.0, mv.1);
            assert!(g.animating);
        }
        if !g.animating {
            assert_eq!(g.black_count, count(&g, B));
            assert_eq!(g.white_count, count(&g, W));
            if !g.game_over {
                let p = if g.black_turn { B } else { W };
                assert_eq!(g.valid_moves, g.legal_moves_for(p));
                assert!(!g.valid_moves.is_empty());
            }
        }
        plies += 1;
    }
    assert!(g.game_over);
    assert!(g.valid_moves.is_empty());
    assert!(g.legal_moves_for(B).is_empty());
    assert!(g.legal_moves_for(W).is_empty());
    assert!(g.black_count as u32 + g.white_count as u32 <= 64);
}

#[test]
fn would_flip_from_just_outside_the_board() {
    let mut b = empty_board();
    b[7][3] = W;
    b[6][3] = B;
    let g = game_with(b, true);
    assert!(g.would_flip(8, 3, B));
    assert_eq!(g.collect_flips(8, 3, B), vec![vec![(7, 3)]]);
    assert!(!g.would_flip(100, 100, B));
}
