use reversi::cell::Cell;
use reversi::game::Game;

fn total(g: &Game) -> usize {
    g.board.iter().flatten().filter(|c| **c != Cell::Empty).count()
}

#[test]
fn would_flip_matches_first_wave() {
    let mut g = Game::new((120, 40));
    for step in 0..400 {
        if g.game_over {
            break;
        }
        for r in 0..8 {
            for c in 0..8 {
                for p in [Cell::Black, Cell::White] {
                    let waves = g.collect_flips(r, c, p);
                    assert!(!waves.is_empty());
                    assert_eq!(g.would_flip(r, c, p), !waves[0].is_empty());
                    for w in &waves {
                        for &(fr, fc) in w {
                            assert_eq!(g.board[fr][fc], p.opponent());
                        }
                    }
                }
            }
        }
        if g.animating {
            g.animation_step();
        } else if g.bot_to_move() {
            g.bot_move();
        } else {
            let mv = g.valid_moves[step % g.valid_moves.len()];
            g.try_place(mv.0, mv.1);
        }
    }
}

#[test]
fn completed_move_adds_one_disc() {
    let mut g = Game::new((120, 40));
    let before = total(&g);
    g.try_place(2, 3);
    while g.animating {
        g.advance_animation();
    }
    assert_eq!(total(&g), before + 1);
    assert_eq!(g.black_count + g.white_count, 5);
}

#[test]
fn refused_move_changes_only_the_message() {
    let g0 = Game::new((120, 40));
    let mut g = Game::new((120, 40));
    g.try_place(2, 2);
    assert_eq!(g.board, g0.board);
    assert_eq!(g.valid_moves, g0.valid_moves);
    assert_eq!(g.black_turn, g0.black_turn);
    assert!(!g.animating);
}

#[test]
fn legal_moves_are_exactly_the_legal_squares() {
    let g = Game::new((120, 40));
    for p in [Cell::Black, Cell::White] {
        let moves = g.legal_moves_for(p);
        for r in 0..8 {
            for c in 0..8 {
                let legal = g.board[r][c].is_empty() && g.would_flip(r, c, p);
                assert_eq!(moves.contains(&(r, c)), legal);
            }
        }
    }
}

#[test]
fn completed_move_counts_per_colour() {
    let mut g = Game::new((120, 40));
    for _ in 0..12 {
        if g.game_over {
            break;
        }
        if g.animating {
            g.animation_step();
            continue;
        }
        let p = if g.black_turn { Cell::Black } else { Cell::White };
        let (r, c) = g.valid_moves[g.valid_moves.len() - 1];
        let flipped: usize = g.collect_flips(r, c, p).concat().len();
        let (mine, theirs) = if g.black_turn {
            (g.black_count as usize, g.white_count as usize)
        } else {
            (g.white_count as usize, g.black_count as usize)
        };
        g.try_place(r, c);
        while g.animating {
            g.advance_animation();
        }
        let (mine2, theirs2) = if p == Cell::Black {
            (g.black_count as usize, g.white_count as usize)
        } else {
            (g.white_count as usize, g.black_count as usize)
        };
        assert_eq!(mine2, mine + 1 + flipped);
        assert_eq!(theirs2 + flipped, theirs);
    }
}

#[test]
fn restart_uses_the_given_terminal_size() {
    let mut g = Game::new((120, 40));
    g.handle_key(reversi::model::Key::Char('r'), (80, 24));
    assert_eq!(g.last_term_size, (80, 24));
    assert!(g.needs_clear);
}

#[test]
fn off_board_cursor_not_on_offer_is_refused() {
    let mut g = Game::new((120, 40));
    g.cursor = (9, 9);
    g.handle_key(reversi::model::Key::Enter, (120, 40));
    assert_eq!(g.status, reversi::model::Status::InvalidMove);
    g.try_place(20, 20);
    assert!(!g.animating);
}
