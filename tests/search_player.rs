use reversi::ai::{MinMaxPlayer, SCORE_SCALE};
use reversi::reversi::{Board, Color, Player, Position, Vector2};

#[test]
fn heuristic_counts_discs() {
    let board = Board::new();
    assert_eq!(MinMaxPlayer::evaluate_board(Color::Black, &board), 2);
    assert_eq!(MinMaxPlayer::evaluate_board(Color::White, &board), 2);
}

#[test]
fn heuristic_rewards_corners() {
    // On a 2 x 2 board every cell is a corner; Black holds (1,0) and (0,1).
    let board = Board::new_with_size(Vector2::new(2, 2));
    assert_eq!(MinMaxPlayer::evaluate_board(Color::Black, &board), 2 + 64 * 2);
    assert_eq!(MinMaxPlayer::evaluate_board(Color::White, &board), 2 + 64 * 2);
}

#[test]
fn evaluation_at_horizon_is_zero() {
    let board = Board::new();
    assert_eq!(MinMaxPlayer::evaluate_position(Color::Black, &board, Position::new(2, 3), 0), 0);
}

#[test]
fn evaluation_of_illegal_move() {
    let board = Board::new();
    assert_eq!(
        MinMaxPlayer::evaluate_position(Color::Black, &board, Position::new(0, 0), 3),
        -SCORE_SCALE
    );
}

#[test]
fn evaluation_one_ply() {
    // Black (2,3) leaves 4 Black discs; White's first listed reply (2,2)
    // leaves 3: 50 * 4 - 49 * 3.
    let board = Board::new();
    assert_eq!(MinMaxPlayer::evaluate_position(Color::Black, &board, Position::new(2, 3), 1), 53);
}

#[test]
fn evaluation_when_opponent_cannot_answer() {
    let mut found = 0;
    for (w, h) in [(4usize, 4usize), (4, 6), (6, 4), (3, 5)] {
        let mut board = Board::new_with_size(Vector2::new(w, h));
        let mut color = Color::Black;
        let mut passes = 0;
        while passes < 2 {
            let moves = board.placeable_positions(color);
            if moves.is_empty() {
                passes += 1;
            } else {
                passes = 0;
                for p in moves.iter() {
                    let mut after = board.clone();
                    assert_eq!(after.place(color, *p), Ok(()));
                    if !after.check_placeable_somewhere(color.opponent()) {
                        found += 1;
                        assert_eq!(
                            MinMaxPlayer::evaluate_position(color, &board, *p, 2),
                            SCORE_SCALE
                        );
                    }
                }
                assert_eq!(board.place(color, moves[0]), Ok(()));
            }
            color = color.opponent();
        }
    }
    assert!(found > 0);
}

#[test]
fn search_takes_first_of_equal_moves() {
    let board = Board::new();
    assert_eq!(MinMaxPlayer::highest_score_position(Color::Black, &board, 1), Position::new(3, 2));
}

#[test]
fn search_is_deterministic() {
    let board = Board::new();
    let a = MinMaxPlayer::highest_score_position(Color::Black, &board, 4);
    let b = MinMaxPlayer::highest_score_position(Color::Black, &board, 4);
    assert_eq!(a, b);
    assert!(board.placeable_positions(Color::Black).contains(&a));
    let player = MinMaxPlayer::new();
    assert_eq!(player.decide_position(Color::Black, &board), a);
}

#[test]
fn search_without_moves() {
    let board = Board::new_with_size(Vector2::new(2, 2));
    assert_eq!(
        MinMaxPlayer::highest_score_position(Color::White, &board, 3),
        Position::new(-1, -1)
    );
}

#[test]
fn player_remembers_color() {
    let mut player = MinMaxPlayer::new();
    assert_eq!(player.color, Color::Black);
    player.tell_color(Color::White);
    assert_eq!(player.color, Color::White);
}

#[test]
fn self_play_stays_legal() {
    let mut board = Board::new_with_size(Vector2::new(6, 6));
    let player = MinMaxPlayer::new();
    let mut color = Color::Black;
    let mut passes = 0;
    while passes < 2 {
        if board.check_placeable_somewhere(color) {
            passes = 0;
            let p = player.decide_position(color, &board);
            assert!(board.check_placeable(color, p));
            let total = board.count(Color::Black) + board.count(Color::White);
            assert_eq!(board.place(color, p), Ok(()));
            assert_eq!(board.count(Color::Black) + board.count(Color::White), total + 1);
        } else {
            passes += 1;
        }
        color = color.opponent();
    }
}
