use reversi::reversi::{Board, CellState, Color, PlaceError, Position, Vector2};

fn cells(board: &Board) -> Vec<Vec<CellState>> {
    let mut rows = Vec::new();
    for y in 0..board.height() {
        let mut row = Vec::new();
        for x in 0..board.width() {
            row.push(board.cell(x, y));
        }
        rows.push(row);
    }
    rows
}

fn pos(x: isize, y: isize) -> Position {
    Position::new(x, y)
}

fn check_initial(w: usize, h: usize) {
    let board = Board::new_with_size(Vector2::new(w, h));
    assert_eq!(board.width(), w);
    assert_eq!(board.height(), h);
    assert_eq!(board.count(Color::Black), 2);
    assert_eq!(board.count(Color::White), 2);
    let (cx, cy) = (w / 2 - 1, h / 2 - 1);
    for y in 0..h {
        for x in 0..w {
            let expected = if (x == cx && y == cy) || (x == cx + 1 && y == cy + 1) {
                CellState::White
            } else if (x == cx && y == cy + 1) || (x == cx + 1 && y == cy) {
                CellState::Black
            } else {
                CellState::Empty
            };
            assert_eq!(board.cell(x, y), expected, "cell ({}, {}) of {}x{}", x, y, w, h);
        }
    }
}

#[test]
fn initial_board_standard() {
    check_initial(8, 8);
    let board = Board::new();
    assert_eq!(cells(&board), cells(&Board::new_with_size(Vector2::new(8, 8))));
}

#[test]
fn initial_board_other_sizes() {
    check_initial(2, 2);
    check_initial(4, 4);
    check_initial(6, 4);
    check_initial(4, 10);
    check_initial(5, 7);
}

#[test]
fn initial_legal_moves_black() {
    let board = Board::new();
    assert_eq!(
        board.placeable_positions(Color::Black),
        vec![pos(3, 2), pos(2, 3), pos(5, 4), pos(4, 5)]
    );
}

#[test]
fn initial_legal_moves_white() {
    let board = Board::new();
    assert_eq!(
        board.placeable_positions(Color::White),
        vec![pos(4, 2), pos(5, 3), pos(2, 4), pos(3, 5)]
    );
}

#[test]
fn initial_legal_moves_non_square() {
    let board = Board::new_with_size(Vector2::new(6, 4));
    assert_eq!(
        board.placeable_positions(Color::Black),
        vec![pos(2, 0), pos(1, 1), pos(4, 2), pos(3, 3)]
    );
    assert_eq!(board.placeable_positions(Color::White).len(), 4);
}

#[test]
fn legality_queries() {
    let board = Board::new();
    assert!(board.check_placeable(Color::Black, pos(5, 4)));
    assert!(!board.check_placeable(Color::White, pos(5, 4)));
    // occupied
    assert!(!board.check_placeable(Color::Black, pos(3, 3)));
    // empty but captures nothing
    assert!(!board.check_placeable(Color::Black, pos(0, 0)));
    // adjacent to an own disc only
    assert!(!board.check_placeable(Color::Black, pos(5, 2)));
    // off the board
    assert!(!board.check_placeable(Color::Black, pos(-1, 3)));
    assert!(!board.check_placeable(Color::Black, pos(8, 3)));
    assert!(board.check_placeable_somewhere(Color::Black));
    assert!(board.check_placeable_somewhere(Color::White));
}

#[test]
fn rejected_place_leaves_board_unchanged() {
    let mut board = Board::new();
    let before = cells(&board);
    assert_eq!(board.place(Color::Black, pos(3, 3)), Err(PlaceError::IllegalMove));
    assert_eq!(cells(&board), before);
    assert_eq!(board.place(Color::Black, pos(0, 0)), Err(PlaceError::IllegalMove));
    assert_eq!(cells(&board), before);
    assert_eq!(board.place(Color::White, pos(3, 2)), Err(PlaceError::IllegalMove));
    assert_eq!(cells(&board), before);
    assert_eq!(board.place(Color::Black, pos(8, 0)), Err(PlaceError::OutOfBounds));
    assert_eq!(cells(&board), before);
    assert_eq!(board.place(Color::Black, pos(0, -1)), Err(PlaceError::OutOfBounds));
    assert_eq!(cells(&board), before);
}

#[test]
fn opening_move_flips_one_disc() {
    let mut board = Board::new();
    assert!(board.check_placeable(Color::Black, pos(5, 4)));
    assert_eq!(board.place(Color::Black, pos(5, 4)), Ok(()));
    assert_eq!(board.cell(5, 4), CellState::Black);
    assert_eq!(board.cell(4, 4), CellState::Black);
    assert_eq!(board.cell(3, 3), CellState::White);
    assert_eq!(board.count(Color::Black), 4);
    assert_eq!(board.count(Color::White), 1);
}

#[test]
fn every_opening_flips_exactly_one() {
    for p in Board::new().placeable_positions(Color::Black) {
        let mut board = Board::new();
        assert_eq!(board.place(Color::Black, p), Ok(()));
        assert_eq!(board.count(Color::Black), 4);
        assert_eq!(board.count(Color::White), 1);
    }
}

#[test]
fn place_flips_runs_in_several_directions() {
    let mut board = Board::new();
    assert_eq!(board.place(Color::Black, pos(2, 3)), Ok(()));
    assert_eq!(board.place(Color::White, pos(2, 2)), Ok(()));
    // White now holds (2,2), (3,3), (4,4); Black (2,3), (4,3), (3,4).
    assert_eq!(board.cell(3, 3), CellState::White);
    let before = cells(&board);
    assert_eq!(board.place(Color::Black, pos(1, 1)), Err(PlaceError::IllegalMove));
    assert_eq!(cells(&board), before);
    // The diagonal (4,4), (3,3), (2,2) is White up to the empty (1,1).
    assert!(!board.check_placeable(Color::Black, pos(5, 5)));
    // Black at (3,2): down (3,3) White then (3,4) Black; left-down (2,3) is
    // Black at once; right-down (4,3) Black at once.
    assert_eq!(board.place(Color::Black, pos(3, 2)), Ok(()));
    assert_eq!(board.cell(3, 3), CellState::Black);
    assert_eq!(board.cell(2, 2), CellState::White);
    assert_eq!(board.cell(4, 4), CellState::White);
    // White at (4,2) captures along two directions.
    assert_eq!(board.place(Color::White, pos(4, 2)), Ok(()));
    assert_eq!(board.cell(3, 2), CellState::White);
    assert_eq!(board.cell(4, 3), CellState::White);
    // diagonal down-left: (3,3) Black, (2,4) empty: not captured
    assert_eq!(board.cell(3, 3), CellState::Black);
    assert_eq!(board.count(Color::White), 5);
    assert_eq!(board.count(Color::Black), 3);
}

#[test]
fn place_keeps_disc_total_plus_one() {
    let mut board = Board::new();
    let mut color = Color::Black;
    for _ in 0..20 {
        let moves = board.placeable_positions(color);
        if moves.is_empty() {
            color = color.opponent();
            continue;
        }
        let before = board.count(Color::Black) + board.count(Color::White);
        let p = moves[moves.len() / 2];
        assert_eq!(board.place(color, p), Ok(()));
        assert_eq!(board.count(Color::Black) + board.count(Color::White), before + 1);
        color = color.opponent();
    }
}

#[test]
fn full_board_refuses_every_place() {
    let mut board = Board::new_with_size(Vector2::new(2, 2));
    assert!(!board.check_placeable_somewhere(Color::Black));
    assert!(!board.check_placeable_somewhere(Color::White));
    assert!(board.placeable_positions(Color::Black).is_empty());
    let before = cells(&board);
    for y in 0..2 {
        for x in 0..2 {
            assert_eq!(board.place(Color::Black, pos(x, y)), Err(PlaceError::IllegalMove));
            assert_eq!(board.place(Color::White, pos(x, y)), Err(PlaceError::IllegalMove));
        }
    }
    assert_eq!(board.place(Color::White, pos(2, 0)), Err(PlaceError::OutOfBounds));
    assert_eq!(cells(&board), before);
}

#[test]
fn game_played_to_the_end_is_terminal() {
    let mut board = Board::new_with_size(Vector2::new(4, 4));
    let mut color = Color::Black;
    let mut passes = 0;
    while passes < 2 {
        let moves = board.placeable_positions(color);
        if moves.is_empty() {
            passes += 1;
        } else {
            passes = 0;
            assert_eq!(board.place(color, moves[0]), Ok(()));
        }
        color = color.opponent();
    }
    assert!(!board.check_placeable_somewhere(Color::Black));
    assert!(!board.check_placeable_somewhere(Color::White));
    for y in 0..4 {
        for x in 0..4 {
            assert_eq!(board.place(Color::Black, pos(x, y)), Err(PlaceError::IllegalMove));
            assert_eq!(board.place(Color::White, pos(x, y)), Err(PlaceError::IllegalMove));
        }
    }
}

#[test]
fn clone_is_independent() {
    let board = Board::new();
    let mut copy = board.clone();
    assert_eq!(copy.place(Color::Black, pos(5, 4)), Ok(()));
    assert_eq!(board.count(Color::Black), 2);
    assert_eq!(copy.count(Color::Black), 4);
}

#[test]
fn colors_and_cells() {
    assert_eq!(Color::Black.opponent(), Color::White);
    assert_eq!(Color::White.opponent(), Color::Black);
    assert_eq!(CellState::from(Color::Black), CellState::Black);
    assert_eq!(CellState::from(Color::White), CellState::White);
}

#[test]
fn vector_arithmetic() {
    let a = Vector2::new(3isize, -2);
    let b = Vector2::new(-1isize, 5);
    assert_eq!(a.add(b), Vector2::new(2, 3));
    assert_eq!(a.sub(b), Vector2::new(4, -7));
    assert_eq!(b.mul(3), Vector2::new(-3, 15));
    assert_eq!(a.add(b.mul(2)), Vector2::new(1, 8));
}
