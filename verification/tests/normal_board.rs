//! Tests for the flat board and its minimax engine.

use tictactoe::normal::board::Board;
use tictactoe::shared::board::{CellShape, WinnerError};

const X: Option<CellShape> = Some(CellShape::X);
const O: Option<CellShape> = Some(CellShape::O);
const E: Option<CellShape> = None;

/// Build a board from three rows, written top to bottom as they look.
fn board_from_rows(rows: [[Option<CellShape>; 3]; 3]) -> Board {
    let mut cells: [[Option<CellShape>; 3]; 3] = [[None; 3]; 3];
    for x in 0..3 {
        for y in 0..3 {
            cells[x][y] = rows[y][x];
        }
    }
    Board::with_cell_array(cells)
}

#[test]
fn get_winner_test() {
    let board = Board::default();
    assert_eq!(board.get_winner(), Err(WinnerError::NoWinnerYet));

    // X| |
    //  |O|
    //  | |
    let board = board_from_rows([[X, E, E], [E, O, E], [E, E, E]]);
    assert_eq!(board.get_winner(), Err(WinnerError::NoWinnerYet));

    // X|O|X
    //  |X|O
    //  |O|X
    let board = board_from_rows([[X, O, X], [E, X, O], [E, O, X]]);
    assert_eq!(
        board.get_winner(),
        Ok((CellShape::X, [(0, 0), (1, 1), (2, 2)]))
    );

    // O|X|O
    // X|O|X
    // O|X|X
    let board = board_from_rows([[O, X, O], [X, O, X], [O, X, X]]);
    assert_eq!(
        board.get_winner(),
        Ok((CellShape::O, [(0, 2), (1, 1), (2, 0)]))
    );

    // O|X|O
    // O|O|X
    // X|X|X
    let board = board_from_rows([[O, X, O], [O, O, X], [X, X, X]]);
    assert_eq!(
        board.get_winner(),
        Ok((CellShape::X, [(0, 2), (1, 2), (2, 2)]))
    );

    // X|O|O
    // O|X|X
    // X|X|O
    let board = board_from_rows([[X, O, O], [O, X, X], [X, X, O]]);
    assert_eq!(board.get_winner(), Err(WinnerError::BoardFullNoWinner));

    // X|X|X
    // O|O|O
    //  | |
    let board = board_from_rows([[X, X, X], [O, O, O], [E, E, E]]);
    assert_eq!(board.get_winner(), Err(WinnerError::MultipleWinners));
}

#[test]
fn board_get_winner_test() {
    let board = Board::default();
    assert_eq!(board.get_winner(), Err(WinnerError::NoWinnerYet));

    let board = board_from_rows([[X, E, E], [E, O, E], [E, E, E]]);
    assert_eq!(board.get_winner(), Err(WinnerError::NoWinnerYet));

    let board = board_from_rows([[X, O, X], [E, X, O], [E, O, X]]);
    assert_eq!(
        board.get_winner(),
        Ok((CellShape::X, [(0, 0), (1, 1), (2, 2)]))
    );

    let board = board_from_rows([[O, X, O], [X, O, X], [O, X, X]]);
    assert_eq!(
        board.get_winner(),
        Ok((CellShape::O, [(0, 2), (1, 1), (2, 0)]))
    );

    let board = board_from_rows([[O, X, O], [O, O, X], [X, X, X]]);
    assert_eq!(
        board.get_winner(),
        Ok((CellShape::X, [(0, 2), (1, 2), (2, 2)]))
    );

    let board = board_from_rows([[X, O, O], [O, X, X], [X, X, O]]);
    assert_eq!(board.get_winner(), Err(WinnerError::BoardFullNoWinner));

    let board = board_from_rows([[X, X, X], [O, O, O], [E, E, E]]);
    assert_eq!(board.get_winner(), Err(WinnerError::MultipleWinners));

    // X| |O
    // X|X|O
    // O|O|O
    let board = board_from_rows([[X, E, O], [X, X, O], [O, O, O]]);
    assert!(matches!(board.get_winner(), Ok((CellShape::O, [_, _, _]))));

    // O| |X
    // O|O|X
    // X|X|X
    let board = board_from_rows([[O, E, X], [O, O, X], [X, X, X]]);
    assert!(matches!(board.get_winner(), Ok((CellShape::X, [_, _, _]))));
}

#[test]
fn get_empty_cells_test() {
    let board = Board::default();
    assert_eq!(
        board.empty_cells(),
        vec![
            (0, 0),
            (0, 1),
            (0, 2),
            (1, 0),
            (1, 1),
            (1, 2),
            (2, 0),
            (2, 1),
            (2, 2),
        ]
    );

    // X|O|X
    //  |X|O
    //  |O|X
    let board = board_from_rows([[X, O, X], [E, X, O], [E, O, X]]);
    assert_eq!(board.empty_cells(), vec![(0, 1), (0, 2)]);

    // O|X|O
    // X|O|X
    // O|X|X
    let board = board_from_rows([[O, X, O], [X, O, X], [O, X, X]]);
    assert_eq!(board.empty_cells(), vec![]);

    // X|O|O
    // O|X|X
    // X|X|O
    let board = board_from_rows([[X, O, O], [O, X, X], [X, X, O]]);
    assert_eq!(board.empty_cells(), vec![]);

    // X|X|X
    // O|O|O
    //  | |
    let board = board_from_rows([[X, X, X], [O, O, O], [E, E, E]]);
    assert_eq!(board.empty_cells(), vec![(0, 2), (1, 2), (2, 2)]);
}

#[test]
fn evaluate_position_test() {
    // X|O|
    //  |X|O
    // O| |X
    let board = board_from_rows([[X, O, E], [E, X, O], [O, E, X]]);
    // Whoever plays in this position, it's bad because the player (X) has won
    assert_eq!(board.evaluate_position(CellShape::X), -100);
    assert_eq!(board.evaluate_position(CellShape::O), -100);

    // O|X|
    //  |O|X
    // X| |O
    let board = board_from_rows([[O, X, E], [E, O, X], [X, E, O]]);
    // Whoever plays in this position, it's good because the AI (O) has won
    assert_eq!(board.evaluate_position(CellShape::X), 100);
    assert_eq!(board.evaluate_position(CellShape::O), 100);

    // X|O|
    // X|O|O
    // X|O|
    let board = board_from_rows([[X, O, E], [X, O, O], [X, O, E]]);
    // Multiple winners is a draw
    assert_eq!(board.evaluate_position(CellShape::X), 0);
    assert_eq!(board.evaluate_position(CellShape::O), 0);

    // X|O|
    //  |X|
    //  | |
    let board = board_from_rows([[X, O, E], [E, X, E], [E, E, E]]);
    assert_eq!(board.evaluate_position(CellShape::X), -90);

    // X|O|X
    // X|X|O
    // O| |O
    let board = board_from_rows([[X, O, X], [X, X, O], [O, E, O]]);
    assert_eq!(board.evaluate_position(CellShape::X), 0);
    assert_eq!(board.evaluate_position(CellShape::O), 90);

    // X|O|X
    //  |X|O
    // O|X|O
    let board = board_from_rows([[X, O, X], [E, X, O], [O, X, O]]);
    assert_eq!(board.evaluate_position(CellShape::X), 0);
    assert_eq!(board.evaluate_position(CellShape::O), 0);
}

#[test]
fn generate_ai_move_test() {
    //  | |X
    //  |X|O
    //  | |
    let board = board_from_rows([[E, E, X], [E, X, O], [E, E, E]]);
    assert_eq!(board.generate_ai_move(), Some((0, 2)));

    // X|O|X
    // X|O|
    //  | |
    let board = board_from_rows([[X, O, X], [X, O, E], [E, E, E]]);
    assert_eq!(board.generate_ai_move(), Some((1, 2)));

    //  | |O
    //  |X|
    //  | |X
    let board = board_from_rows([[E, E, O], [E, X, E], [E, E, X]]);
    assert_eq!(board.generate_ai_move(), Some((0, 0)));

    // O| |O
    //  |X|
    // X| |X
    let board = board_from_rows([[O, E, O], [E, X, E], [X, E, X]]);
    assert_eq!(board.generate_ai_move(), Some((1, 0)));

    // O| |O
    //  |X|
    //  |X|X
    let board = board_from_rows([[O, E, O], [E, X, E], [E, X, X]]);
    assert_eq!(board.generate_ai_move(), Some((1, 0)));

    // O|X|X
    // X|O|O
    // O|X|X
    let board = board_from_rows([[O, X, X], [X, O, O], [O, X, X]]);
    assert_eq!(board.generate_ai_move(), None);

    // O|O|X
    // O|X|X
    // O|X|X
    let board = board_from_rows([[O, O, X], [O, X, X], [O, X, X]]);
    assert_eq!(board.generate_ai_move(), None);
}

#[test]
fn evaluate_position_shape_symmetry_test() {
    // Designating the other shape as the engine's negates the score.
    let rows = [[X, O, E], [E, X, E], [E, E, E]];
    let as_o = board_from_rows(rows);
    let mut as_x = board_from_rows(rows);
    as_x.ai_shape = CellShape::X;
    for turn in [CellShape::X, CellShape::O] {
        assert_eq!(
            as_o.evaluate_position(turn),
            -as_x.evaluate_position(turn)
        );
    }
    assert_eq!(as_x.evaluate_position(CellShape::X), 90);
}

#[test]
fn generate_ai_move_center_test() {
    // On an empty board the engine always takes the center.
    let board = Board::new(CellShape::O);
    assert_eq!(board.generate_ai_move(), Some((1, 1)));
    let board = Board::new(CellShape::X);
    assert_eq!(board.generate_ai_move(), Some((1, 1)));
}

#[test]
fn generate_ai_move_corner_test() {
    // With only the center taken, the engine picks one of the empty corners.
    let board = board_from_rows([[E, E, E], [E, X, E], [E, E, E]]);
    for _ in 0..20 {
        let mv = board.generate_ai_move().unwrap();
        assert!([(0, 0), (2, 2), (0, 2), (2, 0)].contains(&mv));
    }
}
