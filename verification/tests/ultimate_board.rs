//! Tests for the local and global boards of the ultimate variant.

use tictactoe::shared::board::{CellShape, WinnerError};
use tictactoe::ultimate::board::{GlobalBoard, LocalBoard, MoveError};

#[test]
fn is_board_full_test() {
    let mut board = LocalBoard::new();
    assert!(!board.is_board_full());
    board.cells[0][0] = Some(CellShape::X);
    assert!(!board.is_board_full());
    board.cells[1][0] = Some(CellShape::O);
    assert!(!board.is_board_full());
    board.cells[2][0] = Some(CellShape::X);
    assert!(!board.is_board_full());
    board.cells[0][1] = Some(CellShape::O);
    assert!(!board.is_board_full());
    board.cells[1][1] = Some(CellShape::X);
    assert!(!board.is_board_full());
    board.cells[2][1] = Some(CellShape::O);
    assert!(!board.is_board_full());
    board.cells[0][2] = Some(CellShape::X);
    assert!(!board.is_board_full());
    board.cells[1][2] = Some(CellShape::O);
    assert!(!board.is_board_full());
    board.cells[2][2] = Some(CellShape::X);
    assert!(board.is_board_full());
}

#[test]
fn make_move_test() {
    let mut board = GlobalBoard::default();

    assert!(board.make_move((1, 1, (0, 0)), CellShape::X).is_ok());
    assert!(
        board.next_local_board == Some((0, 0))
            && board.local_boards[1][1].cells[0][0] == Some(CellShape::X)
    );

    assert!(board.make_move((1, 1, (1, 1)), CellShape::O) == Err(MoveError::WrongLocalBoard));

    assert!(board.make_move((0, 0, (1, 2)), CellShape::O).is_ok());
    assert!(
        board.next_local_board == Some((1, 2))
            && board.local_boards[0][0].cells[1][2] == Some(CellShape::O)
    );

    assert!(board.make_move((1, 2, (1, 1)), CellShape::X).is_ok());
    assert!(
        board.next_local_board == Some((1, 1))
            && board.local_boards[1][2].cells[1][1] == Some(CellShape::X)
    );

    assert!(board.make_move((1, 1, (0, 0)), CellShape::O) == Err(MoveError::CellAlreadyFull));
    assert!(board.make_move((1, 1, (0, 3)), CellShape::O) == Err(MoveError::OutOfBounds));

    assert!(board.make_move((1, 1, (0, 1)), CellShape::O).is_ok());
    assert!(
        board.next_local_board == Some((0, 1))
            && board.local_boards[1][1].cells[0][1] == Some(CellShape::O)
    );
}

#[test]
fn local_get_winner_idempotent_test() {
    // Looking a winner up twice returns identical results and leaves the
    // cells unchanged.
    let mut board = LocalBoard::new();
    board.cells[0][0] = Some(CellShape::X);
    board.cells[1][1] = Some(CellShape::X);
    board.cells[2][2] = Some(CellShape::X);
    board.cells[0][1] = Some(CellShape::O);
    let cells_before = board.cells;
    let first = board.get_winner();
    let second = board.get_winner();
    assert_eq!(first, second);
    assert_eq!(board.cells, cells_before);
    assert_eq!(first, Ok((CellShape::X, [(0, 0), (1, 1), (2, 2)])));

    // The same holds when there is no winner yet.
    let mut board = LocalBoard::new();
    board.cells[1][1] = Some(CellShape::O);
    let first = board.get_winner();
    let second = board.get_winner();
    assert_eq!(first, second);
    assert_eq!(first, Err(WinnerError::NoWinnerYet));
}

#[test]
fn global_get_winner_test() {
    let mut board = GlobalBoard::default();
    assert_eq!(board.get_winner(), Err(WinnerError::NoWinnerYet));

    // Give O the whole first column of local boards.
    for y in 0..3 {
        for c in [(0, 0), (1, 1), (2, 2)] {
            board.local_boards[0][y].cells[c.0][c.1] = Some(CellShape::O);
        }
    }
    let result = board.get_winner();
    assert!(matches!(result, Ok((CellShape::O, _))));
    // A confirmed global win clears the forced local board.
    assert_eq!(board.next_local_board, None);
}

#[test]
fn replay_round_trip_test() {
    // Any sequence of legal moves, replayed from a fresh board with the same
    // engine shape, produces an identical board.
    let moves: [((usize, usize, (usize, usize)), CellShape); 6] = [
        ((1, 1, (0, 0)), CellShape::X),
        ((0, 0, (1, 2)), CellShape::O),
        ((1, 2, (1, 1)), CellShape::X),
        ((1, 1, (0, 1)), CellShape::O),
        ((0, 1, (2, 2)), CellShape::X),
        ((2, 2, (1, 1)), CellShape::O),
    ];

    let mut board = GlobalBoard::new(CellShape::O);
    for (coord, shape) in moves {
        assert!(board.make_move(coord, shape).is_ok());
    }

    let mut replayed = GlobalBoard::new(CellShape::O);
    for (coord, shape) in moves {
        assert!(replayed.make_move(coord, shape).is_ok());
    }

    assert!(board == replayed);
}

#[test]
fn make_move_out_of_bounds_test() {
    let mut board = GlobalBoard::default();
    assert_eq!(
        board.make_move((3, 0, (0, 0)), CellShape::X),
        Err(MoveError::OutOfBounds)
    );
    assert_eq!(
        board.make_move((0, 3, (0, 0)), CellShape::X),
        Err(MoveError::OutOfBounds)
    );
    assert_eq!(
        board.make_move((0, 0, (3, 0)), CellShape::X),
        Err(MoveError::OutOfBounds)
    );
    // A rejected move leaves the board unchanged.
    assert!(board == GlobalBoard::default());
}
