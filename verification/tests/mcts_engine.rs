//! Tests for the Monte Carlo tree search engine of the ultimate variant.

use tictactoe::shared::board::CellShape;
use tictactoe::ultimate::board::mcts::GameTree;
use tictactoe::ultimate::board::{GlobalBoard, LocalBoard};
use tictactoe::ultimate::GlobalCoord;

const X: Option<CellShape> = Some(CellShape::X);
const O: Option<CellShape> = Some(CellShape::O);
const E: Option<CellShape> = None;

/// Build a local board from three rows, written top to bottom as they look.
fn local_from_rows(rows: [[Option<CellShape>; 3]; 3]) -> LocalBoard {
    let mut cells: [[Option<CellShape>; 3]; 3] = [[None; 3]; 3];
    for x in 0..3 {
        for y in 0..3 {
            cells[x][y] = rows[y][x];
        }
    }
    LocalBoard::with_cells(cells)
}

/// A local board with only the center marked with an X.
fn x_center_board() -> LocalBoard {
    local_from_rows([[E, E, E], [E, X, E], [E, E, E]])
}

/// A local board entirely full of Os around an X center.
fn full_board() -> LocalBoard {
    local_from_rows([[O, O, O], [O, X, O], [O, O, O]])
}

#[test]
fn legal_moves_test() {
    let board = GlobalBoard::default();
    let all_cells: Vec<GlobalCoord> = vec![
        (0, 0, (0, 0)), (0, 0, (1, 0)), (0, 0, (2, 0)),
        (0, 0, (0, 1)), (0, 0, (1, 1)), (0, 0, (2, 1)),
        (0, 0, (0, 2)), (0, 0, (1, 2)), (0, 0, (2, 2)),
        (1, 0, (0, 0)), (1, 0, (1, 0)), (1, 0, (2, 0)),
        (1, 0, (0, 1)), (1, 0, (1, 1)), (1, 0, (2, 1)),
        (1, 0, (0, 2)), (1, 0, (1, 2)), (1, 0, (2, 2)),
        (2, 0, (0, 0)), (2, 0, (1, 0)), (2, 0, (2, 0)),
        (2, 0, (0, 1)), (2, 0, (1, 1)), (2, 0, (2, 1)),
        (2, 0, (0, 2)), (2, 0, (1, 2)), (2, 0, (2, 2)),
        (0, 1, (0, 0)), (0, 1, (1, 0)), (0, 1, (2, 0)),
        (0, 1, (0, 1)), (0, 1, (1, 1)), (0, 1, (2, 1)),
        (0, 1, (0, 2)), (0, 1, (1, 2)), (0, 1, (2, 2)),
        (1, 1, (0, 0)), (1, 1, (1, 0)), (1, 1, (2, 0)),
        (1, 1, (0, 1)), (1, 1, (1, 1)), (1, 1, (2, 1)),
        (1, 1, (0, 2)), (1, 1, (1, 2)), (1, 1, (2, 2)),
        (2, 1, (0, 0)), (2, 1, (1, 0)), (2, 1, (2, 0)),
        (2, 1, (0, 1)), (2, 1, (1, 1)), (2, 1, (2, 1)),
        (2, 1, (0, 2)), (2, 1, (1, 2)), (2, 1, (2, 2)),
        (0, 2, (0, 0)), (0, 2, (1, 0)), (0, 2, (2, 0)),
        (0, 2, (0, 1)), (0, 2, (1, 1)), (0, 2, (2, 1)),
        (0, 2, (0, 2)), (0, 2, (1, 2)), (0, 2, (2, 2)),
        (1, 2, (0, 0)), (1, 2, (1, 0)), (1, 2, (2, 0)),
        (1, 2, (0, 1)), (1, 2, (1, 1)), (1, 2, (2, 1)),
        (1, 2, (0, 2)), (1, 2, (1, 2)), (1, 2, (2, 2)),
        (2, 2, (0, 0)), (2, 2, (1, 0)), (2, 2, (2, 0)),
        (2, 2, (0, 1)), (2, 2, (1, 1)), (2, 2, (2, 1)),
        (2, 2, (0, 2)), (2, 2, (1, 2)), (2, 2, (2, 2)),
    ];
    assert_eq!(board.legal_moves(), all_cells);

    let board = GlobalBoard::with_local_boards_and_next_local_board(
        None,
        [
            [x_center_board(), x_center_board(), x_center_board()],
            [x_center_board(), full_board(), x_center_board()],
            [x_center_board(), x_center_board(), x_center_board()],
        ],
    );
    let expected: Vec<GlobalCoord> = vec![
        (0, 0, (0, 0)), (0, 0, (1, 0)), (0, 0, (2, 0)),
        (0, 0, (0, 1)), (0, 0, (2, 1)), (0, 0, (0, 2)),
        (0, 0, (1, 2)), (0, 0, (2, 2)), (1, 0, (0, 0)),
        (1, 0, (1, 0)), (1, 0, (2, 0)), (1, 0, (0, 1)),
        (1, 0, (2, 1)), (1, 0, (0, 2)), (1, 0, (1, 2)),
        (1, 0, (2, 2)), (2, 0, (0, 0)), (2, 0, (1, 0)),
        (2, 0, (2, 0)), (2, 0, (0, 1)), (2, 0, (2, 1)),
        (2, 0, (0, 2)), (2, 0, (1, 2)), (2, 0, (2, 2)),
        (0, 1, (0, 0)), (0, 1, (1, 0)), (0, 1, (2, 0)),
        (0, 1, (0, 1)), (0, 1, (2, 1)), (0, 1, (0, 2)),
        (0, 1, (1, 2)), (0, 1, (2, 2)), (2, 1, (0, 0)),
        (2, 1, (1, 0)), (2, 1, (2, 0)), (2, 1, (0, 1)),
        (2, 1, (2, 1)), (2, 1, (0, 2)), (2, 1, (1, 2)),
        (2, 1, (2, 2)), (0, 2, (0, 0)), (0, 2, (1, 0)),
        (0, 2, (2, 0)), (0, 2, (0, 1)), (0, 2, (2, 1)),
        (0, 2, (0, 2)), (0, 2, (1, 2)), (0, 2, (2, 2)),
        (1, 2, (0, 0)), (1, 2, (1, 0)), (1, 2, (2, 0)),
        (1, 2, (0, 1)), (1, 2, (2, 1)), (1, 2, (0, 2)),
        (1, 2, (1, 2)), (1, 2, (2, 2)), (2, 2, (0, 0)),
        (2, 2, (1, 0)), (2, 2, (2, 0)), (2, 2, (0, 1)),
        (2, 2, (2, 1)), (2, 2, (0, 2)), (2, 2, (1, 2)),
        (2, 2, (2, 2)),
    ];
    assert_eq!(board.legal_moves(), expected);

    let mut boards = [[LocalBoard::new(); 3]; 3];
    boards[1][1] = x_center_board();
    let board = GlobalBoard::with_local_boards_and_next_local_board(Some((1, 1)), boards);
    assert_eq!(
        board.legal_moves(),
        vec![
            (1, 1, (0, 0)),
            (1, 1, (1, 0)),
            (1, 1, (2, 0)),
            (1, 1, (0, 1)),
            (1, 1, (2, 1)),
            (1, 1, (0, 2)),
            (1, 1, (1, 2)),
            (1, 1, (2, 2)),
        ]
    );

    let mut boards = [[LocalBoard::new(); 3]; 3];
    boards[0][1] = local_from_rows([[E, E, E], [E, X, E], [O, O, E]]);
    boards[1][1] = local_from_rows([[E, E, E], [O, X, X], [O, E, E]]);
    boards[2][1] = local_from_rows([[E, E, E], [E, O, E], [E, E, E]]);
    boards[0][2] = local_from_rows([[O, E, E], [X, E, E], [X, E, E]]);
    boards[1][2] = local_from_rows([[E, E, E], [X, E, E], [E, E, E]]);
    let board = GlobalBoard::with_local_boards_and_next_local_board(Some((0, 0)), boards);
    assert_eq!(
        board.legal_moves(),
        vec![
            (0, 0, (0, 0)),
            (0, 0, (1, 0)),
            (0, 0, (2, 0)),
            (0, 0, (0, 1)),
            (0, 0, (1, 1)),
            (0, 0, (2, 1)),
            (0, 0, (0, 2)),
            (0, 0, (1, 2)),
            (0, 0, (2, 2)),
        ]
    );

    let mut boards = [[LocalBoard::new(); 3]; 3];
    boards[0][0] = x_center_board();
    boards[0][1] = local_from_rows([[E, E, E], [E, X, E], [O, O, E]]);
    boards[1][1] = local_from_rows([[E, E, E], [O, X, X], [O, E, E]]);
    boards[2][1] = local_from_rows([[E, E, E], [E, O, E], [E, E, E]]);
    boards[0][2] = local_from_rows([[O, E, E], [X, E, E], [X, E, E]]);
    boards[1][2] = local_from_rows([[E, E, E], [X, E, E], [E, E, E]]);
    let board = GlobalBoard::with_local_boards_and_next_local_board(Some((1, 1)), boards);
    assert_eq!(
        board.legal_moves(),
        vec![
            (1, 1, (0, 0)),
            (1, 1, (1, 0)),
            (1, 1, (2, 0)),
            (1, 1, (1, 2)),
            (1, 1, (2, 2)),
        ]
    );
}

fn test_root_board() -> GlobalBoard {
    let mut boards = [[LocalBoard::new(); 3]; 3];
    boards[0][0] = local_from_rows([[E, E, E], [E, E, E], [E, E, X]]);
    boards[1][1] = local_from_rows([[O, E, E], [E, X, E], [E, E, E]]);
    boards[2][2] = local_from_rows([[E, E, E], [E, O, E], [E, E, E]]);
    GlobalBoard::with_local_boards_and_next_local_board(Some((1, 1)), boards)
}

#[test]
fn expand_test() {
    let board = test_root_board();
    let mut tree = GameTree::make_root(&board, CellShape::O);
    tree.expand(0);

    // 7 possible moves
    assert_eq!(tree.nodes[0].children.len(), 7);

    for &child in tree.nodes[0].children.iter() {
        // 1 playout
        assert_eq!(tree.nodes[child].playouts, 1);
        // <= 1 win(s)
        assert!(tree.nodes[child].wins <= 1);
    }
}

#[test]
fn backpropagate_test() {
    let board = test_root_board();
    let mut tree = GameTree::make_root(&board, CellShape::O);
    tree.expand(0);

    // 7 playouts
    assert_eq!(tree.nodes[0].playouts, 7);
    // <= 7 wins
    assert!(tree.nodes[0].wins <= 7);
}

#[test]
fn playout_decided_board_test() {
    // On a board the engine has already won, a playout is always a win.
    let won = local_from_rows([[O, O, O], [E, E, E], [E, E, E]]);
    let mut boards = [[LocalBoard::new(); 3]; 3];
    boards[0][0] = won;
    boards[0][1] = won;
    boards[0][2] = won;
    let board = GlobalBoard::with_local_boards_and_next_local_board(None, boards);
    let tree = GameTree::make_root(&board, CellShape::O);
    for _ in 0..5 {
        assert!(tree.playout(0));
    }

    // On a board the opponent has already won, a playout is always a loss.
    let lost = local_from_rows([[X, X, X], [E, E, E], [E, E, E]]);
    let mut boards = [[LocalBoard::new(); 3]; 3];
    boards[1][0] = lost;
    boards[1][1] = lost;
    boards[1][2] = lost;
    let board = GlobalBoard::with_local_boards_and_next_local_board(None, boards);
    let tree = GameTree::make_root(&board, CellShape::O);
    for _ in 0..5 {
        assert!(!tree.playout(0));
    }

    // A drawn board counts as a loss.
    let drawn = local_from_rows([[X, O, X], [O, X, O], [O, X, O]]);
    let board = GlobalBoard::with_local_boards_and_next_local_board(None, [[drawn; 3]; 3]);
    let tree = GameTree::make_root(&board, CellShape::O);
    assert!(!tree.playout(0));
}

#[test]
fn generate_ai_move_immediate_win_test() {
    // One legal move completes a global column for the engine: it is played
    // without any search iterations.
    let two_won = local_from_rows([[O, O, O], [E, E, E], [E, E, E]]);
    let almost = local_from_rows([[O, O, E], [E, X, E], [X, E, E]]);
    let mut boards = [[LocalBoard::new(); 3]; 3];
    boards[0][0] = two_won;
    boards[0][1] = two_won;
    boards[0][2] = almost;
    let board = GlobalBoard::with_local_boards_and_next_local_board(Some((0, 2)), boards);

    // Playing (0, 2, (2, 0)) completes the top row of local board (0, 2),
    // which wins column 0 of the global board for O.
    assert_eq!(board.generate_ai_move(0), Some((0, 2, (2, 0))));
}

#[test]
fn generate_ai_move_mcts_test() {
    // With no immediate win the engine still returns some legal move.
    let board = GlobalBoard::default();
    let mv = board.generate_ai_move(20);
    let legal = board.legal_moves();
    assert!(legal.contains(&mv.unwrap()));
}

#[test]
fn generate_ai_move_full_test() {
    // A board with no legal move yields no move.
    let drawn = local_from_rows([[X, O, X], [O, X, O], [O, X, O]]);
    let boards = [[drawn; 3]; 3];
    let board = GlobalBoard::with_local_boards_and_next_local_board(None, boards);
    assert_eq!(board.generate_ai_move(10), None);
}
