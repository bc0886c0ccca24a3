//! The local and global boards of the ultimate variant.
//!
//! Winning a local board claims a cell of the global board, and the local
//! board played next is constrained by the opponent's last move.

use crate::shared::board::{
    get_winner, grid_view, is_board_full as shared_is_board_full, is_full, line_seq, outcome,
    CellShape, Grid, GridOutcome, WinnerError,
};
use crate::ultimate::GlobalCoord;
use vstd::prelude::*;

pub mod mcts;

verus! {

/// An enum to represent possible errors arising from making a move.  See
/// [`GlobalBoard::make_move`].
#[derive(Clone, Copy, Debug, Eq, PartialEq, Structural)]
pub enum MoveError {
    /// A move has been made in a local board which is not the
    /// [`next_local_board`](GlobalBoard::next_local_board).
    WrongLocalBoard,
    /// The chosen cell already has a shape in it.
    CellAlreadyFull,
    /// The given coordinate is out of bounds.
    OutOfBounds,
}

/// The mathematical model of a local board: its grid of cells and its cached
/// winner, the winning line given as a sequence of coordinates.
pub struct LocalModel {
    pub grid: Grid,
    pub winner: Option<(CellShape, Seq<(usize, usize)>)>,
}

/// The mathematical model of the global board: the models of its nine local
/// boards in column-major order, the engine's shape, and the local board the
/// next move is forced into, if any.
pub struct GlobalModel {
    pub boards: Seq<LocalModel>,
    pub ai: CellShape,
    pub next: Option<(usize, usize)>,
}

/// The model of an empty local board.
pub open spec fn empty_local_model() -> LocalModel {
    LocalModel { grid: Seq::new(9, |k: int| None::<CellShape>), winner: None }
}

/// The model of a fresh global board with the given engine shape.
pub open spec fn global_new_model(ai: CellShape) -> GlobalModel {
    GlobalModel { boards: Seq::new(9, |k: int| empty_local_model()), ai, next: None }
}

/// What a local board's winner lookup returns: the cached winner when one
/// has been recorded, else the win-detection decision on the grid.
pub open spec fn winner_value(m: LocalModel) -> Result<
    (CellShape, Seq<(usize, usize)>),
    WinnerError,
> {
    match m.winner {
        Some(w) => Ok(w),
        None => match outcome(m.grid) {
            GridOutcome::Winner(s, k) => Ok((s, line_seq(k))),
            GridOutcome::Multiple => Err(WinnerError::MultipleWinners),
            GridOutcome::Full => Err(WinnerError::BoardFullNoWinner),
            GridOutcome::NoneYet => Err(WinnerError::NoWinnerYet),
        },
    }
}

/// The state of a local board after its winner lookup: a first winner is
/// written to the cache once and the cells never change.
pub open spec fn winner_after(m: LocalModel) -> LocalModel {
    match winner_value(m) {
        Ok(w) => LocalModel { grid: m.grid, winner: Some(w) },
        Err(_) => m,
    }
}

/// Looking up a local board's winner twice returns identical results and
/// does not change the cells; the second lookup leaves the board exactly as
/// the first left it.
pub proof fn lemma_get_winner_idempotent(m: LocalModel)
    ensures
        winner_after(m).grid == m.grid,
        winner_value(winner_after(m)) == winner_value(m),
        winner_after(winner_after(m)) == winner_after(m),
{
}

/// A struct to represent a simple local board with a grid of cells.
#[derive(Clone, Copy, Debug)]
pub struct LocalBoard {
    /// This 2D array represents all the cells, and is indexed as
    /// `cells[x][y]`, with `x` the column and `y` the row:
    ///
    /// ```text
    /// (0, 0) | (1, 0) | (2, 0)
    /// ------------------------
    /// (0, 1) | (1, 1) | (2, 1)
    /// ------------------------
    /// (0, 2) | (1, 2) | (2, 2)
    /// ```
    pub cells: [[Option<CellShape>; 3]; 3],
    /// The winner of the board, used to cache the first winner so that
    /// multiple winners can't occur.
    pub winner: Option<(CellShape, [(usize, usize); 3])>,
}

impl View for LocalBoard {
    type V = LocalModel;

    open spec fn view(&self) -> LocalModel {
        LocalModel {
            grid: grid_view(self.cells),
            winner: match self.winner {
                Some((s, l)) => Some((s, l@)),
                None => None,
            },
        }
    }
}

/// Whether two coordinate pairs are equal.
fn coord_eq(a: (usize, usize), b: (usize, usize)) -> (r: bool)
    ensures
        r == (a == b),
{
    a.0 == b.0 && a.1 == b.1
}

/// Whether two cell arrays hold the same cells.
fn cells_eq(a: &[[Option<CellShape>; 3]; 3], b: &[[Option<CellShape>; 3]; 3]) -> (r: bool)
    ensures
        r == (grid_view(*a) == grid_view(*b)),
{
    let mut same: bool = true;
    for k in 0..9usize
        invariant
            same == forall|j: int| 0 <= j < k ==> grid_view(*a)[j] == grid_view(*b)[j],
    {
        let x: usize = k / 3;
        let y: usize = k % 3;
        proof {
            assert(grid_view(*a)[k as int] == a[k as int / 3][k as int % 3]);
            assert(grid_view(*b)[k as int] == b[k as int / 3][k as int % 3]);
        }
        if a[x][y] != b[x][y] {
            same = false;
        }
    }
    proof {
        if same {
            assert(grid_view(*a) =~= grid_view(*b));
        } else {
            let j = choose|j: int| 0 <= j < 9 && grid_view(*a)[j] != grid_view(*b)[j];
            assert(grid_view(*a)[j] != grid_view(*b)[j]);
        }
    }
    same
}

impl PartialEq for LocalBoard {
    fn eq(&self, other: &Self) -> (r: bool) {
        let winners_same: bool = match (self.winner, other.winner) {
            (None, None) => true,
            (Some((s1, l1)), Some((s2, l2))) => {
                let coords_same = coord_eq(l1[0], l2[0]) && coord_eq(l1[1], l2[1]) && coord_eq(
                    l1[2],
                    l2[2],
                );
                proof {
                    if coords_same {
                        assert(l1@ =~= l2@);
                    } else {
                        assert(l1@ != l2@) by {
                            if l1@ == l2@ {
                                assert(l1@[0] == l2@[0] && l1@[1] == l2@[1] && l1@[2] == l2@[2]);
                            }
                        }
                    }
                }
                s1 == s2 && coords_same
            },
            _ => false,
        };
        winners_same && cells_eq(&self.cells, &other.cells)
    }
}

impl vstd::std_specs::cmp::PartialEqSpecImpl for LocalBoard {
    open spec fn obeys_eq_spec() -> bool {
        true
    }

    /// Two local boards are equal when their models agree: same cells and
    /// same cached winner.
    open spec fn eq_spec(&self, other: &Self) -> bool {
        self@ == other@
    }
}

impl Default for LocalBoard {
    /// Return a new, empty local board.
    fn default() -> (r: Self)
        ensures
            r@ == empty_local_model(),
    {
        Self::new()
    }
}

impl LocalBoard {
    /// Create a new, empty local board.
    pub fn new() -> (r: Self)
        ensures
            r@ == empty_local_model(),
    {
        let r = Self {
            cells: [[None, None, None], [None, None, None], [None, None, None]],
            winner: None,
        };
        proof {
            assert(r@.grid =~= empty_local_model().grid);
        }
        r
    }

    /// Create a local board with the given cells and no cached winner.
    pub fn with_cells(cells: [[Option<CellShape>; 3]; 3]) -> (r: Self)
        ensures
            r@ == (LocalModel { grid: grid_view(cells), winner: None }),
    {
        Self { cells, winner: None }
    }

    /// Check if the board is full.
    pub fn is_board_full(&self) -> (r: bool)
        ensures
            r == is_full(self@.grid),
    {
        shared_is_board_full(self.cells)
    }

    /// Return the winner of the current board.
    ///
    /// The first winner found is cached, and every later call returns the
    /// cached winner; the cells themselves are never changed.  See
    /// [`shared::board::get_winner`](crate::shared::board::get_winner).
    pub fn get_winner(&mut self) -> (r: Result<(CellShape, [(usize, usize); 3]), WinnerError>)
        ensures
            final(self)@ == winner_after(old(self)@),
            match winner_value(old(self)@) {
                Ok((s, l)) => r matches Ok(w) && w.0 == s && w.1@ == l,
                Err(e) => r == Err::<(CellShape, [(usize, usize); 3]), _>(e),
            },
    {
        match self.winner {
            None => {
                match get_winner(self.cells) {
                    Ok(w) => {
                        self.winner = Some(w);
                        Ok(w)
                    },
                    Err(e) => Err(e),
                }
            },
            Some(w) => Ok(w),
        }
    }
}

/// The validation that [`GlobalBoard::make_move`] applies to a move, in
/// order: indices in bounds, then the forced local board respected, then the
/// target cell empty.  `None` means the move is legal.
pub open spec fn move_error(m: GlobalModel, coord: GlobalCoord) -> Option<MoveError> {
    let x = coord.0;
    let y = coord.1;
    let lx = coord.2.0;
    let ly = coord.2.1;
    if x > 2 || y > 2 || lx > 2 || ly > 2 {
        Some(MoveError::OutOfBounds)
    } else if m.next matches Some(c) && c != (x, y) {
        Some(MoveError::WrongLocalBoard)
    } else if m.boards[3 * x + y].grid[3 * lx + ly] is Some {
        Some(MoveError::CellAlreadyFull)
    } else {
        None
    }
}

/// The state after a legal move: the mark is written, and the next move is
/// forced into the local board matching the played cell unless that board is
/// already full, in which case any board may be played.
pub open spec fn play_at(m: GlobalModel, coord: GlobalCoord, shape: CellShape) -> GlobalModel {
    let bi = 3 * coord.0 + coord.1;
    let ci = 3 * coord.2.0 + coord.2.1;
    let b = m.boards[bi];
    let boards2 = m.boards.update(
        bi,
        LocalModel { grid: b.grid.update(ci, Some(shape)), winner: b.winner },
    );
    let next2: Option<(usize, usize)> = if is_full(boards2[ci].grid) {
        None
    } else {
        Some((coord.2.0, coord.2.1))
    };
    GlobalModel { boards: boards2, ai: m.ai, next: next2 }
}

/// The state after attempting a move: unchanged when the move is rejected.
pub open spec fn step_model(m: GlobalModel, coord: GlobalCoord, shape: CellShape) -> GlobalModel {
    match move_error(m, coord) {
        Some(_) => m,
        None => play_at(m, coord, shape),
    }
}

/// The shape a local board contributes to the global scoring grid: its
/// cached winner when one is recorded, else the winner of its cells, if any.
pub open spec fn local_shape(b: LocalModel) -> Option<CellShape> {
    match winner_value(b) {
        Ok((s, _)) => Some(s),
        Err(_) => None,
    }
}

/// The grid of effective shapes that the global board is scored over: one
/// cell per local board.
pub open spec fn effective_grid(m: GlobalModel) -> Grid {
    Seq::new(9, |k: int| local_shape(m.boards[k]))
}

/// A struct to represent the global board, with a grid of [`LocalBoard`]s.
#[derive(Clone, Copy, Debug)]
pub struct GlobalBoard {
    /// This 2D array represents all the [`LocalBoard`]s, and is indexed as
    /// `local_boards[x][y]`, with `x` the column and `y` the row:
    ///
    /// ```text
    /// (0, 0) | (1, 0) | (2, 0)
    /// ------------------------
    /// (0, 1) | (1, 1) | (2, 1)
    /// ------------------------
    /// (0, 2) | (1, 2) | (2, 2)
    /// ```
    pub local_boards: [[LocalBoard; 3]; 3],
    /// This is the shape that the AI will play as.
    ///
    /// Board positions where this shape wins are considered good, and
    /// positions where the other shape wins are considered bad.
    pub ai_shape: CellShape,
    /// The local board in which the next move must be played.
    pub next_local_board: Option<(usize, usize)>,
}

impl View for GlobalBoard {
    type V = GlobalModel;

    open spec fn view(&self) -> GlobalModel {
        GlobalModel {
            boards: Seq::new(9, |k: int| self.local_boards[k / 3][k % 3]@),
            ai: self.ai_shape,
            next: self.next_local_board,
        }
    }
}

impl PartialEq for GlobalBoard {
    fn eq(&self, other: &Self) -> (r: bool) {
        let mut same: bool = true;
        for k in 0..9usize
            invariant
                same == forall|j: int| 0 <= j < k ==> self@.boards[j] == other@.boards[j],
        {
            let x: usize = k / 3;
            let y: usize = k % 3;
            proof {
                assert(self@.boards[k as int] == self.local_boards[k as int / 3][k as int % 3]@);
                assert(other@.boards[k as int] == other.local_boards[k as int / 3][k as int % 3]@);
            }
            if !(self.local_boards[x][y] == other.local_boards[x][y]) {
                same = false;
            }
        }
        proof {
            if same {
                assert(self@.boards =~= other@.boards);
            } else {
                let j = choose|j: int| 0 <= j < 9 && self@.boards[j] != other@.boards[j];
                assert(self@.boards[j] != other@.boards[j]);
            }
        }
        let next_same: bool = match (self.next_local_board, other.next_local_board) {
            (None, None) => true,
            (Some(a), Some(b)) => coord_eq(a, b),
            _ => false,
        };
        same && self.ai_shape == other.ai_shape && next_same
    }
}

impl vstd::std_specs::cmp::PartialEqSpecImpl for GlobalBoard {
    open spec fn obeys_eq_spec() -> bool {
        true
    }

    /// Two global boards are equal when their models agree: same local
    /// boards, same engine shape, same forced local board.
    open spec fn eq_spec(&self, other: &Self) -> bool {
        self@ == other@
    }
}

impl Default for GlobalBoard {
    /// Return an empty global board with [`O`](CellShape::O) as the engine
    /// shape.
    fn default() -> (r: Self)
        ensures
            r@ == global_new_model(CellShape::O),
    {
        Self::new(CellShape::O)
    }
}

impl GlobalBoard {
    /// Create a new, empty global board.
    pub fn new(ai_shape: CellShape) -> (r: Self)
        ensures
            r@ == global_new_model(ai_shape),
    {
        let lb = LocalBoard::new();
        let r = Self {
            local_boards: [[lb, lb, lb], [lb, lb, lb], [lb, lb, lb]],
            ai_shape,
            next_local_board: None,
        };
        proof {
            assert(r@.boards =~= global_new_model(ai_shape).boards);
        }
        r
    }

    /// Create a global board with the given array of local boards, the
    /// default engine shape, and no forced local board.
    pub fn with_local_boards(local_boards: [[LocalBoard; 3]; 3]) -> (r: Self)
        ensures
            r@ == (GlobalModel {
                boards: Seq::new(9, |k: int| local_boards[k / 3][k % 3]@),
                ai: CellShape::O,
                next: None,
            }),
    {
        Self { local_boards, ai_shape: CellShape::O, next_local_board: None }
    }

    /// Create a global board with the given array of local boards, the
    /// default engine shape, and the given forced local board.
    pub fn with_local_boards_and_next_local_board(
        next_local_board: Option<(usize, usize)>,
        local_boards: [[LocalBoard; 3]; 3],
    ) -> (r: Self)
        ensures
            r@ == (GlobalModel {
                boards: Seq::new(9, |k: int| local_boards[k / 3][k % 3]@),
                ai: CellShape::O,
                next: next_local_board,
            }),
    {
        Self { local_boards, ai_shape: CellShape::O, next_local_board }
    }

    /// Return the coordinates of the local board in which the next move must
    /// be played, or `None` when any local board with room is legal.
    pub fn next_local_board(&self) -> (r: Option<(usize, usize)>)
        ensures
            r == self@.next,
    {
        self.next_local_board
    }

    /// Return the shape the engine plays as.
    pub fn engine_shape(&self) -> (r: CellShape)
        ensures
            r == self@.ai,
    {
        self.ai_shape
    }

    /// Check if the given local board has won.
    pub fn has_local_board_won(&mut self, x: usize, y: usize) -> (r: Result<
        (CellShape, [(usize, usize); 3]),
        WinnerError,
    >)
        requires
            x < 3,
            y < 3,
        ensures
            final(self)@.boards == old(self)@.boards.update(
                3 * x + y,
                winner_after(old(self)@.boards[3 * x + y]),
            ),
            final(self)@.ai == old(self)@.ai,
            final(self)@.next == old(self)@.next,
            match winner_value(old(self)@.boards[3 * x + y]) {
                Ok((s, l)) => r matches Ok(w) && w.0 == s && w.1@ == l,
                Err(e) => r == Err::<(CellShape, [(usize, usize); 3]), _>(e),
            },
    {
        let ghost m = self@;
        let r = self.local_boards[x][y].get_winner();
        proof {
            assert(self@.boards =~= m.boards.update(3 * x + y, winner_after(m.boards[3 * x + y])));
        }
        r
    }

    /// Update the board to reflect a move being made.
    ///
    /// Validation happens in the order given by [`move_error`], and the
    /// first failure is returned with the board unchanged.  On success the
    /// mark is written and [`next_local_board`](Self::next_local_board) is
    /// recomputed, becoming `None` if the target board is full.
    pub fn make_move(&mut self, coord: GlobalCoord, shape: CellShape) -> (r: Result<(), MoveError>)
        ensures
            final(self)@ == step_model(old(self)@, coord, shape),
            r == match move_error(old(self)@, coord) {
                Some(e) => Err::<(), MoveError>(e),
                None => Ok::<(), MoveError>(()),
            },
    {
        let ghost m = self@;
        let (x, y, (lx, ly)) = coord;

        if x > 2 || y > 2 || lx > 2 || ly > 2 {
            return Err(MoveError::OutOfBounds);
        }
        if let Some(c) = self.next_local_board {
            if !(c.0 == x && c.1 == y) {
                return Err(MoveError::WrongLocalBoard);
            }
        }
        proof {
            assert(m.boards[3 * x + y] == self.local_boards[x as int][y as int]@);
        }
        if self.local_boards[x][y].cells[lx][ly].is_some() {
            return Err(MoveError::CellAlreadyFull);
        }

        let mut lb = self.local_boards[x][y];
        lb.cells[lx][ly] = Some(shape);
        self.local_boards[x][y] = lb;
        proof {
            assert(lb@.grid =~= m.boards[3 * x + y].grid.update(3 * lx + ly, Some(shape)));
            assert(self@.boards =~= play_at(m, coord, shape).boards);
            assert(self@.boards[3 * lx + ly] == self.local_boards[lx as int][ly as int]@);
        }
        if self.local_boards[lx][ly].is_board_full() {
            self.next_local_board = None;
        } else {
            self.next_local_board = Some((lx, ly));
        }
        proof {
            assert(self@.boards =~= play_at(m, coord, shape).boards);
        }
        Ok(())
    }

    /// Return the winner of the global board.
    ///
    /// The global board is scored as tic-tac-toe over the effective shapes
    /// of its local boards (see [`effective_grid`]); a confirmed global win
    /// clears the forced local board.  The local boards themselves are not
    /// changed.  See
    /// [`shared::board::get_winner`](crate::shared::board::get_winner).
    pub fn get_winner(&mut self) -> (r: Result<(CellShape, [(usize, usize); 3]), WinnerError>)
        ensures
            final(self)@.boards == old(self)@.boards,
            final(self)@.ai == old(self)@.ai,
            match outcome(effective_grid(old(self)@)) {
                GridOutcome::Winner(s, k) => r matches Ok(w) && w.0 == s && w.1@ == line_seq(k)
                    && final(self)@.next is None,
                GridOutcome::Multiple => r == Err::<(CellShape, [(usize, usize); 3]), _>(
                    WinnerError::MultipleWinners,
                ) && final(self)@.next == old(self)@.next,
                GridOutcome::Full => r == Err::<(CellShape, [(usize, usize); 3]), _>(
                    WinnerError::BoardFullNoWinner,
                ) && final(self)@.next == old(self)@.next,
                GridOutcome::NoneYet => r == Err::<(CellShape, [(usize, usize); 3]), _>(
                    WinnerError::NoWinnerYet,
                ) && final(self)@.next == old(self)@.next,
            },
    {
        let ghost m = self@;
        let mut eff: [[Option<CellShape>; 3]; 3] = [
            [None, None, None],
            [None, None, None],
            [None, None, None],
        ];
        for k in 0..9usize
            invariant
                m == self@,
                forall|j: int| 0 <= j < k ==> grid_view(eff)[j] == effective_grid(m)[j],
        {
            let x: usize = k / 3;
            let y: usize = k % 3;
            proof {
                assert(m.boards[k as int] == self.local_boards[k as int / 3][k as int % 3]@);
            }
            let mut lb = self.local_boards[x][y];
            let w = lb.get_winner();
            let s: Option<CellShape> = match w {
                Ok((s, _)) => Some(s),
                Err(_) => None,
            };
            eff[x][y] = s;
            proof {
                assert(grid_view(eff)[k as int] == eff[k as int / 3][k as int % 3]);
                assert(forall|j: int|
                    0 <= j < k ==> grid_view(eff)[j] == eff[j / 3][j % 3]);
            }
        }
        proof {
            assert(grid_view(eff) =~= effective_grid(m));
        }
        let result = get_winner(eff);
        if result.is_ok() {
            self.next_local_board = None;
        }
        proof {
            assert(self@.boards =~= m.boards);
        }
        result
    }
}

/// The board a sequence of attempted moves leads to, each move applied with
/// [`step_model`] (a rejected move leaves the board unchanged).
pub open spec fn replay_model(m: GlobalModel, moves: Seq<(GlobalCoord, CellShape)>) -> GlobalModel
    decreases moves.len(),
{
    if moves.len() == 0 {
        m
    } else {
        replay_model(step_model(m, moves[0].0, moves[0].1), moves.drop_first())
    }
}

/// Replaying a sequence of moves on a fresh board with the same engine shape
/// reproduces the board that the sequence originally produced, exactly.
pub proof fn lemma_replay_round_trip(
    b: GlobalBoard,
    fresh: GlobalBoard,
    moves: Seq<(GlobalCoord, CellShape)>,
)
    requires
        b@ == replay_model(global_new_model(b@.ai), moves),
        fresh@ == global_new_model(b@.ai),
    ensures
        replay_model(fresh@, moves) == b@,
{
}

} // verus!
