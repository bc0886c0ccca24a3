//! The cell model and the win-detection engine shared by both board variants.
//!
//! A board position is a 3x3 grid of optional [`CellShape`]s, indexed as
//! `cells[x][y]` where `x` is the column and `y` is the row.  In
//! specifications a grid is viewed as a flat sequence of nine cells in
//! column-major order, cell `(x, y)` sitting at index `3 * x + y`.

use vstd::prelude::*;

verus! {

/// An enum for the shape of a cell on the board.
#[derive(Clone, Copy, Debug, Eq, Hash, PartialEq, Structural)]
pub enum CellShape {
    X,
    O,
}

impl CellShape {
    /// Return the opposite of the current shape.
    #[must_use]
    pub fn other(&self) -> (r: Self)
        ensures
            r == self.spec_other(),
    {
        match self {
            Self::X => Self::O,
            Self::O => Self::X,
        }
    }

    /// The complement of a shape: `X` and `O` swap.
    pub open spec fn spec_other(self) -> Self {
        match self {
            Self::X => Self::O,
            Self::O => Self::X,
        }
    }
}

/// A possible error that could occur when trying to find a winner.
#[derive(Clone, Copy, Debug, Eq, PartialEq, Structural)]
pub enum WinnerError {
    /// Neither player has won, but the board is not full, so a win could occur.
    NoWinnerYet,
    /// The board is full and neither player won.
    BoardFullNoWinner,
    /// Both players have won.
    ///
    /// This state should never be achievable in normal play, but it must be
    /// detected and reported rather than silently resolved.
    MultipleWinners,
}

/// The flat view of a 3x3 grid of cells: nine cells in column-major order.
pub type Grid = Seq<Option<CellShape>>;

/// The flat view of a cell array: cell `(x, y)` sits at index `3 * x + y`.
pub open spec fn grid_view(cells: [[Option<CellShape>; 3]; 3]) -> Grid {
    Seq::new(9, |k: int| cells[k / 3][k % 3])
}

/// The flat index of a coordinate pair.
pub open spec fn coord_idx(c: (usize, usize)) -> int {
    3 * c.0 + c.1
}

/// The coordinates of the `k`-th of the 8 winning triples: the 3 columns,
/// then the 3 rows, then the 2 diagonals.
pub open spec fn line_seq(k: int) -> Seq<(usize, usize)> {
    if k == 0 {
        seq![(0usize, 0usize), (0usize, 1usize), (0usize, 2usize)]
    } else if k == 1 {
        seq![(1usize, 0usize), (1usize, 1usize), (1usize, 2usize)]
    } else if k == 2 {
        seq![(2usize, 0usize), (2usize, 1usize), (2usize, 2usize)]
    } else if k == 3 {
        seq![(0usize, 0usize), (1usize, 0usize), (2usize, 0usize)]
    } else if k == 4 {
        seq![(0usize, 1usize), (1usize, 1usize), (2usize, 1usize)]
    } else if k == 5 {
        seq![(0usize, 2usize), (1usize, 2usize), (2usize, 2usize)]
    } else if k == 6 {
        seq![(0usize, 2usize), (1usize, 1usize), (2usize, 0usize)]
    } else {
        seq![(0usize, 0usize), (1usize, 1usize), (2usize, 2usize)]
    }
}

/// Whether shape `s` occupies all three cells of triple `k`.
pub open spec fn line_won(g: Grid, k: int, s: CellShape) -> bool {
    &&& g[coord_idx(line_seq(k)[0])] == Some(s)
    &&& g[coord_idx(line_seq(k)[1])] == Some(s)
    &&& g[coord_idx(line_seq(k)[2])] == Some(s)
}

/// The shape occupying all of triple `k`, if any.
pub open spec fn line_winner(g: Grid, k: int) -> Option<CellShape> {
    if line_won(g, k, CellShape::X) {
        Some(CellShape::X)
    } else if line_won(g, k, CellShape::O) {
        Some(CellShape::O)
    } else {
        None
    }
}

/// Whether shape `s` has completed at least one of the 8 triples.
pub open spec fn has_win(g: Grid, s: CellShape) -> bool {
    exists|k: int| 0 <= k < 8 && line_won(g, k, s)
}

/// The first satisfied triple at index `k` or later, with its shape.
pub open spec fn first_win(g: Grid, k: int) -> Option<(CellShape, int)>
    decreases 8 - k,
{
    if k < 0 || k >= 8 {
        None
    } else {
        match line_winner(g, k) {
            Some(s) => Some((s, k)),
            None => first_win(g, k + 1),
        }
    }
}

/// Whether every cell of the grid is occupied.
pub open spec fn is_full(g: Grid) -> bool {
    forall|k: int| 0 <= k < 9 ==> g[k] is Some
}

/// The decision of the win-detection engine on a grid.
pub enum GridOutcome {
    /// Exactly one shape has completed a triple; the fields are that shape
    /// and the index of the first satisfied triple in scan order.
    Winner(CellShape, int),
    /// Both shapes have completed a triple.
    Multiple,
    /// No triple is satisfied and every cell is occupied.
    Full,
    /// No triple is satisfied and at least one cell is empty.
    NoneYet,
}

/// What win detection decides for a grid: both shapes winning takes
/// precedence, then the first satisfied triple, then a full-board draw.
pub open spec fn outcome(g: Grid) -> GridOutcome {
    if has_win(g, CellShape::X) && has_win(g, CellShape::O) {
        GridOutcome::Multiple
    } else {
        match first_win(g, 0) {
            Some((s, k)) => GridOutcome::Winner(s, k),
            None => if is_full(g) {
                GridOutcome::Full
            } else {
                GridOutcome::NoneYet
            },
        }
    }
}

/// The number of empty cells among the first `k` cells of a grid.
pub open spec fn empty_upto(g: Grid, k: int) -> int
    decreases k,
{
    if k <= 0 {
        0
    } else {
        empty_upto(g, k - 1) + if g[k - 1] is None {
            1int
        } else {
            0int
        }
    }
}

/// The number of empty cells of a grid.
pub open spec fn num_empty(g: Grid) -> int {
    empty_upto(g, 9)
}

/// The coordinates of the empty cells among the first `k` cells of a grid,
/// in column-major order.
pub open spec fn empty_cells_upto(g: Grid, k: int) -> Seq<(usize, usize)>
    decreases k,
{
    if k <= 0 {
        Seq::empty()
    } else {
        empty_cells_upto(g, k - 1) + if g[k - 1] is None {
            seq![(((k - 1) / 3) as usize, ((k - 1) % 3) as usize)]
        } else {
            Seq::empty()
        }
    }
}

/// The coordinates of the empty cells of a grid, in column-major order.
pub open spec fn empty_cells_seq(g: Grid) -> Seq<(usize, usize)> {
    empty_cells_upto(g, 9)
}

pub proof fn lemma_empty_upto_bounds(g: Grid, k: int)
    requires
        0 <= k,
    ensures
        0 <= empty_upto(g, k) <= k,
    decreases k,
{
    if k > 0 {
        lemma_empty_upto_bounds(g, k - 1);
    }
}

pub proof fn lemma_empty_upto_mono(g: Grid, a: int, b: int)
    requires
        0 <= a <= b,
    ensures
        empty_upto(g, a) <= empty_upto(g, b) <= empty_upto(g, a) + (b - a),
    decreases b - a,
{
    if a < b {
        lemma_empty_upto_mono(g, a, b - 1);
    }
}

pub proof fn lemma_empty_upto_update(g: Grid, j: int, v: CellShape, k: int)
    requires
        0 <= j < g.len(),
        g[j] is None,
        0 <= k <= g.len(),
    ensures
        empty_upto(g.update(j, Some(v)), k) == empty_upto(g, k) - if j < k {
            1int
        } else {
            0int
        },
    decreases k,
{
    if k > 0 {
        lemma_empty_upto_update(g, j, v, k - 1);
    }
}

/// Placing a shape in an empty cell decreases the number of empty cells by one.
pub proof fn lemma_num_empty_update(g: Grid, j: int, v: CellShape)
    requires
        g.len() == 9,
        0 <= j < 9,
        g[j] is None,
    ensures
        num_empty(g.update(j, Some(v))) == num_empty(g) - 1,
{
    lemma_empty_upto_update(g, j, v, 9);
}

proof fn lemma_full_empty_upto(g: Grid, k: int)
    requires
        is_full(g),
        0 <= k <= 9,
    ensures
        empty_upto(g, k) == 0,
    decreases k,
{
    if k > 0 {
        lemma_full_empty_upto(g, k - 1);
    }
}

/// A grid is full exactly when it has no empty cells.
pub proof fn lemma_is_full_num_empty(g: Grid)
    requires
        g.len() == 9,
    ensures
        is_full(g) <==> num_empty(g) == 0,
{
    if is_full(g) {
        lemma_full_empty_upto(g, 9);
    } else {
        let j = choose|j: int| 0 <= j < 9 && !(g[j] is Some);
        lemma_empty_upto_bounds(g, j);
        lemma_empty_upto_mono(g, j + 1, 9);
    }
}

/// A grid with two distinct occupied cells has at most 7 empty cells.
pub proof fn lemma_two_some_bound(g: Grid, i: int, j: int)
    requires
        g.len() == 9,
        0 <= i < j < 9,
        g[i] is Some,
        g[j] is Some,
    ensures
        num_empty(g) <= 7,
{
    lemma_empty_upto_bounds(g, i);
    lemma_empty_upto_mono(g, i + 1, j);
    lemma_empty_upto_mono(g, j + 1, 9);
}

pub proof fn lemma_empty_cells_len(g: Grid, k: int)
    requires
        0 <= k,
    ensures
        empty_cells_upto(g, k).len() == empty_upto(g, k),
    decreases k,
{
    if k > 0 {
        lemma_empty_cells_len(g, k - 1);
    }
}

/// A coordinate is listed among the empty cells up to `k` exactly when it is
/// in range, addresses a cell before `k`, and that cell is empty.
pub proof fn lemma_empty_cells_membership(g: Grid, k: int)
    requires
        0 <= k <= 9,
    ensures
        forall|c: (usize, usize)|
            #[trigger] empty_cells_upto(g, k).contains(c) <==> (c.0 < 3 && c.1 < 3 && 3 * c.0 + c.1
                < k && g[3 * c.0 + c.1] is None),
    decreases k,
{
    if k > 0 {
        lemma_empty_cells_membership(g, k - 1);
        let prev = empty_cells_upto(g, k - 1);
        let cur = empty_cells_upto(g, k);
        assert forall|c: (usize, usize)| #[trigger]
            cur.contains(c) implies (c.0 < 3 && c.1 < 3 && 3 * c.0 + c.1 < k && g[3 * c.0
            + c.1] is None) by {
            let i = choose|i: int| 0 <= i < cur.len() && cur[i] == c;
            if i < prev.len() {
                assert(prev.contains(c));
            } else {
                assert(g[k - 1] is None);
                assert(c == (((k - 1) / 3) as usize, ((k - 1) % 3) as usize));
            }
        }
        assert forall|c: (usize, usize)|
            (c.0 < 3 && c.1 < 3 && 3 * c.0 + c.1 < k && g[3 * c.0
                + c.1] is None) implies #[trigger] cur.contains(c) by {
            if 3 * c.0 + c.1 < k - 1 {
                assert(prev.contains(c));
                let i = choose|i: int| 0 <= i < prev.len() && prev[i] == c;
                assert(cur[i] == c);
            } else {
                assert(3 * c.0 + c.1 == k - 1);
                assert(c.0 == ((k - 1) / 3) as usize && c.1 == ((k - 1) % 3) as usize);
                assert(cur[cur.len() - 1] == c);
            }
        }
    }
}

/// For all grids with no empty cells and no triple satisfied, win detection
/// reports a full board with no winner.
pub proof fn lemma_full_no_triple_is_draw(g: Grid)
    requires
        is_full(g),
        forall|k: int| 0 <= k < 8 ==> #[trigger] line_winner(g, k) is None,
    ensures
        outcome(g) == GridOutcome::Full,
{
    assert(!has_win(g, CellShape::X)) by {
        if has_win(g, CellShape::X) {
            let j = choose|j: int| 0 <= j < 8 && line_won(g, j, CellShape::X);
            assert(line_winner(g, j) is Some);
        }
    }
    assert(!has_win(g, CellShape::O)) by {
        if has_win(g, CellShape::O) {
            let j = choose|j: int| 0 <= j < 8 && line_won(g, j, CellShape::O);
            assert(line_winner(g, j) is Some);
        }
    }
    if first_win(g, 0) is Some {
        lemma_first_win_some(g, 0);
    }
}

/// For all grids where both shapes have each completed a triple, win
/// detection reports multiple winners rather than picking one.
pub proof fn lemma_two_winners_is_multiple(g: Grid)
    requires
        has_win(g, CellShape::X),
        has_win(g, CellShape::O),
    ensures
        outcome(g) == GridOutcome::Multiple,
{
}

/// A satisfied triple found by `first_win` really is a satisfied triple,
/// and `first_win` never skips an earlier satisfied one.
pub proof fn lemma_first_win_some(g: Grid, a: int)
    requires
        first_win(g, a) is Some,
    ensures
        ({
            let (s, k) = first_win(g, a)->Some_0;
            &&& a <= k < 8
            &&& line_winner(g, k) == Some(s)
        }),
    decreases 8 - a,
{
    if !(a < 0 || a >= 8) && line_winner(g, a) is None {
        lemma_first_win_some(g, a + 1);
    }
}

/// When `first_win` finds nothing from `a` on, no triple at or after `a`
/// is satisfied.
pub proof fn lemma_first_win_none(g: Grid, a: int, k: int)
    requires
        first_win(g, a) is None,
        0 <= a <= k < 8,
    ensures
        line_winner(g, k) is None,
    decreases k - a,
{
    if a < k {
        lemma_first_win_none(g, a + 1, k);
    }
}

/// Check if the board is full.
///
/// This function does not check for a winner.  See [`get_winner`].
pub fn is_board_full(cells: [[Option<CellShape>; 3]; 3]) -> (r: bool)
    ensures
        r == is_full(grid_view(cells)),
{
    let mut full: bool = true;
    for k in 0..9usize
        invariant
            full == forall|j: int| 0 <= j < k ==> grid_view(cells)[j] is Some,
    {
        let x: usize = k / 3;
        let y: usize = k % 3;
        if cells[x][y].is_none() {
            proof {
                assert(grid_view(cells)[k as int] == cells[x as int][y as int]);
            }
            full = false;
        }
        proof {
            assert(grid_view(cells)[k as int] == cells[x as int][y as int]);
        }
    }
    full
}

/// The coordinates of triple `k`, as an array.
fn line_coords(k: usize) -> (r: [(usize, usize); 3])
    requires
        k < 8,
    ensures
        r@ == line_seq(k as int),
{
    let r: [(usize, usize); 3] = match k {
        0 => [(0, 0), (0, 1), (0, 2)],
        1 => [(1, 0), (1, 1), (1, 2)],
        2 => [(2, 0), (2, 1), (2, 2)],
        3 => [(0, 0), (1, 0), (2, 0)],
        4 => [(0, 1), (1, 1), (2, 1)],
        5 => [(0, 2), (1, 2), (2, 2)],
        6 => [(0, 2), (1, 1), (2, 0)],
        _ => [(0, 0), (1, 1), (2, 2)],
    };
    proof {
        assert(r@ =~= line_seq(k as int));
    }
    r
}

/// The shape winning triple `k`, with the triple's coordinates, if any.
fn check_line(cells: &[[Option<CellShape>; 3]; 3], k: usize) -> (r: Option<
    (CellShape, [(usize, usize); 3]),
>)
    requires
        k < 8,
    ensures
        match r {
            Some((s, l)) => line_winner(grid_view(*cells), k as int) == Some(s) && l@ == line_seq(
                k as int,
            ),
            None => line_winner(grid_view(*cells), k as int) is None,
        },
{
    let l = line_coords(k);
    let (x0, y0) = l[0];
    let (x1, y1) = l[1];
    let (x2, y2) = l[2];
    let g: Ghost<Grid> = Ghost(grid_view(*cells));
    proof {
        assert(g@[coord_idx(line_seq(k as int)[0])] == cells[x0 as int][y0 as int]);
        assert(g@[coord_idx(line_seq(k as int)[1])] == cells[x1 as int][y1 as int]);
        assert(g@[coord_idx(line_seq(k as int)[2])] == cells[x2 as int][y2 as int]);
    }
    match (cells[x0][y0], cells[x1][y1], cells[x2][y2]) {
        (Some(CellShape::X), Some(CellShape::X), Some(CellShape::X)) => Some((CellShape::X, l)),
        (Some(CellShape::O), Some(CellShape::O), Some(CellShape::O)) => Some((CellShape::O, l)),
        _ => None,
    }
}

/// Return the winner in the given board position, or a variant of
/// [`WinnerError`] if there is no winner.
///
/// If there are multiple winning lines but they all have the same winner (a
/// configuration possible in certain variants), then that shape wins and the
/// reported line is the first satisfied triple in scan order.
///
/// # Errors
///
/// - [`NoWinnerYet`](WinnerError::NoWinnerYet): there is currently no winner,
///   but there could be in the future.
/// - [`BoardFullNoWinner`](WinnerError::BoardFullNoWinner): the board is full
///   and neither player has won.
/// - [`MultipleWinners`](WinnerError::MultipleWinners): both players have won.
///   This should never be achievable in normal play.
pub fn get_winner(cells: [[Option<CellShape>; 3]; 3]) -> (r: Result<
    (CellShape, [(usize, usize); 3]),
    WinnerError,
>)
    ensures
        match outcome(grid_view(cells)) {
            GridOutcome::Winner(s, k) => r matches Ok(w) && w.0 == s && w.1@ == line_seq(k),
            GridOutcome::Multiple => r == Err::<(CellShape, [(usize, usize); 3]), _>(
                WinnerError::MultipleWinners,
            ),
            GridOutcome::Full => r == Err::<(CellShape, [(usize, usize); 3]), _>(
                WinnerError::BoardFullNoWinner,
            ),
            GridOutcome::NoneYet => r == Err::<(CellShape, [(usize, usize); 3]), _>(
                WinnerError::NoWinnerYet,
            ),
        },
{
    let g: Ghost<Grid> = Ghost(grid_view(cells));
    let mut found: Option<(CellShape, [(usize, usize); 3])> = None;
    let ghost mut found_k: int = 0;
    let mut won_x: bool = false;
    let mut won_o: bool = false;

    for k in 0..8usize
        invariant
            won_x == exists|j: int| 0 <= j < k && line_won(g@, j, CellShape::X),
            won_o == exists|j: int| 0 <= j < k && line_won(g@, j, CellShape::O),
            g@ == grid_view(cells),
            match found {
                Some((s, l)) => {
                    &&& 0 <= found_k < k
                    &&& line_winner(g@, found_k) == Some(s)
                    &&& l@ == line_seq(found_k)
                    &&& first_win(g@, 0) == Some((s, found_k))
                },
                None => first_win(g@, 0) == first_win(g@, k as int),
            },
    {
        match check_line(&cells, k) {
            Some((s, l)) => {
                if found.is_none() {
                    found = Some((s, l));
                    proof {
                        found_k = k as int;
                    }
                }
                match s {
                    CellShape::X => {
                        won_x = true;
                        proof {
                            assert(line_won(g@, k as int, CellShape::X));
                        }
                    },
                    CellShape::O => {
                        won_o = true;
                        proof {
                            assert(line_won(g@, k as int, CellShape::O));
                        }
                    },
                }
            },
            None => {},
        }
    }

    if won_x && won_o {
        Err(WinnerError::MultipleWinners)
    } else {
        proof {
            if found is None {
                if has_win(g@, CellShape::X) {
                    let j = choose|j: int| 0 <= j < 8 && line_won(g@, j, CellShape::X);
                    assert(line_winner(g@, j) is Some);
                    lemma_first_win_none(g@, 0, j);
                }
                if has_win(g@, CellShape::O) {
                    let j = choose|j: int| 0 <= j < 8 && line_won(g@, j, CellShape::O);
                    assert(line_winner(g@, j) is Some);
                    lemma_first_win_none(g@, 0, j);
                }
            }
        }
        match found {
            Some(w) => Ok(w),
            None => {
                if is_board_full(cells) {
                    Err(WinnerError::BoardFullNoWinner)
                } else {
                    Err(WinnerError::NoWinnerYet)
                }
            },
        }
    }
}

} // verus!
