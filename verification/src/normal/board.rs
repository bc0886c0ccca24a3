//! The flat 3x3 board and its minimax engine.

use crate::normal::Coord;
use crate::shared::board::{
    coord_idx, empty_cells_seq, empty_cells_upto, get_winner, grid_view,
    lemma_empty_cells_len, lemma_empty_cells_membership, lemma_empty_upto_bounds,
    lemma_is_full_num_empty, lemma_num_empty_update, lemma_two_some_bound,
    line_seq, num_empty, CellShape, Grid, GridOutcome, WinnerError,
};
use crate::shared::board::outcome as grid_outcome;
use vstd::prelude::*;

verus! {

/// The empty grid: nine empty cells.
pub open spec fn empty_grid() -> Grid {
    Seq::new(9, |k: int| None::<CellShape>)
}

/// A struct to represent a simple tic-tac-toe board.
#[derive(Clone, Copy, Debug)]
pub struct Board {
    /// This 2D array represents all the cells, and is indexed as
    /// `cells[x][y]`, with `x` the column and `y` the row:
    ///
    /// ```text
    /// (0, 0) | (1, 0) | (2, 0)
    /// ------------------------
    /// (0, 1) | (1, 1) | (2, 1)
    /// ------------------------
    /// (0, 2) | (1, 2) | (2, 2)
    /// ```
    pub cells: [[Option<CellShape>; 3]; 3],
    /// This is the shape that the AI will play as.
    ///
    /// Board positions where this shape wins are considered good, and
    /// positions where the other shape wins are considered bad.
    pub ai_shape: CellShape,
}

impl View for Board {
    type V = Grid;

    /// A board is viewed as its flat grid of cells.
    open spec fn view(&self) -> Grid {
        grid_view(self.cells)
    }
}

impl PartialEq for Board {
    fn eq(&self, other: &Self) -> (r: bool) {
        let mut same: bool = true;
        for k in 0..9usize
            invariant
                same == forall|j: int| 0 <= j < k ==> self@[j] == other@[j],
        {
            let x: usize = k / 3;
            let y: usize = k % 3;
            proof {
                assert(self@[k as int] == self.cells[k as int / 3][k as int % 3]);
                assert(other@[k as int] == other.cells[k as int / 3][k as int % 3]);
            }
            if self.cells[x][y] != other.cells[x][y] {
                same = false;
            }
        }
        proof {
            if same {
                assert(self@ =~= other@);
            } else {
                let j = choose|j: int| 0 <= j < 9 && self@[j] != other@[j];
                assert(self@[j] != other@[j]);
            }
        }
        same && self.ai_shape == other.ai_shape
    }
}

impl vstd::std_specs::cmp::PartialEqSpecImpl for Board {
    open spec fn obeys_eq_spec() -> bool {
        true
    }

    /// Two boards are equal when they hold the same cells and the same
    /// engine shape.
    open spec fn eq_spec(&self, other: &Self) -> bool {
        self@ == other@ && self.ai_shape == other.ai_shape
    }
}

impl Board {
    /// Create a new, empty board.
    pub fn new(shape_to_maximise: CellShape) -> (r: Self)
        ensures
            r@ == empty_grid(),
            r.ai_shape == shape_to_maximise,
    {
        let r = Self {
            cells: [[None, None, None], [None, None, None], [None, None, None]],
            ai_shape: shape_to_maximise,
        };
        proof {
            assert(r@ =~= empty_grid());
        }
        r
    }

    /// Create a board holding the given cells, with the default engine shape.
    pub fn with_cell_array(cells: [[Option<CellShape>; 3]; 3]) -> (r: Self)
        ensures
            r@ == grid_view(cells),
            r.ai_shape == CellShape::O,
    {
        Self { cells, ai_shape: CellShape::O }
    }

    /// Return the winner in the current board position, or a variant of
    /// [`WinnerError`] if there is no winner.  See
    /// [`shared::board::get_winner`](crate::shared::board::get_winner).
    pub fn get_winner(&self) -> (r: Result<(CellShape, [Coord; 3]), WinnerError>)
        ensures
            match grid_outcome(self@) {
                GridOutcome::Winner(s, k) => r matches Ok(w) && w.0 == s && w.1@ == line_seq(k),
                GridOutcome::Multiple => r == Err::<(CellShape, [Coord; 3]), _>(
                    WinnerError::MultipleWinners,
                ),
                GridOutcome::Full => r == Err::<(CellShape, [Coord; 3]), _>(
                    WinnerError::BoardFullNoWinner,
                ),
                GridOutcome::NoneYet => r == Err::<(CellShape, [Coord; 3]), _>(
                    WinnerError::NoWinnerYet,
                ),
            },
    {
        get_winner(self.cells)
    }

    /// Return a vector of the coordinates of empty cells in the board.
    ///
    /// This method searches columns before rows.
    pub fn empty_cells(&self) -> (r: Vec<Coord>)
        ensures
            r@ == empty_cells_seq(self@),
    {
        let mut r: Vec<Coord> = Vec::new();
        for k in 0..9usize
            invariant
                r@ == empty_cells_upto(self@, k as int),
        {
            let x: usize = k / 3;
            let y: usize = k % 3;
            proof {
                assert(self@[k as int] == self.cells[k as int / 3][k as int % 3]);
            }
            if self.cells[x][y].is_none() {
                r.push((x, y));
                proof {
                    assert(r@ =~= empty_cells_upto(self@, k as int + 1));
                }
            }
        }
        r
    }
}

/// The recency decay applied to the score of a continuation: nine tenths,
/// truncated toward zero.  Creating or blocking a win in the short term is
/// thereby prioritised over long-term play.
pub open spec fn spec_decay(s: int) -> int {
    if s >= 0 {
        9 * s / 10
    } else {
        -(9 * -s / 10)
    }
}

pub proof fn lemma_decay_bounds(s: int)
    ensures
        -100 <= s <= 100 ==> -90 <= spec_decay(s) <= 90,
        spec_decay(-s) == -spec_decay(s),
{
}

/// The minimax value of a position, from the engine's point of view, given
/// which shape plays next.
///
/// A position the engine has won is worth `100` and one the opponent has won
/// is worth `-100`; a draw, or a position with multiple winners, is worth
/// `0`.  An undecided position is worth the best decayed value over all
/// moves: the maximum when the engine's own shape is to play, the minimum
/// otherwise.
pub open spec fn eval(g: Grid, ai: CellShape, turn: CellShape) -> int
    decreases num_empty(g), 10int,
    when g.len() == 9
    via eval_decreases
{
    match grid_outcome(g) {
        GridOutcome::Winner(s, _) => if s == ai {
            100
        } else {
            -100
        },
        GridOutcome::Multiple => 0,
        GridOutcome::Full => 0,
        GridOutcome::NoneYet => match best_upto(g, ai, turn, 9) {
            Some(v) => v,
            None => 0,
        },
    }
}

/// The best decayed continuation value over the empty cells with flat index
/// below `k`: the maximum when `turn` is the engine's shape, the minimum
/// otherwise; `None` when no such cell is empty.
pub open spec fn best_upto(g: Grid, ai: CellShape, turn: CellShape, k: int) -> Option<int>
    decreases num_empty(g), k,
    when g.len() == 9 && 0 <= k <= 9
    via best_upto_decreases
{
    if k <= 0 {
        None
    } else {
        let rest = best_upto(g, ai, turn, k - 1);
        if g[k - 1] is None {
            let v = spec_decay(eval(g.update(k - 1, Some(turn)), ai, turn.spec_other()));
            match rest {
                None => Some(v),
                Some(b) => if turn == ai {
                    Some(if v > b {
                        v
                    } else {
                        b
                    })
                } else {
                    Some(if v < b {
                        v
                    } else {
                        b
                    })
                },
            }
        } else {
            rest
        }
    }
}

#[via_fn]
proof fn eval_decreases(g: Grid, ai: CellShape, turn: CellShape) {
    lemma_empty_upto_bounds(g, 9);
}

#[via_fn]
proof fn best_upto_decreases(g: Grid, ai: CellShape, turn: CellShape, k: int) {
    lemma_empty_upto_bounds(g, 9);
    if g.len() == 9 && 0 < k <= 9 && g[k - 1] is None {
        lemma_num_empty_update(g, k - 1, turn);
        lemma_empty_upto_bounds(g.update(k - 1, Some(turn)), 9);
    }
}

/// Minimax values always lie between `-100` and `100`.
pub proof fn lemma_eval_bounds(g: Grid, ai: CellShape, turn: CellShape)
    requires
        g.len() == 9,
    ensures
        -100 <= eval(g, ai, turn) <= 100,
    decreases num_empty(g), 10int,
{
    lemma_empty_upto_bounds(g, 9);
    if grid_outcome(g) is NoneYet {
        lemma_best_upto_bounds(g, ai, turn, 9);
    }
}

proof fn lemma_best_upto_bounds(g: Grid, ai: CellShape, turn: CellShape, k: int)
    requires
        g.len() == 9,
        0 <= k <= 9,
    ensures
        best_upto(g, ai, turn, k) matches Some(v) ==> -90 <= v <= 90,
    decreases num_empty(g), k,
{
    lemma_empty_upto_bounds(g, 9);
    if k > 0 {
        lemma_best_upto_bounds(g, ai, turn, k - 1);
        if g[k - 1] is None {
            lemma_num_empty_update(g, k - 1, turn);
            lemma_empty_upto_bounds(g.update(k - 1, Some(turn)), 9);
            lemma_eval_bounds(g.update(k - 1, Some(turn)), ai, turn.spec_other());
            lemma_decay_bounds(eval(g.update(k - 1, Some(turn)), ai, turn.spec_other()));
        }
    }
}

/// When some cell with flat index below `k` is empty, there is a best
/// continuation value.
proof fn lemma_best_upto_some(g: Grid, ai: CellShape, turn: CellShape, k: int)
    requires
        g.len() == 9,
        0 <= k <= 9,
        exists|j: int| 0 <= j < k && g[j] is None,
    ensures
        best_upto(g, ai, turn, k) is Some,
    decreases k,
{
    if !(g[k - 1] is None) {
        let j = choose|j: int| 0 <= j < k && g[j] is None;
        assert(0 <= j < k - 1 && g[j] is None);
        lemma_best_upto_some(g, ai, turn, k - 1);
    }
}

/// The decay computed on an 8-bit score: nine tenths truncated toward zero.
fn decay_score(s: i8) -> (r: i8)
    requires
        -100 <= s <= 100,
    ensures
        r as int == spec_decay(s as int),
{
    if s >= 0 {
        let m: u16 = s as u16;
        let q: u16 = (9 * m) / 10;
        q as i8
    } else {
        let n: i16 = s as i16;
        let m: u16 = (-n) as u16;
        let q: u16 = (9 * m) / 10;
        -(q as i8)
    }
}

impl Board {
    /// Evaluate the current position of the board, with the context of which
    /// shape is playing next.
    ///
    /// Positive numbers are always good for the AI; negative numbers are
    /// always good for the player.
    ///
    /// A win for the AI shape is 100. A win for the opponent is -100. For any
    /// other position, we iterate over all possible moves and evaluate each
    /// of them, swapping the shape for each recursion, and take nine tenths
    /// of each recursive value, truncated toward zero.  This means that
    /// creating or blocking a win in the short term is prioritised over long
    /// term play.
    pub fn evaluate_position(&self, shape_to_play: CellShape) -> (r: i8)
        ensures
            r as int == eval(self@, self.ai_shape, shape_to_play),
        decreases num_empty(self@),
    {
        proof {
            lemma_empty_upto_bounds(self@, 9);
        }
        match self.get_winner() {
            Ok((x, _)) => {
                if x == self.ai_shape {
                    100
                } else {
                    -100
                }
            },
            Err(WinnerError::MultipleWinners) | Err(WinnerError::BoardFullNoWinner) => 0,
            Err(WinnerError::NoWinnerYet) => {
                let ghost g: Grid = self@;
                let mut acc: Option<i8> = None;
                for k in 0..9usize
                    invariant
                        g == self@,
                        g.len() == 9,
                        match acc {
                            None => best_upto(g, self.ai_shape, shape_to_play, k as int) is None,
                            Some(b) => best_upto(g, self.ai_shape, shape_to_play, k as int)
                                == Some(b as int),
                        },
                {
                    let x: usize = k / 3;
                    let y: usize = k % 3;
                    proof {
                        assert(g[k as int] == self.cells[k as int / 3][k as int % 3]);
                    }
                    if self.cells[x][y].is_none() {
                        let mut nb = self.clone();
                        nb.cells[x][y] = Some(shape_to_play);
                        proof {
                            assert(nb@ =~= g.update(k as int, Some(shape_to_play)));
                            lemma_num_empty_update(g, k as int, shape_to_play);
                            lemma_empty_upto_bounds(nb@, 9);
                        }
                        let child = nb.evaluate_position(shape_to_play.other());
                        proof {
                            lemma_eval_bounds(nb@, self.ai_shape, shape_to_play.spec_other());
                        }
                        let v = decay_score(child);
                        acc = match acc {
                            None => Some(v),
                            Some(b) => {
                                if shape_to_play == self.ai_shape {
                                    if v > b {
                                        Some(v)
                                    } else {
                                        Some(b)
                                    }
                                } else {
                                    if v < b {
                                        Some(v)
                                    } else {
                                        Some(b)
                                    }
                                }
                            },
                        };
                    }
                }
                match acc {
                    Some(b) => b,
                    None => {
                        proof {
                            let j = choose|j: int| 0 <= j < 9 && !(g[j] is Some);
                            assert(0 <= j < 9 && g[j] is None);
                            lemma_best_upto_some(g, self.ai_shape, shape_to_play, 9);
                        }
                        0
                    },
                }
            },
        }
    }
}

/// The negation of an optional value.
pub open spec fn negate_opt(o: Option<int>) -> Option<int> {
    match o {
        None => None,
        Some(v) => Some(-v),
    }
}

proof fn lemma_other_facts(s: CellShape)
    ensures
        s.spec_other() != s,
        s.spec_other().spec_other() == s,
{
    match s {
        CellShape::X => {},
        CellShape::O => {},
    }
}

/// Minimax is symmetric under shape relabeling: designating the other shape
/// as the engine's and re-evaluating the position negates the score.
pub proof fn lemma_eval_shape_symmetry(g: Grid, ai: CellShape, turn: CellShape)
    requires
        g.len() == 9,
    ensures
        eval(g, ai.spec_other(), turn) == -eval(g, ai, turn),
    decreases num_empty(g), 10int,
{
    lemma_empty_upto_bounds(g, 9);
    lemma_other_facts(ai);
    lemma_other_facts(turn);
    match grid_outcome(g) {
        GridOutcome::Winner(s, _) => {
            lemma_other_facts(s);
        },
        GridOutcome::Multiple => {},
        GridOutcome::Full => {},
        GridOutcome::NoneYet => {
            lemma_best_upto_shape_symmetry(g, ai, turn, 9);
        },
    }
}

proof fn lemma_best_upto_shape_symmetry(g: Grid, ai: CellShape, turn: CellShape, k: int)
    requires
        g.len() == 9,
        0 <= k <= 9,
    ensures
        best_upto(g, ai.spec_other(), turn, k) == negate_opt(best_upto(g, ai, turn, k)),
    decreases num_empty(g), k,
{
    lemma_empty_upto_bounds(g, 9);
    lemma_other_facts(ai);
    lemma_other_facts(turn);
    if k > 0 {
        lemma_best_upto_shape_symmetry(g, ai, turn, k - 1);
        if g[k - 1] is None {
            let g2 = g.update(k - 1, Some(turn));
            lemma_num_empty_update(g, k - 1, turn);
            lemma_empty_upto_bounds(g2, 9);
            lemma_eval_shape_symmetry(g2, ai, turn.spec_other());
            lemma_decay_bounds(eval(g2, ai, turn.spec_other()));
        }
    }
}

/// Whether a coordinate names one of the four corner cells.
pub open spec fn is_corner(c: Coord) -> bool {
    ||| c == (0usize, 0usize)
    ||| c == (2usize, 2usize)
    ||| c == (0usize, 2usize)
    ||| c == (2usize, 0usize)
}

/// The value of placing the engine's shape in the empty cell with flat index
/// `j` and scoring the resulting position from the opponent's perspective.
pub open spec fn move_score(g: Grid, ai: CellShape, j: int) -> int {
    eval(g.update(j, Some(ai)), ai, ai.spec_other())
}

impl Board {
    /// Place the engine's shape in the given empty cell and score the result
    /// from the opponent's perspective.
    fn score_move(&self, c: Coord) -> (r: i8)
        requires
            c.0 < 3,
            c.1 < 3,
            self@[coord_idx(c)] is None,
        ensures
            r as int == move_score(self@, self.ai_shape, coord_idx(c)),
    {
        let mut nb = self.clone();
        nb.cells[c.0][c.1] = Some(self.ai_shape);
        proof {
            assert(nb@ =~= self@.update(coord_idx(c), Some(self.ai_shape)));
        }
        nb.evaluate_position(self.ai_shape.other())
    }

    /// Return the optimal position for the AI to play in, or `None` if the
    /// board is full.
    ///
    /// When the center is empty it is always taken.  When at most one mark
    /// has been placed and the center is taken, a corner is chosen uniformly
    /// at random.  Otherwise every empty cell is scored by simulating the
    /// engine's own shape there (see
    /// [`evaluate_position`](Board::evaluate_position)), and a cell is chosen
    /// uniformly at random among those tied for the maximum score.
    pub fn generate_ai_move(&self) -> (r: Option<Coord>)
        ensures
            r is None <==> num_empty(self@) == 0,
            self@[4] is None ==> r == Some((1usize, 1usize)),
            match r {
                Some(c) => {
                    &&& c.0 < 3
                    &&& c.1 < 3
                    &&& self@[coord_idx(c)] is None
                },
                None => true,
            },
            !(self@[4] is None) && num_empty(self@) >= 8 ==> (r matches Some(c) && is_corner(c)),
            !(self@[4] is None) && 0 < num_empty(self@) < 8 ==> (r matches Some(c) && (forall|
                j: int,
            |
                0 <= j < 9 && self@[j] is None ==> move_score(self@, self.ai_shape, j)
                    <= move_score(self@, self.ai_shape, coord_idx(c)))),
    {
        let ghost g: Grid = self@;
        proof {
            lemma_empty_cells_len(g, 9);
            lemma_empty_cells_membership(g, 9);
        }
        let empty_cells = self.empty_cells();
        if empty_cells.len() == 0 {
            proof {
                lemma_is_full_num_empty(g);
                if !(g[4] is Some) {
                    assert(empty_cells_seq(g).contains((1usize, 1usize)));
                }
            }
            return None;
        }
        proof {
            lemma_is_full_num_empty(g);
        }

        // Go in the center when possible
        if self.cells[1][1].is_none() {
            proof {
                assert(g[4] == self.cells[1int][1int]);
            }
            Some((1, 1))
            // When there's only one shape on the board and the center is full
        } else if empty_cells.len() >= 8 {
            proof {
                assert(g[4] == self.cells[1int][1int]);
                assert forall|j: int| 0 <= j < 9 && j != 4 implies g[j] is None by {
                    if g[j] is Some {
                        if j < 4 {
                            lemma_two_some_bound(g, j, 4);
                        } else {
                            lemma_two_some_bound(g, 4, j);
                        }
                    }
                }
            }
            let mut rng = crate::rng::thread_rng();
            let i = crate::rng::gen_index(&mut rng, 4);
            let c: Coord = match i {
                0 => (0, 0),
                1 => (2, 2),
                2 => (0, 2),
                _ => (2, 0),
            };
            Some(c)
        } else {
            let first = empty_cells[0];
            proof {
                assert(empty_cells_seq(g).contains(empty_cells@[0]));
            }
            let mut best: i8 = self.score_move(first);
            let mut ties: Vec<Coord> = Vec::new();
            ties.push(first);

            let ghost n = empty_cells@.len();
            let mut i: usize = 1;
            while i < empty_cells.len()
                invariant
                    g == self@,
                    g.len() == 9,
                    empty_cells@ == empty_cells_seq(g),
                    n == empty_cells@.len(),
                    1 <= i <= n,
                    forall|t: int|
                        0 <= t < i ==> move_score(g, self.ai_shape, coord_idx(empty_cells@[t]))
                            <= best as int,
                    ties@.len() >= 1,
                    forall|t: int|
                        0 <= t < ties@.len() ==> {
                            &&& empty_cells_seq(g).contains(#[trigger] ties@[t])
                            &&& move_score(g, self.ai_shape, coord_idx(ties@[t])) == best as int
                        },
                decreases n - i,
            {
                let c = empty_cells[i];
                proof {
                    lemma_empty_cells_membership(g, 9);
                    assert(empty_cells_seq(g).contains(empty_cells@[i as int]));
                }
                let s = self.score_move(c);
                let ghost old_ties = ties@;
                if s > best {
                    best = s;
                    ties = Vec::new();
                    ties.push(c);
                    proof {
                        assert(ties@.len() == 1 && ties@[0] == c);
                    }
                } else if s == best {
                    ties.push(c);
                    proof {
                        assert(ties@ == old_ties.push(c));
                        assert(forall|t: int| 0 <= t < old_ties.len() ==> ties@[t] == old_ties[t]);
                        assert(ties@[ties@.len() - 1] == c);
                    }
                }
                i = i + 1;
            }
            let mut rng = crate::rng::thread_rng();
            let pick = crate::rng::gen_index(&mut rng, ties.len());
            let c = ties[pick];
            proof {
                assert(empty_cells_seq(g).contains(ties@[pick as int]));
                assert forall|j: int| 0 <= j < 9 && g[j] is None implies move_score(
                    g,
                    self.ai_shape,
                    j,
                ) <= move_score(g, self.ai_shape, coord_idx(c)) by {
                    let cj: Coord = ((j / 3) as usize, (j % 3) as usize);
                    assert(coord_idx(cj) == j);
                    assert(empty_cells_seq(g).contains(cj));
                    let t = choose|t: int|
                        0 <= t < empty_cells_seq(g).len() && empty_cells_seq(g)[t] == cj;
                    assert(move_score(g, self.ai_shape, coord_idx(empty_cells@[t])) <= best as int);
                }
            }
            Some(c)
        }
    }
}

impl Default for Board {
    /// Return an empty board with [`O`](CellShape::O) as the engine shape.
    fn default() -> (r: Self)
        ensures
            r@ == empty_grid(),
            r.ai_shape == CellShape::O,
    {
        Self::new(CellShape::O)
    }
}

} // verus!
