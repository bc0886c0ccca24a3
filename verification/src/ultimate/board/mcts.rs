//! An AI for the ultimate variant based on Monte Carlo tree search (MCTS).
//!
//! The engine builds and refines a partial game tree using random playouts
//! and UCT-guided selection, and finally returns the move with the most
//! playouts.  UCT scores are evaluated in 1/65536 fixed-point integer
//! arithmetic, with a piecewise-linear approximation of the base-2
//! logarithm; near-ties may therefore resolve differently than an evaluation
//! over the reals, which only shifts which node is explored next.

use crate::shared::board::{
    lemma_empty_upto_bounds, lemma_num_empty_update, num_empty, outcome, CellShape, GridOutcome,
    WinnerError,
};
use crate::ultimate::board::{
    effective_grid, move_error, step_model, GlobalBoard, GlobalModel, LocalModel,
};
use crate::ultimate::GlobalCoord;
use vstd::arithmetic::div_mod::lemma_div_is_ordered;
use vstd::arithmetic::power2::{lemma2_to64, lemma_pow2_strictly_increases, lemma_pow2_unfold, pow2};
use vstd::prelude::*;

verus! {

// ---------------------------------------------------------------------------
// Fixed-point arithmetic for the UCT score.
// ---------------------------------------------------------------------------

/// The fixed-point scale: UCT scores are held in units of `1 / 65536`.
pub const UCT_SCALE: u64 = 65536;

/// `ln(2)` in units of `1 / 65536`.
pub const LN2_FIXED: u64 = 45426;

/// The UCT exploration parameter, 1.414, as a ratio of two integers.
pub const EXPLORATION_NUM: u64 = 1414;

/// The denominator of the exploration parameter.
pub const EXPLORATION_DEN: u64 = 1000;

/// The floor of the square root of a nonnegative number.
pub open spec fn spec_sqrt(x: int) -> int {
    choose|r: int| 0 <= r && #[trigger] (r * r) <= x < (r + 1) * (r + 1)
}

proof fn lemma_sqrt_exists(x: int)
    requires
        0 <= x,
    ensures
        exists|r: int| 0 <= r && #[trigger] (r * r) <= x < (r + 1) * (r + 1),
    decreases x,
{
    if x == 0 {
        assert(0 <= 0int && 0int * 0int <= x < (0int + 1) * (0int + 1));
    } else {
        lemma_sqrt_exists(x - 1);
        let r = choose|r: int| 0 <= r && #[trigger] (r * r) <= x - 1 < (r + 1) * (r + 1);
        if (r + 1) * (r + 1) <= x {
            assert(x < (r + 2) * (r + 2)) by (nonlinear_arith)
                requires
                    0 <= r,
                    x - 1 < (r + 1) * (r + 1),
            ;
            assert(0 <= r + 1 && (r + 1) * (r + 1) <= x < (r + 2) * (r + 2));
        } else {
            assert(0 <= r && r * r <= x < (r + 1) * (r + 1));
        }
    }
}

/// `spec_sqrt` really is the floor of the square root, and it is the only
/// number with that property.
pub proof fn lemma_spec_sqrt(x: int)
    requires
        0 <= x,
    ensures
        0 <= spec_sqrt(x),
        spec_sqrt(x) * spec_sqrt(x) <= x,
        x < (spec_sqrt(x) + 1) * (spec_sqrt(x) + 1),
        forall|r: int| 0 <= r && #[trigger] (r * r) <= x && x < (r + 1) * (r + 1) ==> r == spec_sqrt(x),
{
    lemma_sqrt_exists(x);
    let s = spec_sqrt(x);
    assert forall|r: int| 0 <= r && #[trigger] (r * r) <= x && x < (r + 1) * (r + 1) implies r == s by {
        assert(!(r < s || s < r)) by (nonlinear_arith)
            requires
                0 <= r,
                0 <= s,
                r * r <= x,
                s * s <= x,
                x < (r + 1) * (r + 1),
                x < (s + 1) * (s + 1),
        ;
    }
}

/// The floor of the square root, by binary search.
fn isqrt(x: u64) -> (r: u64)
    ensures
        r as int == spec_sqrt(x as int),
{
    proof {
        lemma_spec_sqrt(x as int);
    }
    if x == 0 {
        proof {
            let s = spec_sqrt(0int);
            assert(s == 0) by (nonlinear_arith)
                requires
                    0 <= s,
                    s * s <= 0,
            ;
        }
        return 0;
    }
    let mut lo: u64 = 0;
    let mut hi: u64 = 0x1_0000_0000;
    while hi - lo > 1
        invariant
            lo < hi <= 0x1_0000_0000,
            (lo as int) * (lo as int) <= x as int,
            (x as int) < (hi as int) * (hi as int),
        decreases hi - lo,
    {
        let mid: u64 = lo + (hi - lo) / 2;
        proof {
            assert((mid as int) * (mid as int) < 0x1_0000_0000_0000_0000) by (nonlinear_arith)
                requires
                    mid < 0x1_0000_0000,
            ;
        }
        if mid * mid <= x {
            lo = mid;
        } else {
            hi = mid;
        }
    }
    proof {
        lemma_spec_sqrt(x as int);
    }
    lo
}

/// The floor of the base-2 logarithm of a positive number.
pub open spec fn spec_log2(n: int) -> int
    decreases n,
{
    if n < 2 {
        0
    } else {
        1 + spec_log2(n / 2)
    }
}

proof fn lemma_log2_unique(n: int, e: nat)
    requires
        pow2(e) <= n < 2 * pow2(e),
    ensures
        e == spec_log2(n),
    decreases e,
{
    lemma2_to64();
    if e == 0 {
    } else {
        lemma_pow2_unfold(e);
        assert(pow2((e - 1) as nat) <= n / 2 < 2 * pow2((e - 1) as nat));
        lemma_log2_unique(n / 2, (e - 1) as nat);
    }
}

/// The floor of the base-2 logarithm, together with the matching power of
/// two.
fn floor_log2(n: u64) -> (r: (u64, u64))
    requires
        1 <= n,
    ensures
        r.0 as int == spec_log2(n as int),
        r.1 as int == pow2(r.0 as nat),
        r.1 <= n < 2 * r.1,
    decreases n,
{
    let mut e: u64 = 0;
    let mut m: u64 = n;
    let mut p: u64 = 1;
    proof {
        lemma_pow2_unfold(1);
        lemma2_to64();
    }
    while m >= 2
        invariant
            1 <= m,
            1 <= p,
            e <= 63,
            p as int == pow2(e as nat),
            (p as int) * (m as int) <= n as int,
            (n as int) < (p as int) * (m as int + 1),
        decreases m,
    {
        proof {
            lemma_pow2_unfold((e + 1) as nat);
            assert((p as int) * 2 * (m as int / 2) <= (p as int) * (m as int) && (p as int) * (
            m as int + 1) <= (p as int) * 2 * (m as int / 2 + 1)) by (nonlinear_arith)
                requires
                    1 <= p,
                    2 <= m,
            ;
            assert(p as int * 2 * (m as int / 2) >= p as int * 2) by (nonlinear_arith)
                requires
                    1 <= p,
                    1 <= m as int / 2,
            ;
            if e >= 63 {
                assert(pow2(63) == 0x8000_0000_0000_0000) by {
                    lemma2_to64();
                    vstd::arithmetic::power2::lemma2_to64_rest();
                }
                assert(false);
            }
        }
        m = m / 2;
        e = e + 1;
        p = p * 2;
    }
    proof {
        assert(m == 1);
        lemma_log2_unique(n as int, e as nat);
    }
    (e, p)
}

/// The natural logarithm in 1/65536 fixed point, by linear interpolation of
/// the base-2 logarithm between neighbouring powers of two.
#[verifier::opaque]
pub open spec fn spec_ln_fixed(n: int) -> int {
    let e = spec_log2(n);
    let frac = ((n - pow2(e as nat)) * 65536) / pow2(e as nat) as int;
    ((e * 65536 + frac) * 45426) / 65536
}

/// `ln(n)` in 1/65536 fixed point.
fn ln_fixed(n: u64) -> (r: u64)
    requires
        1 <= n < 0x1_0000_0000,
    ensures
        r as int == spec_ln_fixed(n as int),
        r < 1_500_000,
{
    let (e, p) = floor_log2(n);
    proof {
        reveal(spec_ln_fixed);
        if e >= 32 {
            lemma2_to64();
            lemma_pow2_strictly_increases(32, e as nat);
            assert(false);
        }
        assert(((n as int) - (p as int)) * 65536 < (p as int) * 65536) by (nonlinear_arith)
            requires
                (n as int) - (p as int) < (p as int),
        ;
    }
    let frac: u64 = ((n - p) * UCT_SCALE) / p;
    proof {
        assert(frac < 65536) by {
            assert(((n as int - p as int) * 65536) / (p as int) < 65536) by (nonlinear_arith)
                requires
                    1 <= p,
                    (n as int - p as int) * 65536 < (p as int) * 65536,
                    0 <= (n as int - p as int),
            ;
        }
    }
    let val: u64 = e * UCT_SCALE + frac;
    let r: u64 = (val * LN2_FIXED) / UCT_SCALE;
    proof {
        reveal(spec_ln_fixed);
        assert(val <= 31 * 65536 + 65535);
        assert((val as int) * 45426 < 1_500_000 * 65536);
        assert(((val as int) * 45426) / 65536 < 1_500_000) by (nonlinear_arith)
            requires
                0 <= (val as int) * 45426 < 1_500_000 * 65536,
        ;
    }
    r
}

/// The UCT score of a node in 1/65536 fixed point:
/// `wins / playouts + 1.414 * sqrt(ln(parent_playouts) / playouts)`.
#[verifier::opaque]
pub open spec fn spec_uct_fixed(w: int, n: int, np: int) -> int {
    (w * 65536) / n + (1414 * spec_sqrt((spec_ln_fixed(np) * 65536) / n)) / 1000
}

/// The UCT score in 1/65536 fixed point.
fn uct_fixed(wins: u64, playouts: u64, parent_playouts: u64) -> (r: u64)
    requires
        1 <= playouts < 0x1_0000_0000,
        wins <= playouts,
        1 <= parent_playouts < 0x1_0000_0000,
    ensures
        r as int == spec_uct_fixed(wins as int, playouts as int, parent_playouts as int),
{
    proof {
        reveal(spec_uct_fixed);
        assert((wins as int) * 65536 <= (playouts as int) * 65536) by (nonlinear_arith)
            requires
                wins <= playouts,
        ;
    }
    let exploit: u64 = (wins * UCT_SCALE) / playouts;
    proof {
        assert(((wins as int) * 65536) / (playouts as int) <= 65536) by (nonlinear_arith)
            requires
                1 <= playouts,
                (wins as int) * 65536 <= (playouts as int) * 65536,
        ;
    }
    let lnp: u64 = ln_fixed(parent_playouts);
    let inner: u64 = (lnp * UCT_SCALE) / playouts;
    proof {
        lemma_div_is_ordered((lnp * 65536) as int, 1_500_000int * 65536, playouts as int);
        assert(((lnp * 65536) as int) / (playouts as int) <= (lnp * 65536) as int) by (
        nonlinear_arith)
            requires
                1 <= playouts,
                0 <= (lnp * 65536) as int,
        ;
        assert((1_500_000int * 65536) / (playouts as int) <= 1_500_000int * 65536) by (
        nonlinear_arith)
            requires
                1 <= playouts,
        ;
        lemma_spec_sqrt(inner as int);
    }
    let root: u64 = isqrt(inner);
    proof {
        assert(root as int <= 0x80_0000) by (nonlinear_arith)
            requires
                (root as int) * (root as int) <= inner as int,
                inner as int <= 1_500_000 * 65536,
                0 <= root as int,
        ;
    }
    let explore: u64 = (EXPLORATION_NUM * root) / EXPLORATION_DEN;
    proof {
        reveal(spec_uct_fixed);
    }
    exploit + explore
}

// ---------------------------------------------------------------------------
// Legal-move enumeration.
// ---------------------------------------------------------------------------

/// Whether the forced-board pointer, if set, addresses a local board.
pub open spec fn next_ok(m: GlobalModel) -> bool {
    m.next matches Some(c) ==> c.0 < 3 && c.1 < 3
}

/// Every grid of a board model has nine cells.
pub open spec fn model_wf(m: GlobalModel) -> bool {
    &&& m.boards.len() == 9
    &&& forall|i: int| 0 <= i < 9 ==> (#[trigger] m.boards[i].grid).len() == 9
}

/// The view of a global board is always a well-formed model.
pub proof fn lemma_view_wf(b: GlobalBoard)
    ensures
        model_wf(b@),
{
    assert forall|i: int| 0 <= i < 9 implies (#[trigger] b@.boards[i].grid).len() == 9 by {
        assert(b@.boards[i] == b.local_boards[i / 3][i % 3]@);
    }
}

/// The empty cells of the local board at `(x, y)` among its first `j` cell
/// slots, a slot `j` naming cell `(j % 3, j / 3)`, as global coordinates.
pub open spec fn board_cells_upto(m: GlobalModel, x: usize, y: usize, j: int) -> Seq<GlobalCoord>
    decreases j,
{
    if j <= 0 {
        Seq::empty()
    } else {
        board_cells_upto(m, x, y, j - 1) + if m.boards[3 * x + y].grid[3 * ((j - 1) % 3) + (j - 1)
            / 3] is None {
            seq![(x, y, ((((j - 1) % 3) as usize), (((j - 1) / 3) as usize)))]
        } else {
            Seq::empty()
        }
    }
}

/// The empty cells of the whole board among the first `t` of its 81 cell
/// slots, a slot `t` naming cell `t % 9` of local board `t / 9`, local
/// boards themselves scanned row by row.
pub open spec fn all_cells_upto(m: GlobalModel, t: int) -> Seq<GlobalCoord>
    decreases t,
{
    if t <= 0 {
        Seq::empty()
    } else {
        let i = (t - 1) / 9;
        let j = (t - 1) % 9;
        all_cells_upto(m, t - 1) + if m.boards[3 * (i % 3) + i / 3].grid[3 * (j % 3) + j
            / 3] is None {
            seq![((i % 3) as usize, (i / 3) as usize, (((j % 3) as usize), ((j / 3) as usize)))]
        } else {
            Seq::empty()
        }
    }
}

/// The legal moves of a board: the empty cells of the forced local board
/// when one is set, else the empty cells of the whole board.
pub open spec fn legal_seq(m: GlobalModel) -> Seq<GlobalCoord> {
    match m.next {
        Some(c) => board_cells_upto(m, c.0, c.1, 9),
        None => all_cells_upto(m, 81),
    }
}

proof fn lemma_board_cells_legal(m: GlobalModel, x: usize, y: usize, j: int)
    requires
        x < 3,
        y < 3,
        j <= 9,
        m.next is None || m.next == Some((x, y)),
    ensures
        forall|c: GlobalCoord| #[trigger]
            board_cells_upto(m, x, y, j).contains(c) ==> move_error(m, c) is None && c.0 == x
                && c.1 == y && c.2.0 < 3 && c.2.1 < 3,
    decreases j,
{
    if j > 0 {
        lemma_board_cells_legal(m, x, y, j - 1);
        let cur = board_cells_upto(m, x, y, j);
        let prev = board_cells_upto(m, x, y, j - 1);
        assert forall|c: GlobalCoord| #[trigger] cur.contains(c) implies move_error(m, c) is None
            && c.0 == x && c.1 == y && c.2.0 < 3 && c.2.1 < 3 by {
            let i = choose|i: int| 0 <= i < cur.len() && cur[i] == c;
            if i < prev.len() {
                assert(prev.contains(c));
            }
        }
    }
}

proof fn lemma_all_cells_legal(m: GlobalModel, t: int)
    requires
        t <= 81,
        m.next is None,
    ensures
        forall|c: GlobalCoord| #[trigger]
            all_cells_upto(m, t).contains(c) ==> move_error(m, c) is None && c.0 < 3 && c.1 < 3
                && c.2.0 < 3 && c.2.1 < 3,
    decreases t,
{
    if t > 0 {
        lemma_all_cells_legal(m, t - 1);
        let cur = all_cells_upto(m, t);
        let prev = all_cells_upto(m, t - 1);
        assert forall|c: GlobalCoord| #[trigger] cur.contains(c) implies move_error(m, c) is None
            && c.0 < 3 && c.1 < 3 && c.2.0 < 3 && c.2.1 < 3 by {
            let i = choose|i: int| 0 <= i < cur.len() && cur[i] == c;
            if i < prev.len() {
                assert(prev.contains(c));
            }
        }
    }
}

/// Every enumerated legal move passes the validation of `make_move`.
pub proof fn lemma_legal_moves_legal(m: GlobalModel)
    requires
        next_ok(m),
    ensures
        forall|c: GlobalCoord| #[trigger]
            legal_seq(m).contains(c) ==> move_error(m, c) is None && c.0 < 3 && c.1 < 3 && c.2.0
                < 3 && c.2.1 < 3,
{
    match m.next {
        Some(c) => {
            lemma_board_cells_legal(m, c.0, c.1, 9);
        },
        None => {
            lemma_all_cells_legal(m, 81);
        },
    }
}

proof fn lemma_board_cells_len(m: GlobalModel, x: usize, y: usize, j: int)
    requires
        0 <= j,
    ensures
        board_cells_upto(m, x, y, j).len() <= j,
    decreases j,
{
    if j > 0 {
        lemma_board_cells_len(m, x, y, j - 1);
    }
}

proof fn lemma_all_cells_len(m: GlobalModel, t: int)
    requires
        0 <= t,
    ensures
        all_cells_upto(m, t).len() <= t,
    decreases t,
{
    if t > 0 {
        lemma_all_cells_len(m, t - 1);
    }
}

/// There are at most 81 legal moves.
pub proof fn lemma_legal_len(m: GlobalModel)
    ensures
        legal_seq(m).len() <= 81,
{
    match m.next {
        Some(c) => {
            lemma_board_cells_len(m, c.0, c.1, 9);
        },
        None => {
            lemma_all_cells_len(m, 81);
        },
    }
}

// ---------------------------------------------------------------------------
// The number of empty cells over the whole board, which every legal move
// decreases: the termination measure for playouts.
// ---------------------------------------------------------------------------

pub open spec fn boards_empty_upto(bs: Seq<LocalModel>, k: int) -> int
    decreases k,
{
    if k <= 0 {
        0
    } else {
        boards_empty_upto(bs, k - 1) + num_empty(bs[k - 1].grid)
    }
}

/// The number of empty cells across all nine local boards.
pub open spec fn total_empty(m: GlobalModel) -> int {
    boards_empty_upto(m.boards, 9)
}

proof fn lemma_boards_empty_bounds(bs: Seq<LocalModel>, k: int)
    requires
        0 <= k,
        forall|i: int| 0 <= i < k ==> (#[trigger] bs[i].grid).len() == 9,
    ensures
        0 <= boards_empty_upto(bs, k) <= 9 * k,
    decreases k,
{
    if k > 0 {
        lemma_boards_empty_bounds(bs, k - 1);
        lemma_empty_upto_bounds(bs[k - 1].grid, 9);
    }
}

pub proof fn lemma_total_empty_bounds(m: GlobalModel)
    requires
        model_wf(m),
    ensures
        0 <= total_empty(m) <= 81,
{
    lemma_boards_empty_bounds(m.boards, 9);
}

proof fn lemma_boards_empty_update(bs: Seq<LocalModel>, bi: int, b2: LocalModel, k: int)
    requires
        0 <= bi < bs.len(),
        0 <= k <= bs.len(),
    ensures
        boards_empty_upto(bs.update(bi, b2), k) == boards_empty_upto(bs, k) + if bi < k {
            num_empty(b2.grid) - num_empty(bs[bi].grid)
        } else {
            0
        },
    decreases k,
{
    if k > 0 {
        lemma_boards_empty_update(bs, bi, b2, k - 1);
    }
}

/// A legal move fills exactly one empty cell.
pub proof fn lemma_step_decreases(m: GlobalModel, c: GlobalCoord, s: CellShape)
    requires
        model_wf(m),
        move_error(m, c) is None,
    ensures
        model_wf(step_model(m, c, s)),
        next_ok(step_model(m, c, s)),
        total_empty(step_model(m, c, s)) == total_empty(m) - 1,
{
    let bi = 3 * c.0 + c.1;
    let ci = 3 * c.2.0 + c.2.1;
    let b = m.boards[bi];
    let b2 = LocalModel { grid: b.grid.update(ci, Some(s)), winner: b.winner };
    lemma_num_empty_update(b.grid, ci, s);
    lemma_boards_empty_update(m.boards, bi, b2, 9);
    assert forall|i: int| 0 <= i < 9 implies (#[trigger] step_model(m, c, s).boards[i].grid).len()
        == 9 by {
        if i != bi {
            assert(step_model(m, c, s).boards[i] == m.boards[i]);
        }
    }
}

impl GlobalBoard {
    /// Return a vec of all the legal moves on the global board: the empty
    /// cells of the forced local board when one is set, else the empty cells
    /// of all nine local boards.
    #[verifier::rlimit(100)]
    #[verifier::spinoff_prover]
    pub fn legal_moves(&self) -> (r: Vec<GlobalCoord>)
        requires
            next_ok(self@),
        ensures
            r@ == legal_seq(self@),
    {
        let ghost m = self@;
        match self.next_local_board() {
            Some((x, y)) => {
                let mut r: Vec<GlobalCoord> = Vec::new();
                for j in 0..9usize
                    invariant
                        m == self@,
                        x < 3,
                        y < 3,
                        m.next == Some((x, y)),
                        r@ == board_cells_upto(m, x, y, j as int),
                {
                    let lx: usize = j % 3;
                    let ly: usize = j / 3;
                    proof {
                        assert(m.boards[3 * x + y] == self.local_boards[x as int][y as int]@);
                        assert(m.boards[3 * x + y].grid[3 * lx + ly]
                            == self.local_boards[x as int][y as int].cells[lx as int][ly as int]);
                    }
                    if self.local_boards[x][y].cells[lx][ly].is_none() {
                        r.push((x, y, (lx, ly)));
                    }
                    proof {
                        assert(r@ =~= board_cells_upto(m, x, y, j as int + 1));
                    }
                }
                r
            },
            None => {
                let mut r: Vec<GlobalCoord> = Vec::new();
                for t in 0..81usize
                    invariant
                        m == self@,
                        m.next is None,
                        r@ == all_cells_upto(m, t as int),
                {
                    let i: usize = t / 9;
                    let j: usize = t % 9;
                    let x: usize = i % 3;
                    let y: usize = i / 3;
                    let lx: usize = j % 3;
                    let ly: usize = j / 3;
                    proof {
                        assert(m.boards[3 * x + y] == self.local_boards[x as int][y as int]@);
                        assert(m.boards[3 * x + y].grid[3 * lx + ly]
                            == self.local_boards[x as int][y as int].cells[lx as int][ly as int]);
                    }
                    if self.local_boards[x][y].cells[lx][ly].is_none() {
                        r.push((x, y, (lx, ly)));
                    }
                    proof {
                        assert(r@ =~= all_cells_upto(m, t as int + 1));
                    }
                }
                r
            },
        }
    }

    /// Return a legal move chosen uniformly at random, or `None` if there is
    /// no legal move.
    pub fn get_random_legal_move(&self) -> (r: Option<GlobalCoord>)
        requires
            next_ok(self@),
        ensures
            r is None <==> legal_seq(self@).len() == 0,
            r matches Some(c) ==> legal_seq(self@).contains(c),
    {
        let l = self.legal_moves();
        if l.len() == 0 {
            None
        } else {
            let mut rng = crate::rng::thread_rng();
            let i = crate::rng::gen_index(&mut rng, l.len());
            proof {
                assert(legal_seq(self@).contains(l@[i as int])) by {
                    assert(legal_seq(self@)[i as int] == l@[i as int]);
                }
            }
            Some(l[i])
        }
    }
}

} // verus!

verus! {

// ---------------------------------------------------------------------------
// The game tree.
// ---------------------------------------------------------------------------

/// The largest number of playouts a tree will ever record; staying far below
/// `u64::MAX` keeps every counter increment free of overflow.
pub const TOTAL_CAP: u64 = 0xFFFF_FFFF;

/// A node in the game tree.
pub struct Node {
    /// The move taken to get to this board state.
    pub previous_move: Option<GlobalCoord>,
    /// The board state of this node.
    pub board: GlobalBoard,
    /// The shape to play next.
    pub shape_to_play_next: CellShape,
    /// The number of playouts through this node that the AI won.
    ///
    /// The wins *always* refer to wins for the AI, as opposed to a win for
    /// the player about to play in this position.
    pub wins: u64,
    /// The total number of playouts through this node.
    pub playouts: u64,
    /// The index of the parent node in the tree, `None` for the root.
    pub parent: Option<usize>,
    /// The indices of the child nodes in the tree.
    pub children: Vec<usize>,
}

/// A game tree held in an arena: node 0 is the root, children are owned by
/// their parent's index list, and the parent link is a plain index used only
/// for upward traversal.
pub struct GameTree {
    pub nodes: Vec<Node>,
    /// The number of playouts recorded over the whole tree.
    pub total_playouts: u64,
}

/// The structural well-formedness of the arena: the root has no parent,
/// every other node's parent comes before it, children come after their
/// parent and point back to it, and every stored board has a sound
/// forced-board pointer.
#[verifier::opaque]
pub open spec fn shape_ok(ns: Seq<Node>) -> bool {
    &&& ns.len() >= 1
    &&& ns[0].parent is None
    &&& forall|i: int|
        1 <= i < ns.len() ==> ((#[trigger] ns[i].parent) matches Some(p) && (p as int) < i)
    &&& forall|i: int, j: int|
        0 <= i < ns.len() && 0 <= j < ns[i].children@.len() ==> i < #[trigger] ns[i].children@[j]
            < ns.len() && ns[ns[i].children@[j] as int].parent == Some(i as usize)
    &&& forall|i: int| 0 <= i < ns.len() ==> next_ok((#[trigger] ns[i]).board@)
}

/// The counter well-formedness of the arena: wins never exceed playouts,
/// playouts never exceed the tree-wide total, every child has been played
/// out at least once, and a parent has at least as many playouts as each of
/// its children.
#[verifier::opaque]
pub open spec fn counts_ok(ns: Seq<Node>, total: u64) -> bool {
    &&& forall|i: int| 0 <= i < ns.len() ==> (#[trigger] ns[i]).wins <= ns[i].playouts <= total
    &&& forall|i: int, j: int|
        0 <= i < ns.len() && 0 <= j < ns[i].children@.len() ==> ns[(#[trigger] ns[i].children@[j]) as int].playouts
            >= 1
    &&& forall|i: int|
        1 <= i < ns.len() ==> match #[trigger] ns[i].parent {
            Some(p) => ns[p as int].playouts >= ns[i].playouts,
            None => true,
        }
}

/// A well-formed game tree.
pub open spec fn tree_wf(t: GameTree) -> bool {
    &&& shape_ok(t.nodes@)
    &&& counts_ok(t.nodes@, t.total_playouts)
    &&& t.total_playouts <= TOTAL_CAP
}

/// The UCT score of node `j`, or 0 for the root, which has no parent and is
/// never a selection target.
pub open spec fn node_uct(ns: Seq<Node>, j: int) -> int {
    match ns[j].parent {
        Some(p) => spec_uct_fixed(
            ns[j].wins as int,
            ns[j].playouts as int,
            ns[p as int].playouts as int,
        ),
        None => 0,
    }
}

/// The child that UCT selection picks from a nonempty list of children:
/// the last one whose UCT score is maximal.
pub open spec fn best_uct_in(ns: Seq<Node>, ch: Seq<usize>) -> usize
    decreases ch.len(),
{
    if ch.len() <= 1 {
        if ch.len() == 1 {
            ch[0]
        } else {
            0
        }
    } else {
        let prev = best_uct_in(ns, ch.drop_last());
        if node_uct(ns, ch.last() as int) >= node_uct(ns, prev as int) {
            ch.last()
        } else {
            prev
        }
    }
}

/// The root child that the robust-child policy picks from a nonempty list
/// of children: the last one with maximal playouts.
pub open spec fn most_played_in(ns: Seq<Node>, ch: Seq<usize>) -> usize
    decreases ch.len(),
{
    if ch.len() <= 1 {
        if ch.len() == 1 {
            ch[0]
        } else {
            0
        }
    } else {
        let prev = most_played_in(ns, ch.drop_last());
        if ns[ch.last() as int].playouts >= ns[prev as int].playouts {
            ch.last()
        } else {
            prev
        }
    }
}

/// The picked child is in the list and its playout count is maximal.
pub proof fn lemma_most_played_in_props(ns: Seq<Node>, ch: Seq<usize>)
    requires
        ch.len() > 0,
    ensures
        ch.contains(most_played_in(ns, ch)),
        forall|t: int|
            0 <= t < ch.len() ==> ns[#[trigger] ch[t] as int].playouts <= ns[most_played_in(
                ns,
                ch,
            ) as int].playouts,
    decreases ch.len(),
{
    if ch.len() == 1 {
        assert(ch[0] == most_played_in(ns, ch));
    } else {
        lemma_most_played_in_props(ns, ch.drop_last());
        let prev = most_played_in(ns, ch.drop_last());
        let picked = most_played_in(ns, ch);
        assert(ch.drop_last().contains(prev));
        let t0 = choose|t0: int| 0 <= t0 < ch.drop_last().len() && ch.drop_last()[t0] == prev;
        assert(ch[t0] == prev);
        assert(ch[ch.len() - 1] == ch.last());
        assert forall|t: int|
            0 <= t < ch.len() implies ns[#[trigger] ch[t] as int].playouts <= ns[picked as int].playouts by {
            if t < ch.len() - 1 {
                assert(ch.drop_last()[t] == ch[t]);
            }
        }
    }
}

/// The node that UCT selection reaches from node `i`: descend into the
/// UCT-best child until reaching a leaf.  `fuel` bounds the walk; in a
/// well-formed tree any fuel of at least the number of nodes is enough,
/// because children always have larger indices than their parent.
pub open spec fn select_spec(ns: Seq<Node>, i: int, fuel: nat) -> int
    decreases fuel,
{
    if fuel == 0 || ns[i].children@.len() == 0 {
        i
    } else {
        select_spec(ns, best_uct_in(ns, ns[i].children@) as int, (fuel - 1) as nat)
    }
}

/// The picked child is in the list and its UCT score is maximal.
pub proof fn lemma_best_uct_in_props(ns: Seq<Node>, ch: Seq<usize>)
    requires
        ch.len() > 0,
    ensures
        ch.contains(best_uct_in(ns, ch)),
        forall|t: int|
            0 <= t < ch.len() ==> node_uct(ns, #[trigger] ch[t] as int) <= node_uct(
                ns,
                best_uct_in(ns, ch) as int,
            ),
    decreases ch.len(),
{
    if ch.len() == 1 {
        assert(ch[0] == best_uct_in(ns, ch));
    } else {
        lemma_best_uct_in_props(ns, ch.drop_last());
        let prev = best_uct_in(ns, ch.drop_last());
        let picked = best_uct_in(ns, ch);
        assert(ch.drop_last().contains(prev));
        let t0 = choose|t0: int| 0 <= t0 < ch.drop_last().len() && ch.drop_last()[t0] == prev;
        assert(ch[t0] == prev);
        assert(ch[ch.len() - 1] == ch.last());
        assert forall|t: int|
            0 <= t < ch.len() implies node_uct(ns, #[trigger] ch[t] as int) <= node_uct(
            ns,
            picked as int,
        ) by {
            if t < ch.len() - 1 {
                assert(ch.drop_last()[t] == ch[t]);
            }
        }
    }
}

/// Any sufficient fuel reaches the same leaf.
pub proof fn lemma_select_spec_fuel(ns: Seq<Node>, i: int, f1: nat, f2: nat)
    requires
        shape_ok(ns),
        0 <= i < ns.len(),
        f1 >= ns.len() - i,
        f2 >= ns.len() - i,
    ensures
        select_spec(ns, i, f1) == select_spec(ns, i, f2),
    decreases f1,
{
    reveal(shape_ok);
    let ch = ns[i].children@;
    if ch.len() > 0 {
        lemma_best_uct_in_props(ns, ch);
        let c = best_uct_in(ns, ch);
        let t0 = choose|t0: int| 0 <= t0 < ch.len() && ch[t0] == c;
        assert(i < ch[t0] < ns.len());
        lemma_select_spec_fuel(ns, c as int, (f1 - 1) as nat, (f2 - 1) as nat);
    }
}

/// Two nodes that agree on everything but their counters.
pub open spec fn same_structure(a: Node, b: Node) -> bool {
    &&& a.previous_move == b.previous_move
    &&& a.board == b.board
    &&& a.shape_to_play_next == b.shape_to_play_next
    &&& a.parent == b.parent
    &&& a.children == b.children
}

/// Whether node `j` lies on the parent chain from node `i` up to the root,
/// `i` itself included.
#[verifier::opaque]
pub open spec fn is_ancestor(ns: Seq<Node>, i: int, j: int) -> bool
    decreases i,
{
    if i == j {
        true
    } else if 0 < i && (ns[i].parent matches Some(p) && 0 <= (p as int) < i) {
        is_ancestor(ns, ns[i].parent->Some_0 as int, j)
    } else {
        false
    }
}

/// A node with one more playout recorded, and one more win when the playout
/// was won.
pub open spec fn bumped(n: Node, won: bool) -> Node {
    Node {
        wins: if won {
            (n.wins + 1) as u64
        } else {
            n.wins
        },
        playouts: (n.playouts + 1) as u64,
        ..n
    }
}

/// Every node lies on its own chain.
pub proof fn lemma_ancestor_refl(ns: Seq<Node>, i: int)
    ensures
        is_ancestor(ns, i, i),
{
    reveal(is_ancestor);
}

/// A chain only goes toward smaller indices.
pub proof fn lemma_ancestor_le(ns: Seq<Node>, i: int, j: int)
    requires
        is_ancestor(ns, i, j),
    ensures
        j <= i,
    decreases i,
{
    reveal(is_ancestor);
    if i != j {
        lemma_ancestor_le(ns, ns[i].parent->Some_0 as int, j);
    }
}

/// Chains only depend on the parent links up to their start.
pub proof fn lemma_ancestor_congruence(ns1: Seq<Node>, ns2: Seq<Node>, i: int, j: int)
    requires
        0 <= i,
        forall|k: int| 0 <= k <= i ==> (#[trigger] ns1[k]).parent == ns2[k].parent,
    ensures
        is_ancestor(ns1, i, j) == is_ancestor(ns2, i, j),
    decreases i,
{
    reveal(is_ancestor);
    if i != j && 0 < i && (ns1[i].parent matches Some(p) && 0 <= (p as int) < i) {
        lemma_ancestor_congruence(ns1, ns2, ns1[i].parent->Some_0 as int, j);
    }
}

/// The chain from a non-root node is itself plus the chain from its parent.
pub proof fn lemma_ancestor_unfold(ns: Seq<Node>, i: int, j: int)
    requires
        0 < i,
        ns[i].parent matches Some(p) && 0 <= (p as int) < i,
    ensures
        is_ancestor(ns, i, j) == (j == i || is_ancestor(ns, ns[i].parent->Some_0 as int, j)),
{
    reveal(is_ancestor);
    if j == i {
    } else if is_ancestor(ns, ns[i].parent->Some_0 as int, j) {
        lemma_ancestor_le(ns, ns[i].parent->Some_0 as int, j);
    }
}

impl GameTree {
    /// Create a tree holding only a root node with the given board and the
    /// given shape to play next.
    pub fn make_root(board: &GlobalBoard, shape_to_play_next: CellShape) -> (t: GameTree)
        requires
            next_ok(board@),
        ensures
            tree_wf(t),
            t.nodes@.len() == 1,
            t.total_playouts == 0,
            t.nodes@[0].board == *board,
            t.nodes@[0].shape_to_play_next == shape_to_play_next,
            t.nodes@[0].previous_move is None,
            t.nodes@[0].children@.len() == 0,
            t.nodes@[0].wins == 0,
            t.nodes@[0].playouts == 0,
    {
        let root = Node {
            previous_move: None,
            board: *board,
            shape_to_play_next,
            wins: 0,
            playouts: 0,
            parent: None,
            children: Vec::new(),
        };
        let mut nodes: Vec<Node> = Vec::new();
        nodes.push(root);
        proof {
            reveal(shape_ok);
            reveal(counts_ok);
        }
        GameTree { nodes, total_playouts: 0 }
    }

    /// Check if node `i` is a leaf.
    pub fn is_leaf(&self, i: usize) -> (r: bool)
        requires
            i < self.nodes@.len(),
        ensures
            r == (self.nodes@[i as int].children@.len() == 0),
    {
        self.nodes[i].children.len() == 0
    }

    /// Play the game to completion with random moves from the board of node
    /// `i`, and return whether the AI won this simulation; a draw counts as
    /// a loss.
    ///
    /// The random continuation cannot be pinned, but a board that is already
    /// decided gets no further moves, so the result is then determined: a
    /// win exactly when the winner is the engine's shape, and a loss on a
    /// draw or multiple winners.
    #[verifier::spinoff_prover]
    pub fn playout(&self, i: usize) -> (r: bool)
        requires
            tree_wf(*self),
            i < self.nodes@.len(),
        ensures
            ({
                let m0 = self.nodes@[i as int].board@;
                &&& (outcome(effective_grid(m0)) matches GridOutcome::Winner(s, _) ==> r == (s
                    == m0.ai))
                &&& (outcome(effective_grid(m0)) is Full ==> r == false)
                &&& (outcome(effective_grid(m0)) is Multiple ==> r == false)
            }),
    {
        let ghost m0 = self.nodes@[i as int].board@;
        let mut board = self.nodes[i].board;
        let mut shape = self.nodes[i].shape_to_play_next;
        let ai = board.engine_shape();
        proof {
            reveal(shape_ok);
            lemma_view_wf(board);
            lemma_total_empty_bounds(board@);
        }
        loop
            invariant
                next_ok(board@),
                model_wf(board@),
                0 <= total_empty(board@) <= 81,
                board@.ai == m0.ai,
                !(outcome(effective_grid(m0)) is NoneYet) ==> board@.boards == m0.boards,
            ensures
                board@.ai == m0.ai,
                !(outcome(effective_grid(m0)) is NoneYet) ==> board@.boards == m0.boards,
            decreases total_empty(board@),
        {
            proof {
                if !(outcome(effective_grid(m0)) is NoneYet) {
                    assert(effective_grid(board@) =~= effective_grid(m0));
                }
            }
            let w = board.get_winner();
            let undecided = match w {
                Err(WinnerError::NoWinnerYet) => true,
                _ => false,
            };
            if !undecided {
                break ;
            }
            match board.get_random_legal_move() {
                None => {
                    break ;
                },
                Some(c) => {
                    proof {
                        lemma_legal_moves_legal(board@);
                        lemma_step_decreases(board@, c, shape);
                    }
                    let _ = board.make_move(c, shape);
                    proof {
                        lemma_total_empty_bounds(board@);
                    }
                    shape = shape.other();
                },
            }
        }
        proof {
            if !(outcome(effective_grid(m0)) is NoneYet) {
                assert(effective_grid(board@) =~= effective_grid(m0));
            }
        }
        match board.get_winner() {
            Ok((s, _)) => s == ai,
            _ => false,
        }
    }

    /// Propagate a win or loss up the game tree to the root node: every node
    /// from `i` up to the root records one more playout, and one more win
    /// when the playout was won.
    #[verifier::spinoff_prover]
    #[verifier::rlimit(100)]
    pub fn backpropagate(&mut self, i: usize, has_won: bool)
        requires
            shape_ok(old(self).nodes@),
            i < old(self).nodes@.len(),
            forall|j: int|
                0 <= j <= i ==> (#[trigger] old(self).nodes@[j]).playouts <= TOTAL_CAP && old(self).nodes@[j].wins <= TOTAL_CAP,
            forall|j: int|
                1 <= j < old(self).nodes@.len() ==> match #[trigger] old(self).nodes@[j].parent {
                    Some(q) => old(self).nodes@[j].playouts - (if q == i {
                        1int
                    } else {
                        0int
                    }) <= old(self).nodes@[q as int].playouts,
                    None => true,
                },
        ensures
            final(self).nodes@.len() == old(self).nodes@.len(),
            final(self).total_playouts == old(self).total_playouts,
            forall|j: int|
                0 <= j < old(self).nodes@.len() ==> same_structure(
                    #[trigger] final(self).nodes@[j],
                    old(self).nodes@[j],
                ),
            forall|j: int|
                0 <= j < old(self).nodes@.len() ==> old(self).nodes@[j].playouts <= (
                #[trigger] final(self).nodes@[j]).playouts <= old(self).nodes@[j].playouts + 1,
            forall|j: int|
                0 <= j < old(self).nodes@.len() ==> old(self).nodes@[j].wins <= (
                #[trigger] final(self).nodes@[j]).wins && final(self).nodes@[j].wins - old(self).nodes@[j].wins <= final(self).nodes@[j].playouts - old(self).nodes@[j].playouts,
            final(self).nodes@[i as int].playouts == old(self).nodes@[i as int].playouts + 1,
            forall|j: int|
                (i as int) < j < old(self).nodes@.len() ==> final(self).nodes@[j] == old(self).nodes@[j],
            forall|j: int|
                1 <= j < old(self).nodes@.len() ==> match #[trigger] final(self).nodes@[j].parent {
                    Some(q) => final(self).nodes@[j].playouts <= final(self).nodes@[q as int].playouts,
                    None => true,
                },
            forall|j: int|
                0 <= j < old(self).nodes@.len() ==> #[trigger] final(self).nodes@[j] == (
                if is_ancestor(old(self).nodes@, i as int, j) {
                    bumped(old(self).nodes@[j], has_won)
                } else {
                    old(self).nodes@[j]
                }),
        decreases i,
    {
        let ghost ns0 = self.nodes@;
        proof {
            reveal(shape_ok);
            assert(old(self).nodes@[i as int].playouts <= TOTAL_CAP && old(self).nodes@[i as int].wins <= TOTAL_CAP);
        }
        let node = &mut self.nodes[i];
        if has_won {
            node.wins = node.wins + 1;
        }
        node.playouts = node.playouts + 1;
        let parent = node.parent;
        proof {
            let ns1 = self.nodes@;
            assert(ns1 =~= ns0.update(
                i as int,
                Node {
                    wins: if has_won {
                        (ns0[i as int].wins + 1) as u64
                    } else {
                        ns0[i as int].wins
                    },
                    playouts: (ns0[i as int].playouts + 1) as u64,
                    ..ns0[i as int]
                },
            ));
            assert(ns0 == old(self).nodes@);
            assert(ns0[i as int].playouts <= TOTAL_CAP);
            assert(self.nodes@[i as int].playouts == ns0[i as int].playouts + 1);
        }
        match parent {
            None => {
                proof {
                    assert forall|j: int| 1 <= j < ns0.len() implies match #[trigger] self.nodes@[j].parent {
                        Some(q) => self.nodes@[j].playouts <= self.nodes@[q as int].playouts,
                        None => true,
                    } by {
                        assert(self.nodes@[j].parent == ns0[j].parent);
                        if ns0[j].parent == Some(i) {
                            assert(i == 0);
                        }
                    }
                    lemma_ancestor_refl(ns0, i as int);
                    assert forall|j: int| 0 <= j < ns0.len() implies #[trigger] self.nodes@[j] == (
                    if is_ancestor(ns0, i as int, j) {
                        bumped(ns0[j], has_won)
                    } else {
                        ns0[j]
                    }) by {
                        reveal(is_ancestor);
                    }
                }
            },
            Some(p) => {
                proof {
                    assert(p < i);
                    assert forall|j: int| 0 <= j <= p implies (#[trigger] self.nodes@[j]).playouts
                        <= TOTAL_CAP && self.nodes@[j].wins <= TOTAL_CAP by {
                        assert(old(self).nodes@[j].playouts <= TOTAL_CAP && old(self).nodes@[j].wins
                            <= TOTAL_CAP);
                        assert(self.nodes@[j] == ns0[j]);
                    }
                    assert forall|k: int| 0 <= k < self.nodes@.len() implies (
                    #[trigger] self.nodes@[k]).parent == ns0[k].parent by {}
                    assert(shape_ok(self.nodes@)) by {
                        reveal(shape_ok);
                        let ns1 = self.nodes@;
                        assert forall|a: int, b: int|
                            0 <= a < ns1.len() && 0 <= b < ns1[a].children@.len() implies a
                            < #[trigger] ns1[a].children@[b] < ns1.len()
                            && ns1[ns1[a].children@[b] as int].parent == Some(a as usize) by {
                            assert(ns1[a].children == ns0[a].children);
                            assert(ns0[a].children@[b] == ns1[a].children@[b]);
                        }
                    }
                    assert forall|j: int|
                        1 <= j < self.nodes@.len() implies match #[trigger] self.nodes@[j].parent {
                        Some(q) => self.nodes@[j].playouts - (if q == p {
                            1int
                        } else {
                            0int
                        }) <= self.nodes@[q as int].playouts,
                        None => true,
                    } by {
                        assert(self.nodes@[j].parent == ns0[j].parent);
                    }
                }
                let ghost ns1 = self.nodes@;
                self.backpropagate(p, has_won);
                proof {
                    assert forall|j: int| 0 <= j < ns0.len() implies #[trigger] final(self).nodes@[j]
                        == (if is_ancestor(ns0, i as int, j) {
                        bumped(ns0[j], has_won)
                    } else {
                        ns0[j]
                    }) by {
                        assert(forall|k: int|
                            0 <= k <= p ==> (#[trigger] ns1[k]).parent == ns0[k].parent);
                        lemma_ancestor_congruence(ns1, ns0, p as int, j);
                        lemma_ancestor_unfold(ns0, i as int, j);
                        if j == i as int {
                            if is_ancestor(ns0, p as int, i as int) {
                                lemma_ancestor_le(ns0, p as int, i as int);
                            }
                        }
                    }
                }
            },
        }
    }
}

} // verus!

verus! {

impl GameTree {
    /// Play out the board of node `i` once and record the result at every
    /// node from `i` up to the root.
    #[verifier::rlimit(100)]
    #[verifier::spinoff_prover]
    pub fn playout_and_backpropagate(&mut self, i: usize)
        requires
            tree_wf(*old(self)),
            i < old(self).nodes@.len(),
            old(self).total_playouts < TOTAL_CAP,
        ensures
            tree_wf(*final(self)),
            final(self).nodes@.len() == old(self).nodes@.len(),
            final(self).total_playouts == old(self).total_playouts + 1,
            forall|j: int|
                0 <= j < old(self).nodes@.len() ==> same_structure(
                    #[trigger] final(self).nodes@[j],
                    old(self).nodes@[j],
                ) && old(self).nodes@[j].playouts <= final(self).nodes@[j].playouts <= old(self).nodes@[j].playouts + 1 && old(self).nodes@[j].wins <= final(self).nodes@[j].wins,
            final(self).nodes@[i as int].playouts == old(self).nodes@[i as int].playouts + 1,
            forall|j: int|
                0 <= j < old(self).nodes@.len() && !is_ancestor(old(self).nodes@, i as int, j)
                    ==> #[trigger] final(self).nodes@[j] == old(self).nodes@[j],
            forall|j: int|
                0 <= j < old(self).nodes@.len() && is_ancestor(old(self).nodes@, i as int, j) ==> (
                #[trigger] final(self).nodes@[j]).playouts == old(self).nodes@[j].playouts + 1
                    && final(self).nodes@[j].wins <= old(self).nodes@[j].wins + 1,
    {
        let ghost ns0 = self.nodes@;
        let ghost total0 = self.total_playouts;
        let won = self.playout(i);
        proof {
            reveal(counts_ok);
        }
        self.total_playouts = self.total_playouts + 1;
        self.backpropagate(i, won);
        proof {
            let ns1 = self.nodes@;
            assert(shape_ok(ns1)) by {
                reveal(shape_ok);
                assert forall|a: int, b: int|
                    0 <= a < ns1.len() && 0 <= b < ns1[a].children@.len() implies a < #[trigger] ns1[a].children@[b]
                    < ns1.len() && ns1[ns1[a].children@[b] as int].parent == Some(a as usize) by {
                    assert(ns1[a].children == ns0[a].children);
                    assert(ns0[a].children@[b] == ns1[a].children@[b]);
                }
            }
            assert(counts_ok(ns1, self.total_playouts)) by {
                reveal(counts_ok);
                assert forall|a: int, b: int|
                    0 <= a < ns1.len() && 0 <= b
                        < ns1[a].children@.len() implies ns1[#[trigger] ns1[a].children@[b] as int].playouts
                    >= 1 by {
                    reveal(counts_ok);
                    reveal(shape_ok);
                    assert(counts_ok(old(self).nodes@, total0));
                    let c = ns1[a].children@[b];
                    assert(a < c < ns1.len());
                    assert(same_structure(ns1[a], old(self).nodes@[a]));
                    assert(old(self).nodes@[a].children@[b] == c);
                    assert(0 <= b < old(self).nodes@[a].children@.len());
                    assert(old(self).nodes@[c as int].playouts >= 1);
                    assert(ns0 == old(self).nodes@);
                    assert(ns0[c as int].playouts >= 1);
                    assert(ns0[c as int].playouts <= ns1[c as int].playouts);
                }
            }
        }
    }

    /// Compute the UCT score of node `i`, in 1/65536 fixed point, or `None`
    /// for the root, which has no parent and is never a selection target.
    pub fn compute_uct(&self, i: usize) -> (r: Option<u64>)
        requires
            tree_wf(*self),
            i < self.nodes@.len(),
            1 <= i ==> self.nodes@[i as int].playouts >= 1,
        ensures
            r is None <==> i == 0,
            r matches Some(u) ==> u as int == node_uct(self.nodes@, i as int),
    {
        proof {
            reveal(shape_ok);
            reveal(counts_ok);
        }
        match self.nodes[i].parent {
            None => None,
            Some(p) => {
                let wins = self.nodes[i].wins;
                let playouts = self.nodes[i].playouts;
                let parent_playouts = self.nodes[p].playouts;
                Some(uct_fixed(wins, playouts, parent_playouts))
            },
        }
    }

    /// Find the child of node `i` with the highest UCT score; among equal
    /// scores the last one wins.
    #[verifier::rlimit(100)]
    #[verifier::spinoff_prover]
    pub fn best_child_by_uct(&self, i: usize) -> (r: Option<usize>)
        requires
            tree_wf(*self),
            i < self.nodes@.len(),
        ensures
            r is None <==> self.nodes@[i as int].children@.len() == 0,
            r matches Some(c) ==> self.nodes@[i as int].children@.contains(c) && c == best_uct_in(
                self.nodes@,
                self.nodes@[i as int].children@,
            ) && (forall|t: int|
                0 <= t < self.nodes@[i as int].children@.len() ==> node_uct(
                    self.nodes@,
                    #[trigger] self.nodes@[i as int].children@[t] as int,
                ) <= node_uct(self.nodes@, c as int)),
    {
        let n = self.nodes[i].children.len();
        let mut best: Option<(usize, u64)> = None;
        for t in 0..n
            invariant
                tree_wf(*self),
                i < self.nodes@.len(),
                n == self.nodes@[i as int].children@.len(),
                match best {
                    None => t == 0,
                    Some((bc, bu)) => {
                        &&& t > 0
                        &&& self.nodes@[i as int].children@.contains(bc)
                        &&& bc == best_uct_in(
                            self.nodes@,
                            self.nodes@[i as int].children@.take(t as int),
                        )
                        &&& bu as int == node_uct(self.nodes@, bc as int)
                        &&& forall|s: int|
                            0 <= s < t ==> node_uct(
                                self.nodes@,
                                #[trigger] self.nodes@[i as int].children@[s] as int,
                            ) <= bu as int
                    },
                },
        {
            let c = self.nodes[i].children[t];
            proof {
                reveal(shape_ok);
                reveal(counts_ok);
                assert(self.nodes@[i as int].children@.contains(
                    self.nodes@[i as int].children@[t as int],
                ));
            }
            let u_opt = self.compute_uct(c);
            match u_opt {
                Some(u) => {
                    match best {
                        None => {
                            best = Some((c, u));
                        },
                        Some((_, bu)) => {
                            if u >= bu {
                                best = Some((c, u));
                            }
                        },
                    }
                },
                None => {
                    proof {
                        assert(false);
                    }
                },
            }
            proof {
                let ch = self.nodes@[i as int].children@;
                assert(ch.take(t as int + 1).drop_last() =~= ch.take(t as int));
                assert(ch.take(t as int + 1).last() == ch[t as int]);
                if t == 0 {
                    assert(ch.take(1)[0] == ch[0]);
                }
            }
        }
        proof {
            assert(self.nodes@[i as int].children@.take(n as int) =~= self.nodes@[i as int].children@);
        }
        match best {
            None => None,
            Some((bc, _)) => Some(bc),
        }
    }

    /// Find the child of node `i` with the most playouts; among equal
    /// counts the last one wins.  This is the robust-child policy that picks
    /// the final move.
    #[verifier::rlimit(100)]
    #[verifier::spinoff_prover]
    pub fn best_child_by_playouts(&self, i: usize) -> (r: Option<usize>)
        requires
            tree_wf(*self),
            i < self.nodes@.len(),
        ensures
            r is None <==> self.nodes@[i as int].children@.len() == 0,
            r matches Some(c) ==> self.nodes@[i as int].children@.contains(c) && c
                == most_played_in(self.nodes@, self.nodes@[i as int].children@) && (forall|t: int|
                0 <= t < self.nodes@[i as int].children@.len()
                    ==> self.nodes@[#[trigger] self.nodes@[i as int].children@[t] as int].playouts
                    <= self.nodes@[c as int].playouts),
    {
        let n = self.nodes[i].children.len();
        let mut best: Option<(usize, u64)> = None;
        for t in 0..n
            invariant
                tree_wf(*self),
                i < self.nodes@.len(),
                n == self.nodes@[i as int].children@.len(),
                match best {
                    None => t == 0,
                    Some((bc, bp)) => {
                        &&& t > 0
                        &&& self.nodes@[i as int].children@.contains(bc)
                        &&& (bc as int) < self.nodes@.len()
                        &&& bc == most_played_in(
                            self.nodes@,
                            self.nodes@[i as int].children@.take(t as int),
                        )
                        &&& bp == self.nodes@[bc as int].playouts
                        &&& forall|s: int|
                            0 <= s < t
                                ==> self.nodes@[#[trigger] self.nodes@[i as int].children@[s] as int].playouts
                                <= bp
                    },
                },
        {
            let c = self.nodes[i].children[t];
            proof {
                reveal(shape_ok);
                assert(self.nodes@[i as int].children@.contains(
                    self.nodes@[i as int].children@[t as int],
                ));
            }
            let p = self.nodes[c].playouts;
            match best {
                None => {
                    best = Some((c, p));
                },
                Some((_, bp)) => {
                    if p >= bp {
                        best = Some((c, p));
                    }
                },
            }
            proof {
                let ch = self.nodes@[i as int].children@;
                assert(ch.take(t as int + 1).drop_last() =~= ch.take(t as int));
                assert(ch.take(t as int + 1).last() == ch[t as int]);
                if t == 0 {
                    assert(ch.take(1)[0] == ch[0]);
                }
            }
        }
        proof {
            assert(self.nodes@[i as int].children@.take(n as int) =~= self.nodes@[i as int].children@);
        }
        match best {
            None => None,
            Some((bc, _)) => Some(bc),
        }
    }

    /// Select the node to expand next: from node `i`, repeatedly descend to
    /// the child with the highest UCT score until reaching a leaf.
    pub fn select_node(&self, i: usize) -> (r: usize)
        requires
            tree_wf(*self),
            i < self.nodes@.len(),
        ensures
            r < self.nodes@.len(),
            self.nodes@[r as int].children@.len() == 0,
            r as int == select_spec(self.nodes@, i as int, (self.nodes@.len() - i) as nat),
        decreases self.nodes@.len() - i,
    {
        if self.is_leaf(i) {
            return i;
        }
        match self.best_child_by_uct(i) {
            Some(c) => {
                proof {
                    reveal(shape_ok);
                    let ch = self.nodes@[i as int].children@;
                    let t = choose|t: int| 0 <= t < ch.len() && ch[t] == c;
                    assert(i < ch[t] < self.nodes@.len());
                }
                let r = self.select_node(c);
                proof {
                    let ns = self.nodes@;
                    lemma_select_spec_fuel(
                        ns,
                        c as int,
                        (ns.len() - c) as nat,
                        (ns.len() - i - 1) as nat,
                    );
                }
                r
            },
            None => i,
        }
    }
}

} // verus!

verus! {

/// Whether applying move `c` immediately wins the game for the engine.
pub open spec fn immediate_win(m: GlobalModel, c: GlobalCoord) -> bool {
    outcome(effective_grid(step_model(m, c, m.ai))) matches GridOutcome::Winner(s, _) && s == m.ai
}

/// The first move of `moves` that immediately wins the game for the engine.
pub open spec fn first_win_move(m: GlobalModel, moves: Seq<GlobalCoord>) -> Option<GlobalCoord>
    decreases moves.len(),
{
    if moves.len() == 0 {
        None
    } else if immediate_win(m, moves[0]) {
        Some(moves[0])
    } else {
        first_win_move(m, moves.drop_first())
    }
}

impl GameTree {
    /// Append one child of node `i` for move `mv`, give it a single random
    /// playout, and record the result up the tree.
    #[verifier::rlimit(100)]
    #[verifier::spinoff_prover]
    fn add_child(&mut self, i: usize, mv: GlobalCoord, shape0: CellShape, board0: &GlobalBoard)
        requires
            tree_wf(*old(self)),
            i < old(self).nodes@.len(),
            old(self).total_playouts < TOTAL_CAP,
            move_error(board0@, mv) is None,
            next_ok(board0@),
        ensures
            tree_wf(*final(self)),
            final(self).nodes@.len() == old(self).nodes@.len() + 1,
            final(self).total_playouts == old(self).total_playouts + 1,
            forall|j: int|
                0 <= j < old(self).nodes@.len() ==> {
                    let a = #[trigger] final(self).nodes@[j];
                    let b = old(self).nodes@[j];
                    a.previous_move == b.previous_move && a.board == b.board
                        && a.shape_to_play_next == b.shape_to_play_next && a.parent == b.parent && (
                    j != i ==> a.children == b.children)
                },
            final(self).nodes@[i as int].children@ == old(self).nodes@[i as int].children@.push(
                old(self).nodes@.len() as usize,
            ),
            final(self).nodes@[old(self).nodes@.len() as int].previous_move == Some(mv),
            final(self).nodes@[old(self).nodes@.len() as int].parent == Some(i),
            final(self).nodes@[old(self).nodes@.len() as int].board@ == step_model(
                board0@,
                mv,
                shape0,
            ),
            final(self).nodes@[old(self).nodes@.len() as int].shape_to_play_next
                == shape0.spec_other(),
            final(self).nodes@[old(self).nodes@.len() as int].playouts == 1,
            final(self).nodes@[old(self).nodes@.len() as int].wins <= 1,
            forall|j: int|
                0 <= j < old(self).nodes@.len() && !is_ancestor(old(self).nodes@, i as int, j)
                    ==> #[trigger] final(self).nodes@[j] == old(self).nodes@[j],
            forall|j: int|
                0 <= j < old(self).nodes@.len() && is_ancestor(old(self).nodes@, i as int, j) ==> (
                #[trigger] final(self).nodes@[j]).playouts == old(self).nodes@[j].playouts + 1
                    && old(self).nodes@[j].wins <= final(self).nodes@[j].wins <= old(self).nodes@[j].wins + 1,
    {
        let mut nb = *board0;
        proof {
            lemma_view_wf(nb);
            lemma_step_decreases(board0@, mv, shape0);
        }
        let _ = nb.make_move(mv, shape0);
        let child = Node {
            previous_move: Some(mv),
            board: nb,
            shape_to_play_next: shape0.other(),
            wins: 0,
            playouts: 0,
            parent: Some(i),
            children: Vec::new(),
        };
        let ci = self.nodes.len();
        let ghost ns_a = self.nodes@;
        let ghost chv = child;
        self.nodes.push(child);
        proof {
            let ns_b = self.nodes@;
            assert(ns_b =~= ns_a.push(chv));
            assert(ns_b[ci as int] == chv);
            assert(chv.children@.len() == 0 && chv.parent == Some(i) && chv.playouts == 0
                && chv.wins == 0 && chv.previous_move == Some(mv));
            assert(shape_ok(ns_b)) by {
                reveal(shape_ok);
                assert(shape_ok(ns_a));
                assert(forall|j: int| 0 <= j < ns_a.len() ==> ns_b[j] == ns_a[j]);
                assert forall|a: int, b: int|
                    0 <= a < ns_b.len() && 0 <= b < ns_b[a].children@.len() implies a
                    < #[trigger] ns_b[a].children@[b] < ns_b.len()
                    && ns_b[ns_b[a].children@[b] as int].parent == Some(a as usize) by {
                    if a < ns_a.len() {
                        assert(ns_b[a].children == ns_a[a].children);
                        assert(ns_a[a].children@[b] == ns_b[a].children@[b]);
                    } else {
                        assert(ns_b[a] == chv);
                    }
                }
            }
            assert(counts_ok(ns_b, self.total_playouts)) by {
                reveal(counts_ok);
                reveal(shape_ok);
                assert(counts_ok(ns_a, self.total_playouts));
                assert(shape_ok(ns_a));
                assert forall|k: int|
                    0 <= k < ns_b.len() implies (#[trigger] ns_b[k]).wins <= ns_b[k].playouts
                    <= self.total_playouts by {
                    if k < ns_a.len() {
                        assert(ns_b[k] == ns_a[k]);
                        assert(ns_a[k].wins <= ns_a[k].playouts <= self.total_playouts);
                    }
                }
                assert forall|a: int, b: int|
                    0 <= a < ns_b.len() && 0 <= b < ns_b[a].children@.len() implies ns_b[(
                #[trigger] ns_b[a].children@[b]) as int].playouts >= 1 by {
                    if a < ns_a.len() {
                        assert(ns_b[a].children == ns_a[a].children);
                        assert(ns_a[a].children@[b] == ns_b[a].children@[b]);
                        assert(ns_a[ns_a[a].children@[b] as int].playouts >= 1);
                    } else {
                        assert(ns_b[a] == chv);
                    }
                }
                assert forall|k: int| 1 <= k < ns_b.len() implies match #[trigger] ns_b[k].parent {
                    Some(q) => ns_b[q as int].playouts >= ns_b[k].playouts,
                    None => true,
                } by {
                    if k < ns_a.len() {
                        assert(ns_b[k] == ns_a[k]);
                        assert(match ns_a[k].parent {
                            Some(q) => ns_a[q as int].playouts >= ns_a[k].playouts,
                            None => true,
                        });
                    } else {
                        assert(ns_b[k].parent == Some(i));
                    }
                }
            }
        }
        self.playout_and_backpropagate(ci);
        let ghost ns_p = self.nodes@;
        let node_i = &mut self.nodes[i];
        node_i.children.push(ci);
        proof {
            let ns_c = self.nodes@;
            let ns_b = ns_a.push(chv);
            assert(ns_c.len() == ns_p.len());
            assert(forall|j: int| 0 <= j < ns_c.len() && j != i ==> ns_c[j] == ns_p[j]);
            assert(ns_c[i as int].children@ == ns_p[i as int].children@.push(ci));
            assert(ns_c[i as int].previous_move == ns_p[i as int].previous_move && ns_c[i as int].board
                == ns_p[i as int].board && ns_c[i as int].shape_to_play_next == ns_p[i as int].shape_to_play_next
                && ns_c[i as int].parent == ns_p[i as int].parent && ns_c[i as int].wins
                == ns_p[i as int].wins && ns_c[i as int].playouts == ns_p[i as int].playouts);
            assert(shape_ok(ns_c)) by {
                reveal(shape_ok);
                assert(shape_ok(ns_p));
                assert forall|a: int, b: int|
                    0 <= a < ns_c.len() && 0 <= b < ns_c[a].children@.len() implies a
                    < #[trigger] ns_c[a].children@[b] < ns_c.len()
                    && ns_c[ns_c[a].children@[b] as int].parent == Some(a as usize) by {
                    if a == i && b == ns_c[a].children@.len() - 1 {
                        assert(ns_c[a].children@[b] == ci);
                    } else {
                        assert(ns_c[a].children@[b] == ns_p[a].children@[b]);
                    }
                }
            }
            assert(counts_ok(ns_c, self.total_playouts)) by {
                reveal(counts_ok);
                reveal(shape_ok);
                assert(counts_ok(ns_p, self.total_playouts));
                assert(shape_ok(ns_p));
                assert forall|k: int|
                    0 <= k < ns_c.len() implies (#[trigger] ns_c[k]).wins <= ns_c[k].playouts
                    <= self.total_playouts by {
                    assert(ns_c[k].wins == ns_p[k].wins && ns_c[k].playouts == ns_p[k].playouts);
                    assert(ns_p[k].wins <= ns_p[k].playouts <= self.total_playouts);
                }
                assert forall|a: int, b: int|
                    0 <= a < ns_c.len() && 0 <= b < ns_c[a].children@.len() implies ns_c[(
                #[trigger] ns_c[a].children@[b]) as int].playouts >= 1 by {
                    if a == i && b == ns_c[a].children@.len() - 1 {
                        assert(ns_c[a].children@[b] == ci);
                        assert(ns_p[ci as int].playouts >= 1);
                        assert(ns_c[ci as int].playouts == ns_p[ci as int].playouts);
                    } else {
                        assert(ns_c[a].children@[b] == ns_p[a].children@[b]);
                        assert(ns_p[ns_p[a].children@[b] as int].playouts >= 1);
                        assert(ns_c[ns_p[a].children@[b] as int].playouts == ns_p[ns_p[a].children@[b] as int].playouts);
                    }
                }
                assert forall|k: int| 1 <= k < ns_c.len() implies match #[trigger] ns_c[k].parent {
                    Some(q) => ns_c[q as int].playouts >= ns_c[k].playouts,
                    None => true,
                } by {
                    assert(ns_c[k].parent == ns_p[k].parent);
                    assert(match ns_p[k].parent {
                        Some(q) => ns_p[q as int].playouts >= ns_p[k].playouts,
                        None => true,
                    });
                    match ns_p[k].parent {
                        Some(q) => {
                            assert(ns_c[q as int].playouts == ns_p[q as int].playouts);
                            assert(ns_c[k].playouts == ns_p[k].playouts);
                        },
                        None => {},
                    }
                }
            }
            // The chain of the new child within the pushed arena is the child
            // itself plus the chain of node `i` in the old arena.
            assert forall|j: int| 0 <= j < ns_a.len() implies is_ancestor(ns_b, ci as int, j)
                == is_ancestor(ns_a, i as int, j) by {
                lemma_ancestor_unfold(ns_b, ci as int, j);
                assert(forall|k: int| 0 <= k <= i ==> (#[trigger] ns_b[k]).parent == ns_a[k].parent);
                lemma_ancestor_congruence(ns_b, ns_a, i as int, j);
            }
            assert forall|j: int|
                0 <= j < ns_a.len() && !is_ancestor(ns_a, i as int, j) implies #[trigger] ns_c[j]
                == ns_a[j] by {
                assert(ns_p[j] == ns_b[j]);
                assert(ns_b[j] == ns_a[j]);
                if j == i {
                    lemma_ancestor_refl(ns_a, i as int);
                }
                assert(ns_c[j] == ns_p[j]);
            }
            assert forall|j: int|
                0 <= j < ns_a.len() && is_ancestor(ns_a, i as int, j) implies (
            #[trigger] ns_c[j]).playouts == ns_a[j].playouts + 1 && ns_a[j].wins <= ns_c[j].wins
                <= ns_a[j].wins + 1 by {
                assert(is_ancestor(ns_b, ci as int, j));
                assert(ns_b[j] == ns_a[j]);
                assert(ns_p[j].playouts == ns_b[j].playouts + 1);
                if j != i {
                    assert(ns_c[j] == ns_p[j]);
                } else {
                    assert(ns_c[j].playouts == ns_p[j].playouts && ns_c[j].wins == ns_p[j].wins);
                }
            }
            // The new child itself carries the applied move and one playout.
            assert(ns_c[ci as int] == ns_p[ci as int]);
            assert(same_structure(ns_p[ci as int], ns_b[ci as int]));
            assert(ns_c[ci as int].board@ == step_model(board0@, mv, shape0));
            assert(ns_c[ci as int].shape_to_play_next == shape0.spec_other());
            assert(ns_p[ci as int].playouts == 1);
            assert(ns_c[ci as int].wins <= 1);
        }
    }

    /// Expand node `i` if possible.
    ///
    /// If its board state already has a win, loss, or draw, or there is no
    /// legal move, nothing changes.  Otherwise one child is appended per
    /// legal move, in enumeration order, and each child is immediately given
    /// a single random playout whose result is propagated up the tree.
    #[verifier::rlimit(100)]
    #[verifier::spinoff_prover]
    pub fn expand(&mut self, i: usize)
        requires
            tree_wf(*old(self)),
            i < old(self).nodes@.len(),
            old(self).total_playouts + 81 <= TOTAL_CAP,
        ensures
            tree_wf(*final(self)),
            old(self).nodes@.len() <= final(self).nodes@.len(),
            final(self).total_playouts <= old(self).total_playouts + 81,
            forall|j: int|
                0 <= j < old(self).nodes@.len() ==> {
                    let a = #[trigger] final(self).nodes@[j];
                    let b = old(self).nodes@[j];
                    a.previous_move == b.previous_move && a.board == b.board
                        && a.shape_to_play_next == b.shape_to_play_next && a.parent == b.parent && (
                    j != i ==> a.children == b.children)
                },
            ({
                let m0 = old(self).nodes@[i as int].board@;
                let lm = legal_seq(m0);
                if outcome(effective_grid(m0)) is NoneYet && lm.len() > 0 {
                    let old_len = old(self).nodes@.len() as int;
                    &&& final(self).nodes@.len() == old_len + lm.len()
                    &&& final(self).nodes@[i as int].children@ == old(self).nodes@[i as int].children@ + Seq::new(
                        lm.len(),
                        |t: int| (old_len + t) as usize,
                    )
                    &&& forall|t: int|
                        0 <= t < lm.len() ==> (#[trigger] final(self).nodes@[old_len + t]).previous_move
                            == Some(lm[t]) && final(self).nodes@[old_len + t].parent == Some(i)
                    &&& forall|t: int|
                        0 <= t < lm.len() ==> (#[trigger] final(self).nodes@[old_len + t]).board@
                            == step_model(
                            m0,
                            lm[t],
                            old(self).nodes@[i as int].shape_to_play_next,
                        ) && final(self).nodes@[old_len + t].shape_to_play_next == old(self).nodes@[i as int].shape_to_play_next.spec_other() && final(self).nodes@[old_len + t].playouts == 1 && final(self).nodes@[old_len + t].wins
                            <= 1
                    &&& final(self).total_playouts == old(self).total_playouts + lm.len()
                    &&& forall|j: int|
                        0 <= j < old_len && is_ancestor(old(self).nodes@, i as int, j) ==> (
                        #[trigger] final(self).nodes@[j]).playouts == old(self).nodes@[j].playouts
                            + lm.len()
                    &&& forall|j: int|
                        0 <= j < old_len && !is_ancestor(old(self).nodes@, i as int, j)
                            ==> #[trigger] final(self).nodes@[j] == old(self).nodes@[j]
                } else {
                    final(self).nodes@ == old(self).nodes@ && final(self).total_playouts == old(self).total_playouts
                }
            }),
    {
        let ghost m0 = self.nodes@[i as int].board@;
        let board0 = self.nodes[i].board;
        let shape0 = self.nodes[i].shape_to_play_next;
        proof {
            reveal(shape_ok);
            lemma_view_wf(board0);
            lemma_legal_moves_legal(m0);
            lemma_legal_len(m0);
        }
        let legal = board0.legal_moves();
        let mut check = board0;
        let w = check.get_winner();
        let undecided = match w {
            Err(WinnerError::NoWinnerYet) => true,
            _ => false,
        };
        if !undecided || legal.len() == 0 {
            return ;
        }

        let ghost ns_start = self.nodes@;
        let ghost total_start = self.total_playouts;
        let ghost old_len = self.nodes@.len() as int;
        let n = legal.len();
        for t in 0..n
            invariant
                tree_wf(*self),
                i < old_len,
                old_len == ns_start.len(),
                n == legal@.len() <= 81,
                legal@ == legal_seq(m0),
                self.nodes@.len() == old_len + t,
                self.total_playouts == total_start + t,
                total_start + 81 <= TOTAL_CAP,
                next_ok(board0@),
                m0 == board0@,
                forall|j: int|
                    0 <= j < old_len ==> {
                        let a = #[trigger] self.nodes@[j];
                        let b = ns_start[j];
                        a.previous_move == b.previous_move && a.board == b.board
                            && a.shape_to_play_next == b.shape_to_play_next && a.parent == b.parent
                            && (j != i ==> a.children == b.children)
                    },
                self.nodes@[i as int].children@ == ns_start[i as int].children@ + Seq::new(
                    t as nat,
                    |u: int| (old_len + u) as usize,
                ),
                forall|u: int|
                    0 <= u < t ==> (#[trigger] self.nodes@[old_len + u]).previous_move == Some(
                        legal@[u],
                    ) && self.nodes@[old_len + u].parent == Some(i),
                forall|u: int|
                    0 <= u < t ==> (#[trigger] self.nodes@[old_len + u]).board@ == step_model(
                        m0,
                        legal@[u],
                        shape0,
                    ) && self.nodes@[old_len + u].shape_to_play_next == shape0.spec_other()
                        && self.nodes@[old_len + u].playouts == 1 && self.nodes@[old_len + u].wins
                        <= 1,
                forall|j: int|
                    0 <= j < old_len && is_ancestor(ns_start, i as int, j) ==> (
                    #[trigger] self.nodes@[j]).playouts == ns_start[j].playouts + t,
                forall|j: int|
                    0 <= j < old_len && !is_ancestor(ns_start, i as int, j)
                        ==> #[trigger] self.nodes@[j] == ns_start[j],
                shape0 == ns_start[i as int].shape_to_play_next,
            decreases n - t,
        {
            let mv = legal[t];
            proof {
                lemma_legal_moves_legal(m0);
                assert(legal_seq(m0).contains(legal@[t as int])) by {
                    assert(legal_seq(m0)[t as int] == legal@[t as int]);
                }
            }
            let ghost ns_pre = self.nodes@;
            self.add_child(i, mv, shape0, &board0);
            proof {
                assert forall|k: int|
                    0 <= k <= i implies (#[trigger] ns_pre[k]).parent == ns_start[k].parent by {}
                assert forall|j: int|
                    0 <= j < old_len implies is_ancestor(ns_pre, i as int, j) == is_ancestor(
                    ns_start,
                    i as int,
                    j,
                ) by {
                    lemma_ancestor_congruence(ns_pre, ns_start, i as int, j);
                }
                assert forall|u: int|
                    0 <= u < t implies !#[trigger] is_ancestor(ns_pre, i as int, old_len + u) by {
                    if is_ancestor(ns_pre, i as int, old_len + u) {
                        lemma_ancestor_le(ns_pre, i as int, old_len + u);
                    }
                }
            }
            proof {
                assert(self.nodes@[i as int].children@ =~= ns_start[i as int].children@ + Seq::new(
                    (t + 1) as nat,
                    |u: int| (old_len + u) as usize,
                ));
            }
        }
        proof {
            assert(self.nodes@[i as int].children@ =~= ns_start[i as int].children@ + Seq::new(
                legal_seq(m0).len(),
                |u: int| (old_len + u) as usize,
            ));
        }
    }
}

} // verus!

verus! {

impl GlobalBoard {
    /// Run Monte Carlo tree search from this board and return the move of
    /// the root child with the most playouts (the robust-child policy), or
    /// `None` when there is no legal move or the game is already decided.
    #[verifier::rlimit(100)]
    #[verifier::spinoff_prover]
    fn do_mcts(&self, iterations: u16) -> (r: Option<GlobalCoord>)
        requires
            next_ok(self@),
        ensures
            r is Some <==> (legal_seq(self@).len() > 0 && outcome(effective_grid(self@)) is NoneYet),
            r matches Some(c) ==> legal_seq(self@).contains(c),
    {
        let ghost m = self@;
        let legal = self.legal_moves();
        if legal.len() == 0 {
            return None;
        }
        proof {
            lemma_legal_len(m);
        }
        let ghost l = legal@.len();
        let ghost und = outcome(effective_grid(m)) is NoneYet;

        let mut tree = GameTree::make_root(self, self.engine_shape());
        tree.expand(0);
        let mut next = tree.select_node(0);
        let mut it: u16 = 1;
        while it < iterations
            invariant
                tree_wf(tree),
                next < tree.nodes@.len(),
                tree.nodes@[next as int].children@.len() == 0,
                1 <= it,
                tree.total_playouts <= 81 * (it as int),
                l == legal@.len(),
                legal@ == legal_seq(m),
                0 < l <= 81,
                und == (outcome(effective_grid(m)) is NoneYet),
                tree.nodes@[0].board@ == m,
                if und {
                    &&& tree.nodes@.len() >= 1 + l
                    &&& tree.nodes@[0].children@ == Seq::new(l, |t: int| (1 + t) as usize)
                    &&& forall|t: int|
                        0 <= t < l ==> (#[trigger] tree.nodes@[1 + t]).previous_move == Some(
                            legal@[t],
                        )
                } else {
                    tree.nodes@[0].children@.len() == 0
                },
            decreases iterations - it,
        {
            proof {
                assert(tree.total_playouts + 81 <= TOTAL_CAP);
            }
            tree.expand(next);
            proof {
                if und && next == 0 {
                    assert(tree.nodes@[0].children@.len() == l);
                }
            }
            next = tree.select_node(0);
            it = it + 1;
        }
        let ghost ns = tree.nodes@;
        match tree.best_child_by_playouts(0) {
            None => {
                proof {
                    if und {
                        assert(ns[0].children@.len() == l);
                    }
                }
                None
            },
            Some(bc) => {
                proof {
                    reveal(shape_ok);
                    if !und {
                        assert(ns[0].children@.len() == 0);
                    }
                    let ch = ns[0].children@;
                    let t0 = choose|t0: int| 0 <= t0 < ch.len() && ch[t0] == bc;
                    assert(ch[t0] == (1 + t0) as usize);
                    assert(tree.nodes@[bc as int].previous_move == Some(legal@[t0]));
                    assert(legal_seq(m).contains(legal@[t0])) by {
                        assert(legal_seq(m)[t0] == legal@[t0]);
                    }
                }
                let r = tree.nodes[bc].previous_move;
                r
            },
        }
    }

    /// Return the AI-chosen move, or `None` when there is no legal move or
    /// the game is already decided.
    ///
    /// Every legal move is first checked for an immediate win for the
    /// engine; the first such move is played without any search.  Otherwise
    /// the move is found by Monte Carlo tree search with the given iteration
    /// budget.
    #[verifier::rlimit(100)]
    #[verifier::spinoff_prover]
    pub fn generate_ai_move(&self, max_mcts_iterations: u16) -> (r: Option<GlobalCoord>)
        requires
            next_ok(self@),
        ensures
            match first_win_move(self@, legal_seq(self@)) {
                Some(c) => r == Some(c),
                None => (r is Some <==> (legal_seq(self@).len() > 0 && outcome(
                    effective_grid(self@),
                ) is NoneYet)) && (r matches Some(c2) ==> legal_seq(self@).contains(c2)),
            },
    {
        let ghost m = self@;
        let legal = self.legal_moves();
        let ai = self.engine_shape();
        proof {
            lemma_legal_moves_legal(m);
        }
        let n = legal.len();
        proof {
            assert(legal@.skip(0) =~= legal@);
        }
        let mut t: usize = 0;
        while t < n
            invariant
                m == self@,
                ai == m.ai,
                next_ok(m),
                legal@ == legal_seq(m),
                n == legal@.len(),
                t <= n,
                first_win_move(m, legal@) == first_win_move(m, legal@.skip(t as int)),
            decreases n - t,
        {
            let mv = legal[t];
            proof {
                lemma_legal_moves_legal(m);
                assert(legal_seq(m).contains(legal@[t as int])) by {
                    assert(legal_seq(m)[t as int] == legal@[t as int]);
                }
            }
            let mut board = *self;
            let _ = board.make_move(mv, ai);
            let w = board.get_winner();
            let ghost sk = legal@.skip(t as int);
            proof {
                assert(sk.len() > 0 && sk[0] == legal@[t as int]);
            }
            match w {
                Ok((s, _)) => {
                    if s == ai {
                        proof {
                            assert(immediate_win(m, mv));
                            assert(first_win_move(m, sk) == Some(mv));
                        }
                        return Some(mv);
                    }
                },
                Err(_) => {},
            }
            proof {
                assert(!immediate_win(m, mv));
                assert(sk.drop_first() =~= legal@.skip(t as int + 1));
            }
            t = t + 1;
        }
        proof {
            assert(legal@.skip(n as int) =~= Seq::empty());
            assert(first_win_move(m, legal@) is None);
        }
        self.do_mcts(max_mcts_iterations)
    }
}

} // verus!
