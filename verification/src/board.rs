//! The board: a 3x3 grid of tiles with one blank, a cached Manhattan-distance
//! cost, and in-place sliding moves.

use vstd::prelude::*;

verus! {

use vstd::string::StringExecFns;

/// Side length of the square grid.
pub const SIZE: usize = 3;

/// Largest row or column index.
pub const LIMIT: usize = SIZE - 1;

/// Number of cells in the grid.
pub const MAX: usize = SIZE * SIZE;

/// One cell of the grid: the blank, or a numbered tile.
#[derive(Clone, Copy, Debug, PartialEq, Eq, Structural)]
pub enum Tile {
    Empty,
    Number(u8),
}

/// A direction the blank can move in.
#[derive(Clone, Copy, Debug, PartialEq, Eq, Structural)]
pub enum Direction {
    Up,
    Down,
    Left,
    Right,
}

/// The grid representation: three rows of three tiles.
pub type Grid = [[Tile; 3]; 3];

/// The numeric value a cell contributes to costs and fingerprints:
/// 0 for the blank, the tile's number otherwise.
pub open spec fn tile_val(t: Tile) -> int {
    match t {
        Tile::Empty => 0,
        Tile::Number(n) => n as int,
    }
}

/// The value of the cell with row-major index `i` (0 to 8).
pub open spec fn gval(g: Grid, i: int) -> int {
    tile_val(g[i / 3][i % 3])
}

/// The goal row of a value: tiles go to row (v-1)/3, the blank to the last row.
pub open spec fn goal_row(v: int) -> int {
    if v == 0 {
        2
    } else {
        (v - 1) / 3
    }
}

/// The goal column of a value: tiles go to column (v-1)%3, the blank to the
/// last column.
pub open spec fn goal_col(v: int) -> int {
    if v == 0 {
        2
    } else {
        (v - 1) % 3
    }
}

pub open spec fn abs_int(a: int, b: int) -> int {
    if a >= b {
        a - b
    } else {
        b - a
    }
}

/// Manhattan distance from the cell with row-major index `i` to the goal
/// position of the value it holds.
pub open spec fn cell_cost(g: Grid, i: int) -> int {
    abs_int(i / 3, goal_row(gval(g, i))) + abs_int(i % 3, goal_col(gval(g, i)))
}

/// Sum of the Manhattan distances of the first `k` cells in row-major order.
pub open spec fn cost_upto(g: Grid, k: int) -> int
    decreases k,
{
    if k <= 0 {
        0
    } else {
        cost_upto(g, k - 1) + cell_cost(g, k - 1)
    }
}

/// The heuristic cost of a grid: the sum of every cell's Manhattan distance
/// to its goal position.
pub open spec fn grid_cost(g: Grid) -> int {
    cost_upto(g, 9)
}

/// Every numbered tile carries a number from 1 to 8.
pub open spec fn tiles_ok(g: Grid) -> bool {
    forall|r: int, c: int|
        0 <= r < 3 && 0 <= c < 3 ==> (#[trigger] g[r][c] matches Tile::Number(n) ==> 1 <= n <= 8)
}

/// The multiset of cell values is exactly {0, 1, ..., 8}: every value is in
/// range and no two cells repeat one.
pub open spec fn grid_wf(g: Grid) -> bool {
    &&& tiles_ok(g)
    &&& forall|i: int, j: int| 0 <= i < j < 9 ==> gval(g, i) != gval(g, j)
}

/// The solved configuration: cell `i` holds value `i + 1`, except the last,
/// which holds the blank.
pub open spec fn grid_solved(g: Grid) -> bool {
    forall|i: int|
        0 <= i < 9 ==> #[trigger] gval(g, i) == (if i == 8 {
            0int
        } else {
            i + 1
        })
}

/// Base-16 packing of the first `k` cell values in row-major order.
pub open spec fn uniq_upto(g: Grid, k: int) -> int
    decreases k,
{
    if k <= 0 {
        0
    } else {
        uniq_upto(g, k - 1) * 16 + gval(g, k - 1)
    }
}

/// The canonical fingerprint of a grid: each cell value packed as one base-16
/// digit, in row-major order.
pub open spec fn grid_uniq(g: Grid) -> int {
    uniq_upto(g, 9)
}

/// The fingerprint of a grid as the 64-bit word `uniq` returns; the packed
/// value always fits, since nine base-16 digits span only 36 bits.
pub open spec fn grid_fp(g: Grid) -> u64 {
    grid_uniq(g) as u64
}

/// A board: the grid, the position of the blank, and the cached heuristic
/// cost, kept equal to `grid_cost` by every mutation.
#[derive(Clone, Copy, Debug, PartialEq, Eq)]
pub struct Puzzle {
    pub grid: Grid,
    pub empty_pos: (usize, usize),
    pub cost: usize,
}

impl Puzzle {
    /// The board invariant: the grid holds each value exactly once, the
    /// recorded blank position is in bounds and really holds the blank, and
    /// the cached cost equals the recomputed heuristic.
    pub open spec fn wf(self) -> bool {
        &&& grid_wf(self.grid)
        &&& self.empty_pos.0 < 3
        &&& self.empty_pos.1 < 3
        &&& self.grid[self.empty_pos.0 as int][self.empty_pos.1 as int] == Tile::Empty
        &&& self.cost == grid_cost(self.grid)
    }

    /// The board is in the solved configuration.
    pub open spec fn solved(self) -> bool {
        grid_solved(self.grid)
    }
}

/// The direction that undoes a move: Up and Down swap, Left and Right swap.
pub open spec fn spec_invert(d: Direction) -> Direction {
    match d {
        Direction::Down => Direction::Up,
        Direction::Left => Direction::Right,
        Direction::Right => Direction::Left,
        Direction::Up => Direction::Down,
    }
}

/// Maps a direction to the one that undoes it.
pub fn invert(d: Direction) -> (r: Direction)
    ensures
        r == spec_invert(d),
        spec_invert(r) == d,
{
    match d {
        Direction::Down => Direction::Up,
        Direction::Left => Direction::Right,
        Direction::Right => Direction::Left,
        Direction::Up => Direction::Down,
    }
}

/// The goal position of a tile value: value `n` belongs at row (n-1)/3,
/// column (n-1)%3.
pub fn solved_pos(n: usize) -> (r: (usize, usize))
    requires
        1 <= n,
    ensures
        r.0 == goal_row(n as int),
        r.1 == goal_col(n as int),
        n <= 9 ==> r.0 < 3 && r.1 < 3,
{
    ((n - 1) / SIZE, (n - 1) % SIZE)
}

/// Row-major flattening: an index 0..9 splits into a row `i / 3` and a
/// column `i % 3`, both in bounds.
pub proof fn lemma_flat_index(i: int)
    requires
        0 <= i < 9,
    ensures
        0 <= i / 3 < 3,
        0 <= i % 3 < 3,
        3 * (i / 3) + i % 3 == i,
{
    vstd::arithmetic::div_mod::lemma_fundamental_div_mod(i, 3);
}

/// Row-major flattening, the other way: row `r`, column `c` flatten to
/// `3 * r + c`, and splitting that recovers them.
pub proof fn lemma_unflat_index(r: int, c: int)
    requires
        0 <= r < 3,
        0 <= c < 3,
    ensures
        (3 * r + c) / 3 == r,
        (3 * r + c) % 3 == c,
{
    vstd::arithmetic::div_mod::lemma_fundamental_div_mod_converse(3 * r + c, 3, r, c);
}

/// Each cell's Manhattan term is between 0 and 4 when the grid holds only
/// values 0 through 8, so the partial sums are between 0 and 4 per cell.
pub proof fn lemma_cost_upto_bounds(g: Grid, k: int)
    requires
        tiles_ok(g),
        0 <= k <= 9,
    ensures
        0 <= cost_upto(g, k) <= 4 * k,
    decreases k,
{
    if k > 0 {
        lemma_cost_upto_bounds(g, k - 1);
        lemma_flat_index(k - 1);
        assert(g[(k - 1) / 3][(k - 1) % 3] matches Tile::Number(n) ==> 1 <= n <= 8);
    }
}

/// A solved grid has heuristic cost zero: every tile sits on its goal cell.
pub proof fn lemma_solved_cost_upto(g: Grid, k: int)
    requires
        grid_solved(g),
        0 <= k <= 9,
    ensures
        cost_upto(g, k) == 0,
    decreases k,
{
    if k > 0 {
        lemma_solved_cost_upto(g, k - 1);
        let i = k - 1;
        lemma_flat_index(i);
        assert(gval(g, i) == (if i == 8 { 0int } else { i + 1 }));
        if i == 8 {
            assert(cell_cost(g, i) == 0);
        } else {
            lemma_unflat_index(i / 3, i % 3);
            assert(goal_row(i + 1) == i / 3);
            assert(goal_col(i + 1) == i % 3);
        }
    }
}

/// A grid with heuristic cost zero is solved: each Manhattan term is
/// nonnegative, so all of them are zero, which pins every value to its
/// goal cell.
pub proof fn lemma_zero_cost_solved(g: Grid, k: int)
    requires
        tiles_ok(g),
        0 <= k <= 9,
        cost_upto(g, k) == 0,
    ensures
        forall|i: int| 0 <= i < k ==> #[trigger] gval(g, i) == (if i == 8 {
            0int
        } else {
            i + 1
        }),
    decreases k,
{
    if k > 0 {
        let i = k - 1;
        lemma_cost_upto_bounds(g, i);
        lemma_flat_index(i);
        assert(cell_cost(g, i) >= 0);
        lemma_zero_cost_solved(g, i);
        assert(cell_cost(g, i) == 0);
        let v = gval(g, i);
        if v == 0 {
            assert(i / 3 == 2 && i % 3 == 2);
            assert(i == 8);
        } else {
            assert((v - 1) / 3 == i / 3 && (v - 1) % 3 == i % 3);
            vstd::arithmetic::div_mod::lemma_fundamental_div_mod(v - 1, 3);
            assert(v - 1 == i);
        }
    }
}

/// The heuristic cost is zero exactly on the solved grid.
pub proof fn lemma_cost_zero_iff_solved(g: Grid)
    requires
        tiles_ok(g),
    ensures
        grid_cost(g) == 0 <==> grid_solved(g),
{
    if grid_cost(g) == 0 {
        lemma_zero_cost_solved(g, 9);
    }
    if grid_solved(g) {
        lemma_solved_cost_upto(g, 9);
    }
}

/// Powers of 16, the base the fingerprint packs its digits in.
pub open spec fn pow16(k: int) -> int
    decreases k,
{
    if k <= 0 {
        1
    } else {
        16 * pow16(k - 1)
    }
}

pub proof fn lemma_pow16_mono(a: int, b: int)
    requires
        0 <= a <= b,
    ensures
        pow16(a) <= pow16(b),
    decreases b - a,
{
    if a < b {
        lemma_pow16_mono(a, b - 1);
        lemma_pow16_nonneg(b - 1);
    }
}

pub proof fn lemma_pow16_nonneg(k: int)
    ensures
        pow16(k) >= 1,
    decreases k,
{
    if k > 0 {
        lemma_pow16_nonneg(k - 1);
    }
}

pub proof fn lemma_pow16_values()
    ensures
        pow16(8) == 0x100000000,
        pow16(9) == 0x1000000000,
{
    assert(pow16(0) == 1);
    assert(pow16(1) == 16);
    assert(pow16(2) == 0x100);
    assert(pow16(3) == 0x1000);
    assert(pow16(4) == 0x10000);
    assert(pow16(5) == 0x100000);
    assert(pow16(6) == 0x1000000);
    assert(pow16(7) == 0x10000000);
    assert(pow16(8) == 0x100000000);
    assert(pow16(9) == 0x1000000000);
}

/// The partial fingerprint of `k` cells stays below 16^k: each cell
/// contributes one base-16 digit.
pub proof fn lemma_uniq_upto_bounds(g: Grid, k: int)
    requires
        tiles_ok(g),
        0 <= k <= 9,
    ensures
        0 <= uniq_upto(g, k) < pow16(k),
    decreases k,
{
    if k > 0 {
        lemma_uniq_upto_bounds(g, k - 1);
        lemma_flat_index(k - 1);
        assert(g[(k - 1) / 3][(k - 1) % 3] matches Tile::Number(n) ==> 1 <= n <= 8);
        assert(0 <= gval(g, k - 1) < 16);
    }
}

/// The grid with the cell at row `r`, column `c` replaced by `t`.
pub open spec fn set_cell(g: Grid, r: int, c: int, t: Tile) -> Grid {
    vstd::array::spec_array_update(g, r, vstd::array::spec_array_update(g[r], c, t))
}

/// Two grids with equal cells are equal.
pub proof fn lemma_grid_ext(g1: Grid, g2: Grid)
    requires
        forall|r: int, c: int| 0 <= r < 3 && 0 <= c < 3 ==> #[trigger] g1[r][c] == #[trigger] g2[r][c],
    ensures
        g1 == g2,
{
    assert forall|r: int| 0 <= r < 3 implies g1@[r] == g2@[r] by {
        assert(g1@[r]@ =~= g2@[r]@);
    }
    assert(g1@ =~= g2@);
}

/// The position the blank would move to: one step from `empty_pos` in the
/// given direction.
pub open spec fn spec_target(p: Puzzle, d: Direction) -> (int, int) {
    let r = p.empty_pos.0 as int;
    let c = p.empty_pos.1 as int;
    match d {
        Direction::Up => (r - 1, c),
        Direction::Down => (r + 1, c),
        Direction::Left => (r, c - 1),
        Direction::Right => (r, c + 1),
    }
}

/// A slide is legal exactly when it does not push the blank off the grid.
pub open spec fn spec_slide_legal(p: Puzzle, d: Direction) -> bool {
    match d {
        Direction::Up => p.empty_pos.0 > 0,
        Direction::Down => p.empty_pos.0 + 1 < 3,
        Direction::Left => p.empty_pos.1 > 0,
        Direction::Right => p.empty_pos.1 + 1 < 3,
    }
}

/// The board after a legal slide: the blank and the neighbouring tile swap,
/// the blank position follows, and the cost is recomputed from the new grid.
pub open spec fn spec_slide(p: Puzzle, d: Direction) -> Puzzle {
    let er = p.empty_pos.0 as int;
    let ec = p.empty_pos.1 as int;
    let t = spec_target(p, d);
    let moved = p.grid[t.0][t.1];
    let g2 = set_cell(set_cell(p.grid, er, ec, moved), t.0, t.1, Tile::Empty);
    (Puzzle { grid: g2, empty_pos: (t.0 as usize, t.1 as usize), cost: grid_cost(g2) as usize })
}

/// Cell-level reading of `set_cell`: the named cell holds the new tile and
/// every other cell is unchanged.
pub proof fn lemma_set_cell(g: Grid, r: int, c: int, t: Tile)
    requires
        0 <= r < 3,
        0 <= c < 3,
    ensures
        forall|rr: int, cc: int|
            0 <= rr < 3 && 0 <= cc < 3 ==> #[trigger] set_cell(g, r, c, t)[rr][cc] == (if rr == r
                && cc == c {
                t
            } else {
                g[rr][cc]
            }),
{
    let row2 = vstd::array::spec_array_update(g[r], c, t);
    assert(row2@ == g[r]@.update(c, t));
    assert(vstd::array::spec_array_update(g, r, row2)@ == g@.update(r, row2));
}

/// Swapping two cells keeps the grid well formed: the values are merely
/// permuted, so they stay in range and pairwise distinct.
pub proof fn lemma_swap_preserves_wf(g: Grid, g2: Grid, ar: int, ac: int, br: int, bc: int)
    requires
        grid_wf(g),
        0 <= ar < 3,
        0 <= ac < 3,
        0 <= br < 3,
        0 <= bc < 3,
        forall|r: int, c: int|
            0 <= r < 3 && 0 <= c < 3 ==> #[trigger] g2[r][c] == (if r == ar && c == ac {
                g[br][bc]
            } else if r == br && c == bc {
                g[ar][ac]
            } else {
                g[r][c]
            }),
    ensures
        grid_wf(g2),
{
    let fa = 3 * ar + ac;
    let fb = 3 * br + bc;
    lemma_unflat_index(ar, ac);
    lemma_unflat_index(br, bc);
    assert forall|i: int| 0 <= i < 9 implies #[trigger] gval(g2, i) == gval(
        g,
        if i == fa {
            fb
        } else if i == fb {
            fa
        } else {
            i
        },
    ) by {
        lemma_flat_index(i);
    }
    assert forall|i: int, j: int| 0 <= i < 9 && 0 <= j < 9 && i != j implies gval(g, i) != gval(
        g,
        j,
    ) by {
        if i < j {
            assert(gval(g, i) != gval(g, j));
        } else {
            assert(gval(g, j) != gval(g, i));
        }
    }
    assert forall|r: int, c: int| 0 <= r < 3 && 0 <= c < 3 implies (#[trigger] g2[r][c] matches
        Tile::Number(n) ==> 1 <= n <= 8) by {
        assert(g[br][bc] matches Tile::Number(n) ==> 1 <= n <= 8);
        assert(g[ar][ac] matches Tile::Number(n) ==> 1 <= n <= 8);
        assert(g[r][c] matches Tile::Number(n) ==> 1 <= n <= 8);
    }
}

/// What one legal slide does, cell by cell: the target tile moves onto the
/// old blank cell, the target cell becomes the blank, nothing else changes;
/// the result is again a well-formed board.
pub proof fn lemma_slide_wf(p: Puzzle, d: Direction)
    requires
        p.wf(),
        spec_slide_legal(p, d),
    ensures
        spec_slide(p, d).wf(),
        spec_slide(p, d).empty_pos.0 as int == spec_target(p, d).0,
        spec_slide(p, d).empty_pos.1 as int == spec_target(p, d).1,
        spec_slide(p, d).cost == grid_cost(spec_slide(p, d).grid),
        forall|r: int, c: int|
            0 <= r < 3 && 0 <= c < 3 ==> #[trigger] spec_slide(p, d).grid[r][c] == (if r
                == spec_target(p, d).0 && c == spec_target(p, d).1 {
                Tile::Empty
            } else if r == p.empty_pos.0 as int && c == p.empty_pos.1 as int {
                p.grid[spec_target(p, d).0][spec_target(p, d).1]
            } else {
                p.grid[r][c]
            }),
{
    let er = p.empty_pos.0 as int;
    let ec = p.empty_pos.1 as int;
    let t = spec_target(p, d);
    let moved = p.grid[t.0][t.1];
    let g1 = set_cell(p.grid, er, ec, moved);
    let g2 = set_cell(g1, t.0, t.1, Tile::Empty);
    lemma_set_cell(p.grid, er, ec, moved);
    lemma_set_cell(g1, t.0, t.1, Tile::Empty);
    assert(p.grid[er][ec] == Tile::Empty);
    lemma_swap_preserves_wf(p.grid, g2, t.0, t.1, er, ec);
    lemma_cost_upto_bounds(g2, 9);
    assert(grid_cost(g2) as usize == grid_cost(g2));
}

/// Round-trip law: a legal slide followed by the slide in the opposite
/// direction restores the board exactly — grid, blank position and cached
/// cost alike.
pub proof fn lemma_slide_roundtrip(p: Puzzle, d: Direction)
    requires
        p.wf(),
        spec_slide_legal(p, d),
    ensures
        spec_slide(p, d).wf(),
        spec_slide_legal(spec_slide(p, d), spec_invert(d)),
        spec_slide(spec_slide(p, d), spec_invert(d)) == p,
{
    let q = spec_slide(p, d);
    let di = spec_invert(d);
    lemma_slide_wf(p, d);
    assert(spec_slide_legal(q, di));
    lemma_slide_wf(q, di);
    let b = spec_slide(q, di);
    assert(spec_target(q, di).0 == p.empty_pos.0 as int);
    assert(spec_target(q, di).1 == p.empty_pos.1 as int);
    assert forall|r: int, c: int| 0 <= r < 3 && 0 <= c < 3 implies #[trigger] b.grid[r][c]
        == #[trigger] p.grid[r][c] by {}
    lemma_grid_ext(b.grid, p.grid);
    assert(b.cost == p.cost);
    assert(b.empty_pos == p.empty_pos);
    assert(b == p);
}

/// Injectivity of the base-16 packing: equal partial fingerprints of grids
/// whose cells are single digits force the cells themselves to be equal.
pub proof fn lemma_uniq_upto_inj(g1: Grid, g2: Grid, k: int)
    requires
        tiles_ok(g1),
        tiles_ok(g2),
        0 <= k <= 9,
        uniq_upto(g1, k) == uniq_upto(g2, k),
    ensures
        forall|i: int| 0 <= i < k ==> gval(g1, i) == gval(g2, i),
    decreases k,
{
    if k > 0 {
        let a = uniq_upto(g1, k - 1);
        let b = gval(g1, k - 1);
        let c = uniq_upto(g2, k - 1);
        let e = gval(g2, k - 1);
        lemma_flat_index(k - 1);
        assert(g1[(k - 1) / 3][(k - 1) % 3] matches Tile::Number(n) ==> 1 <= n <= 8);
        assert(g2[(k - 1) / 3][(k - 1) % 3] matches Tile::Number(n) ==> 1 <= n <= 8);
        assert(0 <= b < 16 && 0 <= e < 16);
        assert(a * 16 + b == c * 16 + e);
        assert(a == c);
        lemma_uniq_upto_inj(g1, g2, k - 1);
    }
}

/// The fingerprint is injective over well-formed boards: two boards that
/// satisfy the invariant and share a fingerprint are the same board.
pub proof fn lemma_uniq_injective(p1: Puzzle, p2: Puzzle)
    requires
        p1.wf(),
        p2.wf(),
        grid_uniq(p1.grid) == grid_uniq(p2.grid),
    ensures
        p1 == p2,
{
    lemma_uniq_upto_inj(p1.grid, p2.grid, 9);
    assert forall|r: int, c: int| 0 <= r < 3 && 0 <= c < 3 implies #[trigger] p1.grid[r][c]
        == #[trigger] p2.grid[r][c] by {
        lemma_unflat_index(r, c);
        assert(gval(p1.grid, 3 * r + c) == gval(p2.grid, 3 * r + c));
        assert(p1.grid[r][c] matches Tile::Number(n) ==> 1 <= n <= 8);
        assert(p2.grid[r][c] matches Tile::Number(n) ==> 1 <= n <= 8);
    }
    lemma_grid_ext(p1.grid, p2.grid);
    let g = p1.grid;
    let f1 = 3 * (p1.empty_pos.0 as int) + p1.empty_pos.1 as int;
    let f2 = 3 * (p2.empty_pos.0 as int) + p2.empty_pos.1 as int;
    lemma_unflat_index(p1.empty_pos.0 as int, p1.empty_pos.1 as int);
    lemma_unflat_index(p2.empty_pos.0 as int, p2.empty_pos.1 as int);
    assert(gval(g, f1) == 0);
    assert(gval(g, f2) == 0);
    if f1 != f2 {
        if f1 < f2 {
            assert(gval(g, f1) != gval(g, f2));
        } else {
            assert(gval(g, f2) != gval(g, f1));
        }
        assert(false);
    }
    assert(p1.empty_pos == p2.empty_pos);
    assert(p1 == p2);
}

/// Changing two cells changes the cost sum by exactly those two cells'
/// changed Manhattan terms.
proof fn lemma_cost_swap_delta(g: Grid, g2: Grid, fa: int, fb: int, k: int)
    requires
        0 <= fa < 9,
        0 <= fb < 9,
        fa != fb,
        0 <= k <= 9,
        forall|i: int| 0 <= i < 9 && i != fa && i != fb ==> #[trigger] gval(g2, i) == gval(g, i),
    ensures
        cost_upto(g2, k) - cost_upto(g, k) == (if fa < k {
            cell_cost(g2, fa) - cell_cost(g, fa)
        } else {
            0
        }) + (if fb < k {
            cell_cost(g2, fb) - cell_cost(g, fb)
        } else {
            0
        }),
    decreases k,
{
    if k > 0 {
        lemma_cost_swap_delta(g, g2, fa, fb, k - 1);
        if k - 1 != fa && k - 1 != fb {
            assert(gval(g2, k - 1) == gval(g, k - 1));
            assert(cell_cost(g2, k - 1) == cell_cost(g, k - 1));
        }
    }
}

/// The heuristic's responsiveness: one slide moves one tile one step and
/// the blank one step back, so the cost changes by exactly 0, +2 or -2 —
/// in particular it never drops by more than 2.
pub proof fn lemma_slide_cost_delta(p: Puzzle, d: Direction)
    requires
        p.wf(),
        spec_slide_legal(p, d),
    ensures
        spec_slide(p, d).cost - p.cost == 2 || spec_slide(p, d).cost - p.cost == -2
            || spec_slide(p, d).cost == p.cost,
{
    let er = p.empty_pos.0 as int;
    let ec = p.empty_pos.1 as int;
    let t = spec_target(p, d);
    let fa = 3 * er + ec;
    let fb = 3 * t.0 + t.1;
    let q = spec_slide(p, d);
    lemma_slide_wf(p, d);
    lemma_unflat_index(er, ec);
    lemma_unflat_index(t.0, t.1);
    assert(fa != fb);
    assert forall|i: int| 0 <= i < 9 && i != fa && i != fb implies #[trigger] gval(q.grid, i)
        == gval(p.grid, i) by {
        lemma_flat_index(i);
    }
    lemma_cost_swap_delta(p.grid, q.grid, fa, fb, 9);
    let v = gval(p.grid, fb);
    assert(gval(q.grid, fa) == v);
    assert(gval(q.grid, fb) == 0);
    assert(gval(p.grid, fa) == 0);
    // the moved tile keeps its goal; its one-step move shifts its term by one
    let dtile = cell_cost(q.grid, fa) - cell_cost(p.grid, fb);
    // the blank moves the opposite step; its term also shifts by one
    let dblank = cell_cost(q.grid, fb) - cell_cost(p.grid, fa);
    assert(dtile == 1 || dtile == -1);
    assert(dblank == 1 || dblank == -1);
    assert(grid_cost(q.grid) - grid_cost(p.grid) == dtile + dblank);
    assert(q.cost == grid_cost(q.grid));
    assert(p.cost == grid_cost(p.grid));
}

/// A legal slide always changes the fingerprint: the blank moves, and by
/// injectivity two distinct well-formed boards cannot share one.
pub proof fn lemma_slide_changes(p: Puzzle, d: Direction)
    requires
        p.wf(),
        spec_slide_legal(p, d),
    ensures
        grid_uniq(spec_slide(p, d).grid) != grid_uniq(p.grid),
{
    let q = spec_slide(p, d);
    lemma_slide_wf(p, d);
    if grid_uniq(q.grid) == grid_uniq(p.grid) {
        lemma_uniq_injective(p, q);
        let er = p.empty_pos.0 as int;
        let ec = p.empty_pos.1 as int;
        let t = spec_target(p, d);
        let fe = 3 * er + ec;
        let ft = 3 * t.0 + t.1;
        lemma_unflat_index(er, ec);
        lemma_unflat_index(t.0, t.1);
        assert(gval(p.grid, fe) == 0);
        assert(q.grid[er][ec] == p.grid[t.0][t.1]);
        assert(fe != ft);
        if fe < ft {
            assert(gval(p.grid, fe) != gval(p.grid, ft));
        } else {
            assert(gval(p.grid, ft) != gval(p.grid, fe));
        }
        assert(gval(p.grid, ft) != 0);
        assert(gval(q.grid, fe) == gval(p.grid, ft));
        assert(gval(q.grid, fe) == gval(p.grid, fe));
        assert(false);
    }
}

/// The move sequence that undoes `dirs`: each direction inverted, in
/// reverse order.
pub open spec fn invert_path(dirs: Seq<Direction>) -> Seq<Direction>
    decreases dirs.len(),
{
    if dirs.len() == 0 {
        Seq::empty()
    } else {
        invert_path(dirs.drop_first()).push(spec_invert(dirs[0]))
    }
}

/// Move sequences are reversible: after a legal sequence of slides, the
/// inverted sequence in reverse order is itself legal and restores the
/// starting board exactly. In particular every board reached from the
/// solved configuration can be driven back to it.
pub proof fn lemma_moves_reversible(b: Puzzle, dirs: Seq<Direction>)
    requires
        b.wf(),
        can_apply(b, dirs),
    ensures
        apply_dirs(b, dirs).wf(),
        can_apply(apply_dirs(b, dirs), invert_path(dirs)),
        apply_dirs(apply_dirs(b, dirs), invert_path(dirs)) == b,
    decreases dirs.len(),
{
    if dirs.len() > 0 {
        let d = dirs[0];
        let b1 = spec_slide(b, d);
        lemma_slide_roundtrip(b, d);
        lemma_moves_reversible(b1, dirs.drop_first());
        let end = apply_dirs(b, dirs);
        assert(end == apply_dirs(b1, dirs.drop_first()));
        let back = invert_path(dirs.drop_first());
        lemma_apply_push(end, back, spec_invert(d));
        assert(apply_dirs(end, back) == b1);
        assert(spec_slide_legal(b1, spec_invert(d)));
        assert(apply_dirs(end, back.push(spec_invert(d))) == spec_slide(b1, spec_invert(d)));
        assert(invert_path(dirs) == back.push(spec_invert(d)));
    }
}

/// The character a cell value renders as: its digit for 1 through 8, and an
/// underscore for the blank, distinguishable from every tile.
pub open spec fn char_of_val(v: int) -> char {
    if v == 1 {
        '1'
    } else if v == 2 {
        '2'
    } else if v == 3 {
        '3'
    } else if v == 4 {
        '4'
    } else if v == 5 {
        '5'
    } else if v == 6 {
        '6'
    } else if v == 7 {
        '7'
    } else if v == 8 {
        '8'
    } else {
        '_'
    }
}

/// The whitespace after the cell with row-major index `i`: a newline at the
/// end of each row, a space between cells.
pub open spec fn sep_char(i: int) -> char {
    if i % 3 == 2 {
        '\n'
    } else {
        ' '
    }
}

/// The rendering of the first `k` cells in row-major order: each cell's
/// character followed by its separator.
pub open spec fn render_upto(g: Grid, k: int) -> Seq<char>
    decreases k,
{
    if k <= 0 {
        Seq::empty()
    } else {
        render_upto(g, k - 1) + seq![char_of_val(gval(g, k - 1)), sep_char(k - 1)]
    }
}

/// The deterministic textual rendering of a grid: rows top to bottom, cells
/// left to right separated by spaces, one line per row.
pub open spec fn render_spec(g: Grid) -> Seq<char> {
    render_upto(g, 9)
}

/// All the slides in `dirs`, applied in order from `p`, are legal.
pub open spec fn can_apply(p: Puzzle, dirs: Seq<Direction>) -> bool
    decreases dirs.len(),
{
    dirs.len() == 0 || (spec_slide_legal(p, dirs[0]) && can_apply(
        spec_slide(p, dirs[0]),
        dirs.drop_first(),
    ))
}

/// The board reached by applying the slides in `dirs` in order from `p`.
pub open spec fn apply_dirs(p: Puzzle, dirs: Seq<Direction>) -> Puzzle
    decreases dirs.len(),
{
    if dirs.len() == 0 {
        p
    } else {
        apply_dirs(spec_slide(p, dirs[0]), dirs.drop_first())
    }
}

/// Extending a legal move sequence by one move: the extension is legal
/// exactly when the extra move is legal at the reached board, and lands on
/// that board slid once more.
pub proof fn lemma_apply_push(p: Puzzle, dirs: Seq<Direction>, d: Direction)
    requires
        can_apply(p, dirs),
    ensures
        can_apply(p, dirs.push(d)) <==> spec_slide_legal(apply_dirs(p, dirs), d),
        spec_slide_legal(apply_dirs(p, dirs), d) ==> apply_dirs(p, dirs.push(d)) == spec_slide(
            apply_dirs(p, dirs),
            d,
        ),
    decreases dirs.len(),
{
    if dirs.len() == 0 {
        assert(dirs.push(d)[0] == d);
        assert(dirs.push(d).drop_first() =~= Seq::<Direction>::empty());
        assert(apply_dirs(p, dirs) == p);
        if spec_slide_legal(p, d) {
            let q = spec_slide(p, d);
            assert(apply_dirs(q, Seq::<Direction>::empty()) == q);
            assert(can_apply(q, Seq::<Direction>::empty()));
            assert(apply_dirs(p, dirs.push(d)) == q);
        }
    } else {
        assert(dirs.push(d)[0] == dirs[0]);
        assert(dirs.push(d).drop_first() =~= dirs.drop_first().push(d));
        let q = spec_slide(p, dirs[0]);
        lemma_apply_push(q, dirs.drop_first(), d);
        assert(apply_dirs(p, dirs) == apply_dirs(q, dirs.drop_first()));
        assert(can_apply(p, dirs.push(d)) == (spec_slide_legal(p, dirs[0]) && can_apply(
            q,
            dirs.drop_first().push(d),
        )));
        if spec_slide_legal(apply_dirs(p, dirs), d) {
            assert(apply_dirs(p, dirs.push(d)) == apply_dirs(q, dirs.drop_first().push(d)));
        }
    }
}

/// The probe order of the search: Left, Right, Up, Down.
pub open spec fn spec_dir_of(i: int) -> Direction {
    if i == 0 {
        Direction::Left
    } else if i == 1 {
        Direction::Right
    } else if i == 2 {
        Direction::Up
    } else {
        Direction::Down
    }
}

/// The `i`-th direction in the probe order Left, Right, Up, Down.
pub fn dir_of(i: usize) -> (d: Direction)
    ensures
        d == spec_dir_of(i as int),
{
    if i == 0 {
        Direction::Left
    } else if i == 1 {
        Direction::Right
    } else if i == 2 {
        Direction::Up
    } else {
        Direction::Down
    }
}

impl Puzzle {
    /// Recomputes the heuristic from the grid alone: the sum over all cells
    /// of the Manhattan distance between the value's position and its goal.
    pub fn compute_cost(&self) -> (r: usize)
        requires
            tiles_ok(self.grid),
        ensures
            r == grid_cost(self.grid),
    {
        let mut cost: usize = 0;
        for row in 0..SIZE
            invariant
                tiles_ok(self.grid),
                cost == cost_upto(self.grid, 3 * row),
                row <= 3,
        {
            for col in 0..SIZE
                invariant
                    tiles_ok(self.grid),
                    row < 3,
                    col <= 3,
                    cost == cost_upto(self.grid, 3 * row + col),
            {
                proof {
                    lemma_cost_upto_bounds(self.grid, 3 * row + col);
                }
                let actual = self.grid[row][col];
                let (grow, gcol) = match actual {
                    Tile::Number(n) => {
                        proof {
                            assert(self.grid[row as int][col as int] matches Tile::Number(m)
                                ==> 1 <= m <= 8);
                        }
                        solved_pos(n as usize)
                    },
                    Tile::Empty => (LIMIT, LIMIT),
                };
                let rdiff = if row >= grow {
                    row - grow
                } else {
                    grow - row
                };
                let cdiff = if col >= gcol {
                    col - gcol
                } else {
                    gcol - col
                };
                proof {
                    let k = 3 * (row as int) + col as int;
                    lemma_unflat_index(row as int, col as int);
                    assert(gval(self.grid, k) == tile_val(self.grid[row as int][col as int]));
                    assert(rdiff + cdiff == cell_cost(self.grid, k));
                    assert(self.grid[row as int][col as int] matches Tile::Number(m) ==> 1 <= m
                        <= 8);
                    assert(cell_cost(self.grid, k) <= 4);
                }
                cost = cost + rdiff + cdiff;
            }
        }
        cost
    }

    /// Builds the solved board: cell (row, col) holds value row*3+col+1,
    /// except the last cell, which holds the blank; the cost is zero.
    pub fn new() -> (r: Puzzle)
        ensures
            r.wf(),
            r.solved(),
            r.cost == 0,
            r.empty_pos == (2usize, 2usize),
    {
        let mut grid: Grid = [
            [Tile::Empty, Tile::Empty, Tile::Empty],
            [Tile::Empty, Tile::Empty, Tile::Empty],
            [Tile::Empty, Tile::Empty, Tile::Empty],
        ];
        for i in 1..MAX
            invariant
                1 <= i <= 9,
                forall|r: int, c: int|
                    0 <= r < 3 && 0 <= c < 3 ==> #[trigger] grid[r][c] == (if 3 * r + c < i - 1 {
                        Tile::Number((3 * r + c + 1) as u8)
                    } else {
                        Tile::Empty
                    }),
        {
            let (row, col) = solved_pos(i);
            grid[row][col] = Tile::Number(i as u8);
            proof {
                lemma_flat_index(i - 1);
                assert forall|r: int, c: int| 0 <= r < 3 && 0 <= c < 3 implies #[trigger] grid[r][c]
                    == (if 3 * r + c < i {
                    Tile::Number((3 * r + c + 1) as u8)
                } else {
                    Tile::Empty
                }) by {
                    lemma_unflat_index(r, c);
                }
            }
        }
        grid[LIMIT][LIMIT] = Tile::Empty;
        let empty_pos = (LIMIT, LIMIT);
        let cost: usize = 0;
        let r = Puzzle { grid, empty_pos, cost };
        proof {
            assert forall|i: int| 0 <= i < 9 implies #[trigger] gval(r.grid, i) == (if i == 8 {
                0int
            } else {
                i + 1
            }) by {
                lemma_flat_index(i);
            }
            assert(tiles_ok(r.grid));
            assert(grid_solved(r.grid));
            lemma_solved_cost_upto(r.grid, 9);
        }
        r
    }

    /// The canonical fingerprint: each cell's value packed as one base-16
    /// digit in row-major order. Injective over well-formed boards.
    pub fn uniq(&self) -> (r: u64)
        requires
            tiles_ok(self.grid),
        ensures
            r == grid_uniq(self.grid),
    {
        let mut res: u64 = 0;
        for row in 0..SIZE
            invariant
                tiles_ok(self.grid),
                row <= 3,
                res == uniq_upto(self.grid, 3 * row),
        {
            for col in 0..SIZE
                invariant
                    tiles_ok(self.grid),
                    row < 3,
                    col <= 3,
                    res == uniq_upto(self.grid, 3 * row + col),
            {
                let val: u8 = match self.grid[row][col] {
                    Tile::Number(n) => n,
                    Tile::Empty => 0,
                };
                proof {
                    let k = 3 * (row as int) + (col as int);
                    lemma_uniq_upto_bounds(self.grid, k);
                    lemma_pow16_mono(k, 8);
                    lemma_pow16_values();
                    lemma_unflat_index(row as int, col as int);
                    assert(self.grid[row as int][col as int] matches Tile::Number(n) ==> 1 <= n
                        <= 8);
                    assert(val as int == gval(self.grid, k));
                }
                res = res * 16 + (val as u64);
            }
        }
        res
    }

    /// Exchanges the cells at `pt_a` and `pt_b` and recomputes the cached
    /// cost from the new grid. The blank position is untouched.
    pub fn swap(&mut self, pt_a: (usize, usize), pt_b: (usize, usize))
        requires
            pt_a.0 < 3,
            pt_a.1 < 3,
            pt_b.0 < 3,
            pt_b.1 < 3,
            tiles_ok(old(self).grid),
        ensures
            forall|r: int, c: int|
                0 <= r < 3 && 0 <= c < 3 ==> #[trigger] final(self).grid[r][c] == (if r
                    == pt_a.0 as int && c == pt_a.1 as int {
                    old(self).grid[pt_b.0 as int][pt_b.1 as int]
                } else if r == pt_b.0 as int && c == pt_b.1 as int {
                    old(self).grid[pt_a.0 as int][pt_a.1 as int]
                } else {
                    old(self).grid[r][c]
                }),
            final(self).empty_pos == old(self).empty_pos,
            final(self).cost == grid_cost(final(self).grid),
            tiles_ok(final(self).grid),
    {
        let ta = self.grid[pt_a.0][pt_a.1];
        let tb = self.grid[pt_b.0][pt_b.1];
        self.grid[pt_a.0][pt_a.1] = tb;
        self.grid[pt_b.0][pt_b.1] = ta;
        proof {
            assert(tiles_ok(self.grid));
        }
        let cost = self.compute_cost();
        self.cost = cost;
    }

    /// Exchanges the cell at `pt` with the blank and records `pt` as the new
    /// blank position. Always reports success.
    pub fn swap_with_empty(&mut self, pt: (usize, usize)) -> (r: bool)
        requires
            pt.0 < 3,
            pt.1 < 3,
            old(self).empty_pos.0 < 3,
            old(self).empty_pos.1 < 3,
            tiles_ok(old(self).grid),
        ensures
            r == true,
            forall|rr: int, cc: int|
                0 <= rr < 3 && 0 <= cc < 3 ==> #[trigger] final(self).grid[rr][cc] == (if rr
                    == pt.0 as int && cc == pt.1 as int {
                    old(self).grid[old(self).empty_pos.0 as int][old(self).empty_pos.1 as int]
                } else if rr == old(self).empty_pos.0 as int && cc == old(self).empty_pos.1 as int {
                    old(self).grid[pt.0 as int][pt.1 as int]
                } else {
                    old(self).grid[rr][cc]
                }),
            final(self).empty_pos == pt,
            final(self).cost == grid_cost(final(self).grid),
            tiles_ok(final(self).grid),
    {
        let e = self.empty_pos;
        self.swap(pt, e);
        self.empty_pos = pt;
        true
    }

    /// Attempts to move the blank one step in `direction`. Returns whether
    /// the move was legal; on success the blank and the neighbouring tile
    /// have swapped in place and the cost has been recomputed, otherwise the
    /// board is unchanged.
    pub fn slide(&mut self, direction: Direction) -> (r: bool)
        requires
            old(self).wf(),
        ensures
            r == spec_slide_legal(*old(self), direction),
            r ==> *final(self) == spec_slide(*old(self), direction),
            !r ==> *final(self) == *old(self),
            final(self).wf(),
    {
        let target: Option<(usize, usize)> = match direction {
            Direction::Up => if self.empty_pos.0 > 0 {
                Some((self.empty_pos.0 - 1, self.empty_pos.1))
            } else {
                None
            },
            Direction::Down => if self.empty_pos.0 + 1 < SIZE {
                Some((self.empty_pos.0 + 1, self.empty_pos.1))
            } else {
                None
            },
            Direction::Left => if self.empty_pos.1 > 0 {
                Some((self.empty_pos.0, self.empty_pos.1 - 1))
            } else {
                None
            },
            Direction::Right => if self.empty_pos.1 + 1 < SIZE {
                Some((self.empty_pos.0, self.empty_pos.1 + 1))
            } else {
                None
            },
        };
        match target {
            Some(pt) => {
                proof {
                    lemma_slide_wf(*self, direction);
                }
                let res = self.swap_with_empty(pt);
                proof {
                    lemma_grid_ext(self.grid, spec_slide(*old(self), direction).grid);
                }
                res
            },
            None => false,
        }
    }

    /// Renders the grid as text: rows top to bottom, cells left to right
    /// separated by spaces, one line per row, the blank as an underscore.
    pub fn render(&self) -> (r: String)
        ensures
            r@ == render_spec(self.grid),
    {
        let mut s = String::new();
        for row in 0..SIZE
            invariant
                row <= 3,
                s@ == render_upto(self.grid, 3 * row),
        {
            for col in 0..SIZE
                invariant
                    row < 3,
                    col <= 3,
                    s@ == render_upto(self.grid, 3 * row + col),
            {
                let t = self.grid[row][col];
                let piece: &str = match t {
                    Tile::Empty => "_",
                    Tile::Number(n) => {
                        if n == 1 {
                            "1"
                        } else if n == 2 {
                            "2"
                        } else if n == 3 {
                            "3"
                        } else if n == 4 {
                            "4"
                        } else if n == 5 {
                            "5"
                        } else if n == 6 {
                            "6"
                        } else if n == 7 {
                            "7"
                        } else if n == 8 {
                            "8"
                        } else {
                            "_"
                        }
                    },
                };
                s.append(piece);
                let sep: &str = if col == LIMIT {
                    "\n"
                } else {
                    " "
                };
                s.append(sep);
                proof {
                    reveal_strlit("_");
                    reveal_strlit("1");
                    reveal_strlit("2");
                    reveal_strlit("3");
                    reveal_strlit("4");
                    reveal_strlit("5");
                    reveal_strlit("6");
                    reveal_strlit("7");
                    reveal_strlit("8");
                    reveal_strlit(" ");
                    reveal_strlit("\n");
                    let k = 3 * (row as int) + col as int;
                    lemma_unflat_index(row as int, col as int);
                    assert(piece@ =~= seq![char_of_val(gval(self.grid, k))]);
                    assert(sep@ =~= seq![sep_char(k)]);
                    assert(s@ =~= render_upto(self.grid, k + 1));
                }
            }
        }
        s
    }

    /// Scrambles the board in place with a seeded random walk of up to
    /// `amount` slides, never repeating the immediately preceding direction.
    /// The result stays well formed and reachable from the starting board by
    /// legal slides, so the search can always solve it.
    pub fn scramble(&mut self, amount: u8, seed: u64)
        requires
            old(self).wf(),
        ensures
            final(self).wf(),
            exists|dirs: Seq<Direction>|
                #[trigger] can_apply(*old(self), dirs)
                    && apply_dirs(*old(self), dirs) == *final(self),
    {
        let mut rng = crate::rng::rng_from_seed(seed);
        let mut previous: Option<Direction> = None;
        let ghost mut dirs: Seq<Direction> = Seq::empty();
        let mut moves: u8 = 0;
        while moves < amount
            invariant
                self.wf(),
                moves <= amount,
                can_apply(*old(self), dirs),
                apply_dirs(*old(self), dirs) == *self,
            decreases amount - moves,
        {
            let di = crate::rng::rng_next(&mut rng) % 4;
            let mut done = false;
            for k in 0..4usize
                invariant
                    self.wf(),
                    di < 4,
                    can_apply(*old(self), dirs),
                    apply_dirs(*old(self), dirs) == *self,
            {
                if !done {
                    let d = dir_of((di + k) % 4);
                    let repeat = match previous {
                        Some(pd) => pd == d,
                        None => false,
                    };
                    if !repeat {
                        proof {
                            lemma_apply_push(*old(self), dirs, d);
                        }
                        if self.slide(d) {
                            previous = Some(d);
                            done = true;
                            proof {
                                dirs = dirs.push(d);
                            }
                        }
                    }
                }
            }
            moves = moves + 1;
        }
        proof {
            assert(can_apply(*old(self), dirs) && apply_dirs(*old(self), dirs) == *self);
        }
    }

    /// The board is solved exactly when the cached cost is zero; under the
    /// board invariant that coincides with the grid being in the solved
    /// configuration.
    pub fn is_solved(&self) -> (r: bool)
        ensures
            r == (self.cost == 0),
            self.wf() ==> (r <==> self.solved()),
    {
        proof {
            if self.wf() {
                lemma_cost_zero_iff_solved(self.grid);
            }
        }
        self.cost == 0
    }
}

} // verus!
