//! Data model: cells, directions, and the rectangular grid.

use vstd::prelude::*;

verus! {

use vstd::multiset::Multiset;
use vstd::pervasive::VecAdditionalExecFns;

broadcast use vstd::multiset::group_multiset_axioms;

use crate::game::{spawn_outcome, spawn_tile};
use crate::rng::RandomSource;

/// Canonical number of rows of a standard board.
pub const ROWS: usize = 4;
/// Canonical number of columns of a standard board.
pub const COLS: usize = 4;

/// The four directions a move can take, each mapping to a unit step
/// `(row delta, column delta)`.
#[derive(Debug, Clone, Copy)]
pub enum Direction {
    Left,
    Right,
    Up,
    Down,
}

impl Direction {
    /// Row component of the unit step for this direction.
    pub open spec fn spec_row_delta(self) -> int {
        match self {
            Direction::Up => -1,
            Direction::Down => 1,
            _ => 0,
        }
    }

    /// Column component of the unit step for this direction.
    pub open spec fn spec_col_delta(self) -> int {
        match self {
            Direction::Left => -1,
            Direction::Right => 1,
            _ => 0,
        }
    }

    /// The unit step `(row delta, column delta)` of this direction.
    pub fn to_tuple(&self) -> (r: (i8, i8))
        ensures
            r.0 as int == self.spec_row_delta(),
            r.1 as int == self.spec_col_delta(),
    {
        match self {
            Direction::Left => (0, -1),
            Direction::Right => (0, 1),
            Direction::Up => (-1, 0),
            Direction::Down => (1, 0),
        }
    }
}

/// Why a cell looks the way it does this turn; animation metadata only.
#[derive(Debug, Clone, Copy, PartialEq, Eq)]
pub enum CellState {
    New,
    Merged,
    Moved,
}

/// One grid square: a value (0 for empty, otherwise a power of two)
/// plus transient per-move annotations.
#[derive(Debug, Clone, Copy)]
pub struct Cell {
    pub value: u16,
    pub state: Option<CellState>,
    pub prev: Option<(isize, isize)>,
}

impl PartialEq for Cell {
    /// Two cells are mergeable-equal iff their values match;
    /// annotations are irrelevant to equality.
    fn eq(&self, other: &Self) -> (r: bool)
        ensures
            r == (self.value == other.value),
    {
        self.value == other.value
    }
}

impl vstd::std_specs::cmp::PartialEqSpecImpl for Cell {
    open spec fn obeys_eq_spec() -> bool {
        true
    }

    open spec fn eq_spec(&self, other: &Cell) -> bool {
        self.value == other.value
    }
}

/// A cell slot with nothing in it.
pub open spec fn empty_cell() -> Cell {
    Cell { value: 0, state: None, prev: None }
}

/// An empty cell, for building fresh boards.
pub fn make_empty_cell() -> (c: Cell)
    ensures
        c == empty_cell(),
{
    Cell { value: 0, state: None, prev: None }
}

/// A value a cell may legally hold: 0 (empty) or a power of two >= 2.
pub open spec fn is_tile_value(v: nat) -> bool
    decreases v,
{
    if v == 0 {
        true
    } else if v == 1 {
        false
    } else {
        v % 2 == 0 && is_pow2(v / 2)
    }
}

/// `n` is a power of two (1, 2, 4, ...).
pub open spec fn is_pow2(n: nat) -> bool
    decreases n,
{
    if n == 0 {
        false
    } else if n == 1 {
        true
    } else {
        n % 2 == 0 && is_pow2(n / 2)
    }
}

/// A fixed-size rectangular board of cells, stored row-major.
pub struct Matrix {
    rows: usize,
    cols: usize,
    cells: Vec<Cell>,
}

impl Matrix {
    /// Number of rows.
    pub closed spec fn spec_rows(self) -> int {
        self.rows as int
    }

    /// Number of columns.
    pub closed spec fn spec_cols(self) -> int {
        self.cols as int
    }

    /// The board contents, row-major.
    pub closed spec fn grid(self) -> Seq<Cell> {
        self.cells@
    }

    /// Row-major index of coordinate `(i, j)`.
    pub open spec fn flat(self, i: int, j: int) -> int {
        i * self.spec_cols() + j
    }

    /// The cell at coordinate `(i, j)`.
    pub open spec fn at(self, i: int, j: int) -> Cell {
        self.grid()[self.flat(i, j)]
    }

    /// `(i, j)` lies on the board.
    pub open spec fn in_bounds(self, i: int, j: int) -> bool {
        0 <= i < self.spec_rows() && 0 <= j < self.spec_cols()
    }

    /// Shape well-formedness: positive dimensions that fit the storage.
    pub open spec fn wf(self) -> bool {
        &&& 1 <= self.spec_rows() <= 0xffff
        &&& 1 <= self.spec_cols() <= 0xffff
        &&& self.grid().len() == self.spec_rows() * self.spec_cols()
    }

    /// Number of rows.
    pub fn row_count(&self) -> (r: usize)
        ensures
            r as int == self.spec_rows(),
    {
        self.rows
    }

    /// Number of columns.
    pub fn col_count(&self) -> (r: usize)
        ensures
            r as int == self.spec_cols(),
    {
        self.cols
    }

    /// Number of cell slots on the board.
    pub fn cell_count(&self) -> (r: usize)
        ensures
            r as int == self.grid().len(),
    {
        self.cells.len()
    }

    /// Read the cell at `(i, j)`.
    pub fn get(&self, i: usize, j: usize) -> (c: Cell)
        requires
            self.wf(),
            self.in_bounds(i as int, j as int),
        ensures
            c == self.at(i as int, j as int),
    {
        proof {
            lemma_flat_fits(
                self.spec_rows(),
                self.spec_cols(),
                i as int,
                j as int,
            );
        }
        self.cells[i * self.cols + j]
    }

    /// Overwrite the cell at `(i, j)`.
    pub fn set(&mut self, i: usize, j: usize, c: Cell)
        requires
            old(self).wf(),
            old(self).in_bounds(i as int, j as int),
        ensures
            final(self).wf(),
            final(self).spec_rows() == old(self).spec_rows(),
            final(self).spec_cols() == old(self).spec_cols(),
            final(self).grid() == old(self).grid().update(old(self).flat(i as int, j as int), c),
    {
        proof {
            lemma_flat_fits(
                self.spec_rows(),
                self.spec_cols(),
                i as int,
                j as int,
            );
        }
        let k = i * self.cols + j;
        self.cells.set(k, c);
    }

    /// Whether the sum of all values still fits the value type with
    /// room for one merge: the bound under which a move is overflow-free.
    pub fn sum_fits(&self) -> (r: bool)
        requires
            self.wf(),
        ensures
            r == (sum_vals(self.grid()) <= 0xffff),
    {
        let ghost g = self.grid();
        let n = self.cells.len();
        let mut k: usize = 0;
        let mut acc: u32 = 0;
        while k < n
            invariant
                self.wf(),
                g == self.grid(),
                n == g.len(),
                k <= n,
                acc as int == sum_vals(g.take(k as int)),
                acc <= 0xffff,
            decreases n - k,
        {
            let c = self.cells[k];
            proof {
                lemma_sum_take_step(g, k as int);
            }
            if acc + c.value as u32 > 0xffff {
                proof {
                    lemma_sum_take_le(g, k as int + 1);
                }
                return false;
            }
            acc = acc + c.value as u32;
            k = k + 1;
        }
        proof {
            assert(g.take(n as int) =~= g);
        }
        true
    }

    /// Build an all-empty board, or `None` when a dimension is zero or
    /// too large for the storage.
    pub fn new(rows: usize, cols: usize) -> (r: Option<Matrix>)
        ensures
            (r is None) == (rows == 0 || cols == 0 || rows > 0xffff || cols > 0xffff),
            r is Some ==> {
                &&& r->Some_0.wf()
                &&& r->Some_0.spec_rows() == rows
                &&& r->Some_0.spec_cols() == cols
                &&& forall|k: int|
                    0 <= k < r->Some_0.grid().len() ==> r->Some_0.grid()[k] == empty_cell()
            },
    {
        if rows == 0 || cols == 0 || rows > 0xffff || cols > 0xffff {
            return None;
        }
        proof {
            assert(rows * cols <= 0xffff * 0xffff) by (nonlinear_arith)
                requires
                    0 < rows <= 0xffff,
                    0 < cols <= 0xffff,
            ;
        }
        let n = rows * cols;
        let mut cells: Vec<Cell> = Vec::new();
        let mut k: usize = 0;
        while k < n
            invariant
                k <= n,
                cells@.len() == k,
                forall|t: int| 0 <= t < k ==> cells@[t] == empty_cell(),
            decreases n - k,
        {
            cells.push(make_empty_cell());
            k = k + 1;
        }
        Some(Matrix { rows, cols, cells })
    }
}

/// Two distinct cells of a fresh game hold the spawned tiles, marked
/// `New` with value 2 or 4; every other cell is untouched and empty.
pub open spec fn start_layout(m: Matrix, x1: int, y1: int, x2: int, y2: int) -> bool {
    &&& m.in_bounds(x1, y1)
    &&& m.in_bounds(x2, y2)
    &&& (x1 != x2 || y1 != y2)
    &&& (m.at(x1, y1).value == 2 || m.at(x1, y1).value == 4)
    &&& (m.at(x2, y2).value == 2 || m.at(x2, y2).value == 4)
    &&& m.at(x1, y1).state == Some(CellState::New)
    &&& m.at(x2, y2).state == Some(CellState::New)
    &&& forall|k: int|
        0 <= k < m.grid().len() && k != m.flat(x1, y1) && k != m.flat(x2, y2) ==> (
        #[trigger] m.grid()[k]) == empty_cell()
}

/// A fresh game board of the canonical size: all empty except for two
/// tiles spawned one after the other, so they never share a cell.
pub fn generate_start_matrix<R: RandomSource>(rng: &mut R) -> (start: Matrix)
    ensures
        start.wf(),
        start.spec_rows() == ROWS,
        start.spec_cols() == COLS,
        exists|x1: int, y1: int, x2: int, y2: int| start_layout(start, x1, y1, x2, y2),
        all_tiles(start.grid()),
        4 <= sum_vals(start.grid()) <= 8,
{
    let mut start: Matrix = match Matrix::new(ROWS, COLS) {
        Some(m) => m,
        None => vstd::pervasive::unreached(),
    };
    let ghost m0 = start;
    proof {
        lemma_sum_all_zero(m0.grid());
        lemma_flat_in_range(4, 4, 0, 0);
        assert(m0.at(0, 0).value == 0);
    }
    spawn_tile(&mut start, rng);
    let ghost m1 = start;
    let ghost (x1, y1, v1) = choose|x1: int, y1: int, v1: u16| spawn_outcome(m0, m1, x1, y1, v1);
    proof {
        let k1 = m0.flat(x1, y1);
        lemma_flat_in_range(4, 4, x1, y1);
        lemma_sum_update(m0.grid(), k1, m1.grid()[k1]);
        // some cell other than the first spawn's is still empty
        let (cx, cy): (int, int) = if x1 == 0 && y1 == 0 {
            (0, 1)
        } else {
            (0, 0)
        };
        lemma_flat_in_range(4, 4, cx, cy);
        if cx * 4 + cy == k1 {
            lemma_flat_injective(4, cx, cy, x1, y1);
            assert(false);
        }
        assert(m1.at(cx, cy).value == 0);
    }
    spawn_tile(&mut start, rng);
    let ghost m2 = start;
    let ghost (x2, y2, v2) = choose|x2: int, y2: int, v2: u16| spawn_outcome(m1, m2, x2, y2, v2);
    proof {
        let k1 = m0.flat(x1, y1);
        let k2 = m1.flat(x2, y2);
        lemma_flat_in_range(4, 4, x1, y1);
        lemma_flat_in_range(4, 4, x2, y2);
        lemma_sum_update(m1.grid(), k2, m2.grid()[k2]);
        if k1 == k2 {
            assert(m1.grid()[k1].value == v1);
            assert(false);
        }
        assert(m2.at(x1, y1) == m1.at(x1, y1));
        assert(start_layout(m2, x1, y1, x2, y2));
        assert forall|k: int| 0 <= k < m2.grid().len() implies is_tile_value(
            (#[trigger] m2.grid()[k]).value as nat,
        ) by {
            assert(is_pow2(1));
            assert(is_pow2(2));
            if k != k1 && k != k2 {
                assert(m2.grid()[k] == m0.grid()[k]);
            }
        }
    }
    start
}

/// The same cells with all transient annotations cleared.
pub open spec fn cleared(s: Seq<Cell>) -> Seq<Cell> {
    s.map(|k: int, c: Cell| Cell { value: c.value, state: None, prev: None })
}

/// Sum of all cell values.
pub open spec fn sum_vals(s: Seq<Cell>) -> int
    decreases s.len(),
{
    if s.len() == 0 {
        0
    } else {
        sum_vals(s.drop_last()) + s.last().value
    }
}

/// What one cell contributes to the multiset of settled tile values:
/// its value, unless the cell is empty or was just spawned.
pub open spec fn tile_contrib(c: Cell) -> Multiset<u16> {
    if c.value != 0 && c.state != Some(CellState::New) {
        Multiset::empty().insert(c.value)
    } else {
        Multiset::empty()
    }
}

/// Multiset of the values of all settled (non-spawned) tiles.
pub open spec fn tiles_mset(s: Seq<Cell>) -> Multiset<u16>
    decreases s.len(),
{
    if s.len() == 0 {
        Multiset::empty()
    } else {
        tiles_mset(s.drop_last()).add(tile_contrib(s.last()))
    }
}

/// Every cell holds a legal tile value.
pub open spec fn all_tiles(s: Seq<Cell>) -> bool {
    forall|k: int| 0 <= k < s.len() ==> is_tile_value(#[trigger] s[k].value as nat)
}

/// No cell is annotated as freshly spawned.
pub open spec fn no_new(s: Seq<Cell>) -> bool {
    forall|k: int| 0 <= k < s.len() ==> (#[trigger] s[k].state) != Some(CellState::New)
}

/// No cell is annotated as a merge destination.
pub open spec fn no_merged(s: Seq<Cell>) -> bool {
    forall|k: int| 0 <= k < s.len() ==> (#[trigger] s[k].state) != Some(CellState::Merged)
}

/// Every merge-annotated cell still holds a tile.
pub open spec fn merged_nonzero(s: Seq<Cell>) -> bool {
    forall|k: int|
        0 <= k < s.len() && (#[trigger] s[k].state) == Some(CellState::Merged) ==> s[k].value != 0
}

/// Doubling a nonzero tile value yields a tile value.
pub proof fn lemma_tile_double(v: nat)
    requires
        is_tile_value(v),
        v != 0,
    ensures
        is_tile_value(2 * v),
{
    assert(v >= 2 && v % 2 == 0 && is_pow2(v / 2));
    assert(is_pow2(v));
    assert((2 * v) / 2 == v);
    assert(is_tile_value(2 * v));
}

/// Clearing annotations leaves the sum of values unchanged.
pub proof fn lemma_sum_cleared(s: Seq<Cell>)
    ensures
        sum_vals(cleared(s)) == sum_vals(s),
    decreases s.len(),
{
    if s.len() == 0 {
    } else {
        lemma_sum_cleared(s.drop_last());
        assert(cleared(s).drop_last() =~= cleared(s.drop_last()));
    }
}

/// The sum of values is never negative.
pub proof fn lemma_sum_nonneg(s: Seq<Cell>)
    ensures
        0 <= sum_vals(s),
    decreases s.len(),
{
    if s.len() == 0 {
    } else {
        lemma_sum_nonneg(s.drop_last());
    }
}

/// Replacing one cell shifts the sum by the difference of the values.
pub proof fn lemma_sum_update(s: Seq<Cell>, k: int, c: Cell)
    requires
        0 <= k < s.len(),
    ensures
        sum_vals(s.update(k, c)) == sum_vals(s) - s[k].value + c.value,
    decreases s.len(),
{
    let u = s.update(k, c);
    if k == s.len() - 1 {
        assert(u.drop_last() =~= s.drop_last());
    } else {
        assert(u.drop_last() =~= s.drop_last().update(k, c));
        assert(u.last() == s.last());
        lemma_sum_update(s.drop_last(), k, c);
    }
}

/// Extending a prefix by one cell adds that cell's value to the sum.
pub proof fn lemma_sum_take_step(s: Seq<Cell>, k: int)
    requires
        0 <= k < s.len(),
    ensures
        sum_vals(s.take(k + 1)) == sum_vals(s.take(k)) + s[k].value,
{
    assert(s.take(k + 1).drop_last() =~= s.take(k));
    assert(s.take(k + 1).last() == s[k]);
}

/// A prefix never sums to more than the whole board.
pub proof fn lemma_sum_take_le(s: Seq<Cell>, k: int)
    requires
        0 <= k <= s.len(),
    ensures
        sum_vals(s.take(k)) <= sum_vals(s),
    decreases s.len() - k,
{
    if k == s.len() {
        assert(s.take(k) =~= s);
    } else {
        lemma_sum_take_step(s, k);
        lemma_sum_take_le(s, k + 1);
    }
}

/// A board of empty cells has value sum zero.
pub proof fn lemma_sum_all_zero(s: Seq<Cell>)
    requires
        forall|k: int| 0 <= k < s.len() ==> (#[trigger] s[k]).value == 0,
    ensures
        sum_vals(s) == 0,
    decreases s.len(),
{
    if s.len() > 0 {
        lemma_sum_all_zero(s.drop_last());
    }
}

/// One cell's value never exceeds the sum of all values.
pub proof fn lemma_sum_single(s: Seq<Cell>, k: int)
    requires
        0 <= k < s.len(),
    ensures
        s[k].value <= sum_vals(s),
    decreases s.len(),
{
    lemma_sum_nonneg(s.drop_last());
    if k == s.len() - 1 {
    } else {
        lemma_sum_single(s.drop_last(), k);
    }
}

/// Two distinct cells' values together never exceed the sum of all values.
pub proof fn lemma_sum_pair(s: Seq<Cell>, k: int, l: int)
    requires
        0 <= k < s.len(),
        0 <= l < s.len(),
        k != l,
    ensures
        s[k].value + s[l].value <= sum_vals(s),
    decreases s.len(),
{
    if l == s.len() - 1 {
        lemma_sum_single(s.drop_last(), k);
    } else if k == s.len() - 1 {
        lemma_sum_single(s.drop_last(), l);
    } else {
        lemma_sum_pair(s.drop_last(), k, l);
    }
}

/// Replacing one cell exchanges its contribution to the settled multiset.
pub proof fn lemma_mset_update(s: Seq<Cell>, k: int, c: Cell)
    requires
        0 <= k < s.len(),
    ensures
        tiles_mset(s.update(k, c)).add(tile_contrib(s[k])) == tiles_mset(s).add(
            tile_contrib(c),
        ),
    decreases s.len(),
{
    let u = s.update(k, c);
    if k == s.len() - 1 {
        assert(u.drop_last() =~= s.drop_last());
        assert(tiles_mset(u).add(tile_contrib(s[k])) =~= tiles_mset(s).add(tile_contrib(c)));
    } else {
        let sdl = s.drop_last();
        assert(u.drop_last() =~= sdl.update(k, c));
        assert(u.last() == s.last());
        lemma_mset_update(sdl, k, c);
        assert forall|v: u16|
            tiles_mset(u).add(tile_contrib(s[k])).count(v) == tiles_mset(s).add(
                tile_contrib(c),
            ).count(v) by {
            assert(tiles_mset(sdl.update(k, c)).add(tile_contrib(sdl[k])).count(v)
                == tiles_mset(sdl).add(tile_contrib(c)).count(v));
        }
        assert(tiles_mset(u).add(tile_contrib(s[k])) =~= tiles_mset(s).add(tile_contrib(c)));
    }
}

/// Adding the same multiset to both sides can be cancelled.
pub proof fn lemma_mset_cancel(a: Multiset<u16>, b: Multiset<u16>, x: Multiset<u16>)
    requires
        a.add(x) == b.add(x),
    ensures
        a == b,
{
    assert forall|e: u16| a.count(e) == b.count(e) by {
        assert(a.add(x).count(e) == a.count(e) + x.count(e));
        assert(b.add(x).count(e) == b.count(e) + x.count(e));
        assert(a.add(x).count(e) == b.add(x).count(e));
    }
    assert(a =~= b);
}

/// Reset every cell's transient annotations, keeping all values.
pub fn reset_tile_states(matrix: &mut Matrix)
    requires
        old(matrix).wf(),
    ensures
        final(matrix).wf(),
        final(matrix).spec_rows() == old(matrix).spec_rows(),
        final(matrix).spec_cols() == old(matrix).spec_cols(),
        final(matrix).grid() == cleared(old(matrix).grid()),
{
    let n = matrix.cells.len();
    let mut k: usize = 0;
    while k < n
        invariant
            matrix.wf(),
            matrix.spec_rows() == old(matrix).spec_rows(),
            matrix.spec_cols() == old(matrix).spec_cols(),
            matrix.grid().len() == old(matrix).grid().len(),
            n == matrix.grid().len(),
            k <= n,
            forall|t: int| 0 <= t < k ==> matrix.grid()[t] == cleared(old(matrix).grid())[t],
            forall|t: int| k <= t < n ==> matrix.grid()[t] == old(matrix).grid()[t],
        decreases n - k,
    {
        let c = matrix.cells[k];
        matrix.cells.set(k, Cell { value: c.value, state: None, prev: None });
        k = k + 1;
    }
    proof {
        assert(matrix.grid() =~= cleared(old(matrix).grid()));
    }
}

/// A valid coordinate of a well-formed board maps to a row-major index
/// that fits the index type.
pub proof fn lemma_flat_fits(rows: int, cols: int, i: int, j: int)
    requires
        0 <= i < rows <= 0xffff,
        0 <= j < cols <= 0xffff,
    ensures
        0 <= i * cols + j < rows * cols,
        rows * cols <= 0xffff * 0xffff,
{
    assert(0 <= i * cols + j < rows * cols && rows * cols <= 0xffff * 0xffff)
        by (nonlinear_arith)
        requires
            0 <= i < rows <= 0xffff,
            0 <= j < cols <= 0xffff,
    ;
}

/// A valid coordinate maps to a valid row-major index.
pub proof fn lemma_flat_in_range(rows: int, cols: int, i: int, j: int)
    requires
        0 <= i < rows,
        0 <= j < cols,
    ensures
        0 <= i * cols + j < rows * cols,
{
    assert(0 <= i * cols + j < rows * cols) by (nonlinear_arith)
        requires
            0 <= i < rows,
            0 <= j < cols,
    ;
}

/// Distinct coordinates map to distinct row-major indices.
pub proof fn lemma_flat_injective(cols: int, i1: int, j1: int, i2: int, j2: int)
    requires
        0 <= j1 < cols,
        0 <= j2 < cols,
        i1 * cols + j1 == i2 * cols + j2,
    ensures
        i1 == i2 && j1 == j2,
{
    assert(i1 == i2 && j1 == j2) by (nonlinear_arith)
        requires
            0 <= j1 < cols,
            0 <= j2 < cols,
            i1 * cols + j1 == i2 * cols + j2,
    ;
}

} // verus!
