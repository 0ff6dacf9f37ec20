//! The move engine: directional slide, merge, and tile spawn.

use vstd::prelude::*;

verus! {

use vstd::multiset::Multiset;
use vstd::string::StringExecFns;
use crate::rng::RandomSource;
use crate::models::{
    Cell, CellState, Direction, Matrix, empty_cell, make_empty_cell, is_tile_value,
    is_pow2, cleared, sum_vals, tile_contrib, tiles_mset, all_tiles, no_new, no_merged,
    merged_nonzero, lemma_flat_fits, lemma_flat_in_range, lemma_flat_injective, lemma_sum_cleared,
    lemma_sum_nonneg, lemma_sum_update, lemma_sum_pair, lemma_mset_update,
    lemma_mset_cancel, lemma_tile_double, reset_tile_states,
};

/// `(dr, dc)` is the unit step of one of the four directions.
pub open spec fn unit_delta(dr: int, dc: int) -> bool {
    ||| (dr == 0 && (dc == -1 || dc == 1))
    ||| (dc == 0 && (dr == -1 || dr == 1))
}

/// `c` lies between `a` and `b` (inclusive, either order).
pub open spec fn between(a: int, b: int, c: int) -> bool {
    a <= c <= b || b <= c <= a
}

/// `(x, y)` lies on the straight segment from `(i0, j0)` to `(i1, j1)`,
/// where the segment runs along a single row or a single column.
pub open spec fn on_path(i0: int, j0: int, i1: int, j1: int, x: int, y: int) -> bool {
    ||| (i0 == i1 && x == i0 && between(j0, j1, y))
    ||| (j0 == j1 && y == j0 && between(i0, i1, x))
}

/// The tile at `(i, j)` could slide or merge one step along `(dr, dc)`.
pub open spec fn cell_can_change(m: Matrix, dr: int, dc: int, i: int, j: int) -> bool {
    &&& m.in_bounds(i, j)
    &&& m.at(i, j).value != 0
    &&& m.in_bounds(i + dr, j + dc)
    &&& (m.at(i + dr, j + dc).value == 0 || m.at(i + dr, j + dc).value == m.at(i, j).value)
}

/// Some tile of the board could slide or merge along `(dr, dc)`:
/// exactly the boards on which a move in that direction does something.
pub open spec fn can_change(m: Matrix, dr: int, dc: int) -> bool {
    exists|i: int, j: int| cell_can_change(m, dr, dc, i, j)
}

/// Whether stepping once from `(i, j)` along the offsets stays on the board.
pub fn is_within_bounds(
    matrix: &Matrix,
    i: usize,
    j: usize,
    row_offset: i8,
    col_offset: i8,
) -> (r: bool)
    requires
        matrix.wf(),
        matrix.in_bounds(i as int, j as int),
        unit_delta(row_offset as int, col_offset as int),
    ensures
        r == matrix.in_bounds(i as int + row_offset as int, j as int + col_offset as int),
{
    let rows = matrix.row_count();
    let cols = matrix.col_count();
    if row_offset < 0 {
        i > 0
    } else if row_offset > 0 {
        i + 1 < rows
    } else if col_offset < 0 {
        j > 0
    } else {
        j + 1 < cols
    }
}

/// The index visited at step `k` when walking `0..size`, reversed when
/// the offset points toward the high end.
pub open spec fn iter_index(offset: int, size: int, k: int) -> int {
    if offset == 1 {
        size - 1 - k
    } else {
        k
    }
}

/// The order in which one axis is traversed: tiles are processed starting
/// from the side the board collapses toward.
pub fn get_iteration_range(offset: i8, size: usize) -> (r: Vec<usize>)
    ensures
        r@.len() == size,
        forall|k: int|
            0 <= k < size ==> (#[trigger] r@[k]) as int == iter_index(offset as int, size as int, k),
{
    let mut r: Vec<usize> = Vec::new();
    let mut k: usize = 0;
    while k < size
        invariant
            k <= size,
            r@.len() == k,
            forall|t: int|
                0 <= t < k ==> (#[trigger] r@[t]) as int == iter_index(
                    offset as int,
                    size as int,
                    t,
                ),
        decreases size - k,
    {
        if offset == 1 {
            r.push(size - 1 - k);
        } else {
            r.push(k);
        }
        k = k + 1;
    }
    r
}

/// Slide the tile at `(*current_i, *current_j)` step by step along the
/// offsets through empty cells until it is blocked, updating the
/// coordinates to the tile's final position.
///
/// The tile moves iff its immediate neighbour is on the board and empty;
/// it ends where the next step would leave the board or hit a tile.  The
/// vacated cells are fully emptied, the tile keeps its value, is marked
/// `Moved`, and records where the chain started.  Everything off the
/// travelled segment is untouched, so the sum and multiset of settled
/// values are preserved.
fn move_tile(
    matrix: &mut Matrix,
    current_i: &mut usize,
    current_j: &mut usize,
    row_offset: i8,
    col_offset: i8,
) -> (has_moved: bool)
    requires
        old(matrix).wf(),
        unit_delta(row_offset as int, col_offset as int),
        old(matrix).in_bounds(*old(current_i) as int, *old(current_j) as int),
        old(matrix).at(*old(current_i) as int, *old(current_j) as int).value != 0,
        old(matrix).at(*old(current_i) as int, *old(current_j) as int).state is None,
        old(matrix).at(*old(current_i) as int, *old(current_j) as int).prev is None,
    ensures
        final(matrix).wf(),
        final(matrix).spec_rows() == old(matrix).spec_rows(),
        final(matrix).spec_cols() == old(matrix).spec_cols(),
        final(matrix).in_bounds(*final(current_i) as int, *final(current_j) as int),
        has_moved == (old(matrix).in_bounds(
            *old(current_i) as int + row_offset as int,
            *old(current_j) as int + col_offset as int,
        ) && old(matrix).at(
            *old(current_i) as int + row_offset as int,
            *old(current_j) as int + col_offset as int,
        ).value == 0),
        has_moved == (*final(current_i) != *old(current_i) || *final(current_j) != *old(
            current_j,
        )),
        !has_moved ==> *final(matrix) == *old(matrix),
        row_offset as int == 0 ==> *final(current_i) == *old(current_i),
        col_offset as int == 0 ==> *final(current_j) == *old(current_j),
        row_offset as int == -1 ==> *final(current_i) <= *old(current_i),
        row_offset as int == 1 ==> *final(current_i) >= *old(current_i),
        col_offset as int == -1 ==> *final(current_j) <= *old(current_j),
        col_offset as int == 1 ==> *final(current_j) >= *old(current_j),
        !final(matrix).in_bounds(
            *final(current_i) as int + row_offset as int,
            *final(current_j) as int + col_offset as int,
        ) || final(matrix).at(
            *final(current_i) as int + row_offset as int,
            *final(current_j) as int + col_offset as int,
        ).value != 0,
        has_moved ==> final(matrix).at(*final(current_i) as int, *final(current_j) as int) == (Cell {
            value: old(matrix).at(*old(current_i) as int, *old(current_j) as int).value,
            state: Some(CellState::Moved),
            prev: Some((*old(current_i) as isize, *old(current_j) as isize)),
        }),
        forall|x: int, y: int|
            old(matrix).in_bounds(x, y) && !on_path(
                *old(current_i) as int,
                *old(current_j) as int,
                *final(current_i) as int,
                *final(current_j) as int,
                x,
                y,
            ) ==> #[trigger] final(matrix).at(x, y) == old(matrix).at(x, y),
        forall|x: int, y: int|
            on_path(
                *old(current_i) as int,
                *old(current_j) as int,
                *final(current_i) as int,
                *final(current_j) as int,
                x,
                y,
            ) && (x != *final(current_i) as int || y != *final(current_j) as int)
                ==> #[trigger] final(matrix).at(x, y) == empty_cell(),
        forall|x: int, y: int|
            on_path(
                *old(current_i) as int,
                *old(current_j) as int,
                *final(current_i) as int,
                *final(current_j) as int,
                x,
                y,
            ) && (x != *old(current_i) as int || y != *old(current_j) as int) ==> old(
                matrix,
            ).in_bounds(x, y) && (#[trigger] old(matrix).at(x, y)).value == 0,
        forall|k: int|
            0 <= k < old(matrix).grid().len() && (#[trigger] old(matrix).grid()[k]).value != 0 && k
                != *old(current_i) as int * old(matrix).spec_cols() + *old(current_j) as int
                ==> final(matrix).grid()[k] == old(matrix).grid()[k],
        sum_vals(final(matrix).grid()) == sum_vals(old(matrix).grid()),
        tiles_mset(final(matrix).grid()) == tiles_mset(old(matrix).grid()),
        all_tiles(old(matrix).grid()) ==> all_tiles(final(matrix).grid()),
        forall|k: int|
            0 <= k < final(matrix).grid().len() && (#[trigger] final(matrix).grid()[k]).state
                == Some(CellState::New) ==> old(matrix).grid()[k].state == Some(CellState::New),
        merged_nonzero(old(matrix).grid()) ==> forall|k: int|
            0 <= k < final(matrix).grid().len() ==> (((#[trigger] final(matrix).grid()[k]).state
                == Some(CellState::Merged)) <==> (old(matrix).grid()[k].state == Some(
                CellState::Merged,
            ))),
{
    let ghost i0 = *old(current_i) as int;
    let ghost j0 = *old(current_j) as int;
    let ghost dr = row_offset as int;
    let ghost dc = col_offset as int;
    let ghost v0 = old(matrix).at(i0, j0).value;
    let ghost rows = old(matrix).spec_rows();
    let ghost cols = old(matrix).spec_cols();

    let mut ci = *current_i;
    let mut cj = *current_j;
    let mut has_moved = false;

    while is_within_bounds(matrix, ci, cj, row_offset, col_offset)
        invariant
            unit_delta(dr, dc),
            dr == row_offset as int,
            dc == col_offset as int,
            i0 == *old(current_i) as int,
            j0 == *old(current_j) as int,
            rows == old(matrix).spec_rows(),
            cols == old(matrix).spec_cols(),
            v0 == old(matrix).at(i0, j0).value,
            old(matrix).wf(),
            old(matrix).in_bounds(i0, j0),
            old(matrix).at(i0, j0).value != 0,
            old(matrix).at(i0, j0).state is None,
            old(matrix).at(i0, j0).prev is None,
            matrix.wf(),
            matrix.spec_rows() == rows,
            matrix.spec_cols() == cols,
            matrix.in_bounds(ci as int, cj as int),
            dr == 0 ==> ci as int == i0,
            dc == 0 ==> cj as int == j0,
            dr == -1 ==> ci as int <= i0,
            dr == 1 ==> ci as int >= i0,
            dc == -1 ==> cj as int <= j0,
            dc == 1 ==> cj as int >= j0,
            has_moved == (ci as int != i0 || cj as int != j0),
            has_moved ==> old(matrix).in_bounds(i0 + dr, j0 + dc) && old(matrix).at(
                i0 + dr,
                j0 + dc,
            ).value == 0,
            !has_moved ==> *matrix == *old(matrix),
            has_moved ==> matrix.at(ci as int, cj as int) == (Cell {
                value: v0,
                state: Some(CellState::Moved),
                prev: Some((*old(current_i) as isize, *old(current_j) as isize)),
            }),
            forall|x: int, y: int|
                old(matrix).in_bounds(x, y) && !on_path(i0, j0, ci as int, cj as int, x, y)
                    ==> #[trigger] matrix.at(x, y) == old(matrix).at(x, y),
            forall|x: int, y: int|
                on_path(i0, j0, ci as int, cj as int, x, y) && (x != ci as int || y != cj as int)
                    ==> #[trigger] matrix.at(x, y) == empty_cell(),
            forall|x: int, y: int|
                on_path(i0, j0, ci as int, cj as int, x, y) && (x != i0 || y != j0) ==> old(
                    matrix,
                ).in_bounds(x, y) && (#[trigger] old(matrix).at(x, y)).value == 0,
            forall|k: int|
                0 <= k < old(matrix).grid().len() && (#[trigger] old(matrix).grid()[k]).value != 0
                    && k != i0 * cols + j0 ==> matrix.grid()[k] == old(matrix).grid()[k],
            sum_vals(matrix.grid()) == sum_vals(old(matrix).grid()),
            tiles_mset(matrix.grid()) == tiles_mset(old(matrix).grid()),
            all_tiles(old(matrix).grid()) ==> all_tiles(matrix.grid()),
            forall|k: int|
                0 <= k < matrix.grid().len() && (#[trigger] matrix.grid()[k]).state == Some(
                    CellState::New,
                ) ==> old(matrix).grid()[k].state == Some(CellState::New),
            merged_nonzero(old(matrix).grid()) ==> forall|k: int|
                0 <= k < matrix.grid().len() ==> (((#[trigger] matrix.grid()[k]).state == Some(
                    CellState::Merged,
                )) <==> (old(matrix).grid()[k].state == Some(CellState::Merged))),
        ensures
            !matrix.in_bounds(ci as int + dr, cj as int + dc) || matrix.at(
                ci as int + dr,
                cj as int + dc,
            ).value != 0,
        decreases (if dr == 1 {
            rows - 1 - ci as int
        } else {
            ci as int
        }) + (if dc == 1 {
            cols - 1 - cj as int
        } else {
            cj as int
        }),
    {
        let next_i = if row_offset == -1 {
            ci - 1
        } else if row_offset == 1 {
            ci + 1
        } else {
            ci
        };
        let next_j = if col_offset == -1 {
            cj - 1
        } else if col_offset == 1 {
            cj + 1
        } else {
            cj
        };

        if matrix.get(next_i, next_j).value != 0 {
            break;
        }

        let ghost m1 = *matrix;
        let ghost g1 = matrix.grid();
        let ghost ci0 = ci as int;
        let ghost cj0 = cj as int;
        let ghost ni = next_i as int;
        let ghost nj = next_j as int;

        let mut moving_tile = matrix.get(ci, cj);
        moving_tile.state = Some(CellState::Moved);
        if moving_tile.prev.is_none() {
            moving_tile.prev = Some((ci as isize, cj as isize));
        }
        let ghost mv = moving_tile;

        matrix.set(next_i, next_j, moving_tile);
        let ghost u1 = matrix.grid();
        matrix.set(ci, cj, make_empty_cell());
        let ghost u2 = matrix.grid();

        proof {
            let k1 = ni * cols + nj;
            let k2 = ci0 * cols + cj0;
            lemma_flat_in_range(rows, cols, ni, nj);
            lemma_flat_in_range(rows, cols, ci0, cj0);
            lemma_flat_in_range(rows, cols, i0, j0);
            if k1 == k2 {
                lemma_flat_injective(cols, ni, nj, ci0, cj0);
                assert(false);
            }
            // the moving tile keeps its value and remembers where it started
            assert(mv == (Cell {
                value: v0,
                state: Some(CellState::Moved),
                prev: Some((*old(current_i) as isize, *old(current_j) as isize)),
            }));
            // the neighbour was empty at the start of the whole chain
            assert(m1.at(ni, nj).value == 0);
            if ci0 == i0 && cj0 == j0 {
                assert(g1[k1] == old(matrix).grid()[k1]);
                assert(old(matrix).at(ni, nj).value == 0);
            } else {
                if on_path(i0, j0, ci0, cj0, ni, nj) {
                    assert(ni != ci0 || nj != cj0);
                    assert(old(matrix).at(ni, nj).value == 0);
                } else {
                    assert(m1.at(ni, nj) == old(matrix).at(ni, nj));
                    assert(old(matrix).at(ni, nj).value == 0);
                }
            }
            // sum is preserved: the target was empty, the source is emptied
            lemma_sum_update(g1, k1, mv);
            lemma_sum_update(u1, k2, empty_cell());
            assert(g1[k1].value == 0);
            assert(u1[k2] == g1[k2]);
            assert(g1[k2].value == v0);
            // the settled multiset is preserved likewise
            lemma_mset_update(g1, k1, mv);
            lemma_mset_update(u1, k2, empty_cell());
            assert(tile_contrib(g1[k1]) =~= Multiset::empty());
            assert(tile_contrib(empty_cell()) =~= Multiset::empty());
            assert(tiles_mset(u1).add(Multiset::empty()) =~= tiles_mset(u1));
            assert(tiles_mset(g1).add(Multiset::empty()) =~= tiles_mset(g1));
            assert(tiles_mset(u1) == tiles_mset(g1).add(tile_contrib(mv)));
            assert(tiles_mset(u2).add(tile_contrib(u1[k2])) == tiles_mset(u1));
            assert(tile_contrib(u1[k2]) =~= tile_contrib(mv));
            lemma_mset_cancel(tiles_mset(u2), tiles_mset(g1), tile_contrib(mv));
            // cells off the extended path are exactly as they started
            assert forall|x: int, y: int|
                old(matrix).in_bounds(x, y) && !on_path(i0, j0, ni, nj, x, y) implies #[trigger] matrix.at(
                x,
                y,
            ) == old(matrix).at(x, y) by {
                lemma_flat_in_range(rows, cols, x, y);
                let k = x * cols + y;
                if k == k1 {
                    lemma_flat_injective(cols, x, y, ni, nj);
                    assert(false);
                }
                if k == k2 {
                    lemma_flat_injective(cols, x, y, ci0, cj0);
                    assert(false);
                }
                assert(!on_path(i0, j0, ci0, cj0, x, y));
                assert(m1.at(x, y) == old(matrix).at(x, y));
            }
            // everything on the path except the tile's new cell is empty
            assert forall|x: int, y: int|
                on_path(i0, j0, ni, nj, x, y) && (x != ni || y != nj) implies #[trigger] matrix.at(
                x,
                y,
            ) == empty_cell() by {
                lemma_flat_in_range(rows, cols, x, y);
                let k = x * cols + y;
                if k == k1 {
                    lemma_flat_injective(cols, x, y, ni, nj);
                    assert(false);
                }
                if x == ci0 && y == cj0 {
                } else {
                    if k == k2 {
                        lemma_flat_injective(cols, x, y, ci0, cj0);
                        assert(false);
                    }
                    assert(on_path(i0, j0, ci0, cj0, x, y));
                    assert(m1.at(x, y) == empty_cell());
                }
            }
            // everything on the path except the origin started out empty
            assert forall|x: int, y: int|
                on_path(i0, j0, ni, nj, x, y) && (x != i0 || y != j0) implies old(
                matrix,
            ).in_bounds(x, y) && (#[trigger] old(matrix).at(x, y)).value == 0 by {
                if x == ni && y == nj {
                } else {
                    assert(on_path(i0, j0, ci0, cj0, x, y));
                }
            }
            // tiles that are not the moving one stay exactly in place
            assert forall|k: int|
                0 <= k < old(matrix).grid().len() && (#[trigger] old(matrix).grid()[k]).value != 0
                    && k != i0 * cols + j0 implies u2[k] == old(matrix).grid()[k] by {
                assert(old(matrix).grid()[k1].value == 0);
                if k == k2 {
                    assert(ci0 != i0 || cj0 != j0);
                    assert(on_path(i0, j0, ci0, cj0, ci0, cj0));
                    assert(old(matrix).at(ci0, cj0).value == 0);
                    assert(false);
                }
                assert(u2[k] == g1[k]);
            }
            // annotation bookkeeping across the two cell writes
            assert forall|k: int|
                0 <= k < u2.len() && (#[trigger] u2[k]).state == Some(CellState::New) implies old(
                matrix,
            ).grid()[k].state == Some(CellState::New) by {
                if k != k1 && k != k2 {
                    assert(u2[k] == g1[k]);
                }
            }
            if merged_nonzero(old(matrix).grid()) {
                assert forall|k: int| 0 <= k < u2.len() implies (((#[trigger] u2[k]).state == Some(
                    CellState::Merged,
                )) <==> (old(matrix).grid()[k].state == Some(CellState::Merged))) by {
                    if k == k1 {
                        assert(u2[k1].state == Some(CellState::Moved));
                        assert(old(matrix).at(ni, nj).value == 0);
                        assert(old(matrix).grid()[k1].state != Some(CellState::Merged));
                    } else if k == k2 {
                        assert(u2[k2].state is None);
                        if ci0 == i0 && cj0 == j0 {
                            assert(old(matrix).grid()[k2].state is None);
                        } else {
                            assert(on_path(i0, j0, ci0, cj0, ci0, cj0));
                            assert(old(matrix).at(ci0, cj0).value == 0);
                            assert(old(matrix).grid()[k2].state != Some(CellState::Merged));
                        }
                    } else {
                        assert(u2[k] == g1[k]);
                    }
                }
            }
            if all_tiles(old(matrix).grid()) {
                assert forall|k: int| 0 <= k < u2.len() implies is_tile_value(
                    (#[trigger] u2[k]).value as nat,
                ) by {
                    if k == k1 {
                        assert(mv.value == old(matrix).grid()[i0 * cols + j0].value);
                    } else if k == k2 {
                    } else {
                        assert(u2[k] == g1[k]);
                    }
                }
            }
        }

        ci = next_i;
        cj = next_j;
        has_moved = true;
    }

    *current_i = ci;
    *current_j = cj;
    has_moved
}

/// Merge the tile at `(current_i, current_j)` into the neighbour one step
/// along the offsets, exactly when that neighbour is on the board, holds
/// an equal value, and has not already absorbed a merge this turn (the
/// per-move flag board `merged` tracks that).  On a merge the neighbour's
/// value doubles, it is marked `Merged`, it records the source coordinate
/// unless an origin was already set, and the source cell is emptied of
/// its value.  The sum of values is unchanged.
fn merge_tiles(
    matrix: &mut Matrix,
    merged: &mut Vec<bool>,
    current_i: usize,
    current_j: usize,
    row_offset: i8,
    col_offset: i8,
) -> (r: bool)
    requires
        old(matrix).wf(),
        unit_delta(row_offset as int, col_offset as int),
        old(matrix).in_bounds(current_i as int, current_j as int),
        old(matrix).at(current_i as int, current_j as int).value != 0,
        old(matrix).at(current_i as int, current_j as int).state != Some(CellState::Merged),
        old(matrix).at(current_i as int, current_j as int).state != Some(CellState::New),
        old(merged)@.len() == old(matrix).grid().len(),
        sum_vals(old(matrix).grid()) <= 0xffff,
    ensures
        final(matrix).wf(),
        final(matrix).spec_rows() == old(matrix).spec_rows(),
        final(matrix).spec_cols() == old(matrix).spec_cols(),
        final(merged)@.len() == old(merged)@.len(),
        r == (old(matrix).in_bounds(
            current_i as int + row_offset as int,
            current_j as int + col_offset as int,
        ) && old(matrix).at(
            current_i as int + row_offset as int,
            current_j as int + col_offset as int,
        ).value == old(matrix).at(current_i as int, current_j as int).value && !old(
            merged,
        )@[(current_i as int + row_offset as int) * old(matrix).spec_cols() + (
        current_j as int + col_offset as int)]),
        !r ==> *final(matrix) == *old(matrix) && final(merged)@ == old(merged)@,
        r ==> final(matrix).at(current_i as int, current_j as int) == (Cell {
            value: 0,
            state: old(matrix).at(current_i as int, current_j as int).state,
            prev: old(matrix).at(current_i as int, current_j as int).prev,
        }),
        r ==> final(matrix).at(
            current_i as int + row_offset as int,
            current_j as int + col_offset as int,
        ) == (Cell {
            value: (2 * old(matrix).at(current_i as int, current_j as int).value) as u16,
            state: Some(CellState::Merged),
            prev: if old(matrix).at(
                current_i as int + row_offset as int,
                current_j as int + col_offset as int,
            ).prev is Some {
                old(matrix).at(
                    current_i as int + row_offset as int,
                    current_j as int + col_offset as int,
                ).prev
            } else {
                Some((current_i as isize, current_j as isize))
            },
        }),
        r ==> forall|x: int, y: int|
            old(matrix).in_bounds(x, y) && (x != current_i as int || y != current_j as int) && (x
                != current_i as int + row_offset as int || y != current_j as int
                + col_offset as int) ==> #[trigger] final(matrix).at(x, y) == old(matrix).at(x, y),
        r ==> final(merged)@ == old(merged)@.update(
            (current_i as int + row_offset as int) * old(matrix).spec_cols() + (
            current_j as int + col_offset as int),
            true,
        ),
        sum_vals(final(matrix).grid()) == sum_vals(old(matrix).grid()),
        all_tiles(old(matrix).grid()) ==> all_tiles(final(matrix).grid()),
        forall|k: int|
            0 <= k < final(matrix).grid().len() && (#[trigger] final(matrix).grid()[k]).state
                == Some(CellState::New) ==> old(matrix).grid()[k].state == Some(CellState::New),
        merged_nonzero(old(matrix).grid()) ==> merged_nonzero(final(matrix).grid()),
        r ==> !no_merged(final(matrix).grid()),
{
    let ghost ci = current_i as int;
    let ghost cj = current_j as int;
    let ghost dr = row_offset as int;
    let ghost dc = col_offset as int;
    let ghost rows = old(matrix).spec_rows();
    let ghost cols = old(matrix).spec_cols();
    let ghost g0 = old(matrix).grid();

    if is_within_bounds(matrix, current_i, current_j, row_offset, col_offset) {
        let next_i = if row_offset == -1 {
            current_i - 1
        } else if row_offset == 1 {
            current_i + 1
        } else {
            current_i
        };
        let next_j = if col_offset == -1 {
            current_j - 1
        } else if col_offset == 1 {
            current_j + 1
        } else {
            current_j
        };
        let ghost ni = next_i as int;
        let ghost nj = next_j as int;

        proof {
            lemma_flat_fits(rows, cols, ni, nj);
            lemma_flat_in_range(rows, cols, ci, cj);
            if ni * cols + nj == ci * cols + cj {
                lemma_flat_injective(cols, ni, nj, ci, cj);
                assert(false);
            }
        }
        let cols_exec = matrix.col_count();
        let flag_index = next_i * cols_exec + next_j;

        let source = matrix.get(current_i, current_j);
        let target = matrix.get(next_i, next_j);

        if source == target && !merged[flag_index] {
            let ghost k1 = ci * cols + cj;
            let ghost k2 = ni * cols + nj;
            proof {
                lemma_sum_pair(g0, k1, k2);
                lemma_sum_nonneg(g0);
            }
            matrix.set(
                current_i,
                current_j,
                Cell { value: 0, state: source.state, prev: source.prev },
            );
            let ghost u1 = matrix.grid();
            merged.set(flag_index, true);
            let new_value = target.value * 2;
            let new_prev = if target.prev.is_none() {
                Some((current_i as isize, current_j as isize))
            } else {
                target.prev
            };
            matrix.set(
                next_i,
                next_j,
                Cell { value: new_value, state: Some(CellState::Merged), prev: new_prev },
            );
            let ghost u2 = matrix.grid();
            proof {
                lemma_sum_update(g0, k1, u1[k1]);
                assert(u1[k2] == g0[k2]);
                lemma_sum_update(u1, k2, u2[k2]);
                assert forall|x: int, y: int|
                    old(matrix).in_bounds(x, y) && (x != ci || y != cj) && (x != ni || y != nj)
                        implies #[trigger] matrix.at(x, y) == old(matrix).at(x, y) by {
                    lemma_flat_in_range(rows, cols, x, y);
                    let k = x * cols + y;
                    if k == k1 {
                        lemma_flat_injective(cols, x, y, ci, cj);
                        assert(false);
                    }
                    if k == k2 {
                        lemma_flat_injective(cols, x, y, ni, nj);
                        assert(false);
                    }
                }
                if all_tiles(g0) {
                    assert forall|k: int| 0 <= k < u2.len() implies is_tile_value(
                        (#[trigger] u2[k]).value as nat,
                    ) by {
                        if k == k2 {
                            assert(is_tile_value(g0[k2].value as nat));
                            assert(g0[k2].value != 0);
                            lemma_tile_double(g0[k2].value as nat);
                        } else if k == k1 {
                        } else {
                            assert(u2[k] == g0[k]);
                        }
                    }
                }
                assert(!no_merged(u2)) by {
                    assert(u2[k2].state == Some(CellState::Merged));
                }
            }
            return true;
        }
    }
    false
}

/// Coordinate `(x, y)` has already been visited when the traversal is
/// about to process the cell at outer step `a`, inner step `b`.
pub open spec fn processed(
    dr: int,
    dc: int,
    rows: int,
    cols: int,
    x: int,
    y: int,
    a: int,
    b: int,
) -> bool {
    ||| iter_index(dr, rows, x) < a
    ||| (iter_index(dr, rows, x) == a && iter_index(dc, cols, y) < b)
}

/// The tile at `(x, y)`, if there is one, is packed along `(dr, dc)`:
/// the cell one step toward the collapse side is off the board or holds
/// a tile too.
pub open spec fn packed_tile(m: Matrix, dr: int, dc: int, x: int, y: int) -> bool {
    (m.in_bounds(x, y) && m.at(x, y).value != 0 && m.in_bounds(x + dr, y + dc)) ==> m.at(
        x + dr,
        y + dc,
    ).value != 0
}

/// What a completed move left behind, relative to the board `m0` it
/// started from: either the board had no room and no tile was spawned
/// (the settled sum is unchanged and nothing is marked `New`), or exactly
/// one cell holds a fresh 2 or 4 marked `New` and accounts for the whole
/// change of the sum.
pub open spec fn move_outcome(m0: Matrix, m1: Matrix) -> bool {
    ||| (sum_vals(m1.grid()) == sum_vals(m0.grid()) && no_new(m1.grid()) && (forall|
        x: int,
        y: int,
    |
        m1.in_bounds(x, y) ==> (#[trigger] m1.at(x, y)).value != 0))
    ||| (exists|x: int, y: int| spawned_cell(m0, m1, x, y))
}

/// Cell `(x, y)` of `m1` is the one tile spawned since `m0`: a fresh 2
/// or 4 marked `New`, the only `New` cell, accounting for the whole
/// change of the sum of values.
pub open spec fn spawned_cell(m0: Matrix, m1: Matrix, x: int, y: int) -> bool {
    &&& m1.in_bounds(x, y)
    &&& (m1.at(x, y).value == 2 || m1.at(x, y).value == 4)
    &&& m1.at(x, y).state == Some(CellState::New)
    &&& sum_vals(m1.grid()) == sum_vals(m0.grid()) + m1.at(x, y).value
    &&& forall|k: int|
        0 <= k < m1.grid().len() && k != m1.flat(x, y) ==> (#[trigger] m1.grid()[k]).state != Some(
            CellState::New,
        )
}

/// A board and its annotation-cleared copy admit the same moves:
/// whether a tile can slide or merge depends on values alone.
proof fn lemma_can_change_cleared(m0: Matrix, m1: Matrix, dr: int, dc: int)
    requires
        m0.wf(),
        m1.wf(),
        m1.spec_rows() == m0.spec_rows(),
        m1.spec_cols() == m0.spec_cols(),
        m1.grid() == cleared(m0.grid()),
    ensures
        can_change(m1, dr, dc) == can_change(m0, dr, dc),
{
    assert forall|x: int, y: int| m0.in_bounds(x, y) implies (#[trigger] m1.at(x, y)).value == m0.at(
        x,
        y,
    ).value by {
        lemma_flat_in_range(m0.spec_rows(), m0.spec_cols(), x, y);
    }
    if can_change(m0, dr, dc) {
        let (i, j) = choose|i: int, j: int| cell_can_change(m0, dr, dc, i, j);
        assert(cell_can_change(m1, dr, dc, i, j));
    }
    if can_change(m1, dr, dc) {
        let (i, j) = choose|i: int, j: int| cell_can_change(m1, dr, dc, i, j);
        assert(cell_can_change(m0, dr, dc, i, j));
    }
}

/// What a spawn did: the previously empty cell `(x, y)` now holds a
/// fresh tile of value `v` (2 or 4) marked `New`, and nothing else
/// changed.
pub open spec fn spawn_outcome(m0: Matrix, m1: Matrix, x: int, y: int, v: u16) -> bool {
    &&& m0.in_bounds(x, y)
    &&& m0.at(x, y).value == 0
    &&& (v == 2 || v == 4)
    &&& m1.grid() == m0.grid().update(
        m0.flat(x, y),
        Cell { value: v, state: Some(CellState::New), prev: m0.at(x, y).prev },
    )
}

/// The two values a spawn can produce are legal tile values.
proof fn lemma_spawn_values_are_tiles()
    ensures
        is_tile_value(2),
        is_tile_value(4),
{
    assert(is_pow2(1));
    assert(is_pow2(2));
}

/// Apply one directional move to the whole board: clear all transient
/// annotations, then traverse from the side the board collapses toward,
/// sliding each tile as far as it goes and merging it into an equal
/// neighbour at most once per destination cell; finally, exactly when
/// something slid or merged, spawn one new tile.
///
/// Returns whether the board changed, which happens exactly when some
/// tile had an empty or equal neighbour one step along the direction.
/// When nothing changes the board is left as received, annotations
/// cleared and no tile spawned.
pub fn move_matrix<R: RandomSource>(matrix: &mut Matrix, dir: Direction, rng: &mut R) -> (changed:
    bool)
    requires
        old(matrix).wf(),
        sum_vals(old(matrix).grid()) <= 0xffff,
    ensures
        final(matrix).wf(),
        final(matrix).spec_rows() == old(matrix).spec_rows(),
        final(matrix).spec_cols() == old(matrix).spec_cols(),
        changed == can_change(*old(matrix), dir.spec_row_delta(), dir.spec_col_delta()),
        !changed ==> final(matrix).grid() == cleared(old(matrix).grid()),
        !changed ==> sum_vals(final(matrix).grid()) == sum_vals(old(matrix).grid()),
        changed ==> move_outcome(*old(matrix), *final(matrix)),
        all_tiles(old(matrix).grid()) ==> all_tiles(final(matrix).grid()),
        no_merged(final(matrix).grid()) ==> tiles_mset(final(matrix).grid()) == tiles_mset(
            cleared(old(matrix).grid()),
        ),
        forall|x: int, y: int|
            final(matrix).in_bounds(x, y) && (#[trigger] final(matrix).at(x, y)).value != 0
                && final(matrix).at(x, y).state != Some(CellState::New)
                && final(matrix).in_bounds(x + dir.spec_row_delta(), y + dir.spec_col_delta())
                ==> final(matrix).at(
                x + dir.spec_row_delta(),
                y + dir.spec_col_delta(),
            ).value != 0,
{
    reset_tile_states(matrix);
    let ghost m_start = *matrix;
    let ghost sum0 = sum_vals(old(matrix).grid());
    let ghost mset0 = tiles_mset(m_start.grid());

    proof {
        lemma_sum_cleared(old(matrix).grid());
        assert(no_merged(m_start.grid()));
        assert(merged_nonzero(m_start.grid()));
        assert(no_new(m_start.grid()));
        if all_tiles(old(matrix).grid()) {
            assert forall|k: int| 0 <= k < m_start.grid().len() implies is_tile_value(
                (#[trigger] m_start.grid()[k]).value as nat,
            ) by {
                assert(m_start.grid()[k].value == old(matrix).grid()[k].value);
            }
        }
    }

    let (row_offset, col_offset) = dir.to_tuple();
    let ghost dr = row_offset as int;
    let ghost dc = col_offset as int;
    let rows = matrix.row_count();
    let cols = matrix.col_count();
    let ghost grows = matrix.spec_rows();
    let ghost gcols = matrix.spec_cols();

    proof {
        assert(unit_delta(dr, dc));
        assert(grows * gcols == matrix.grid().len());
    }
    let n = matrix.cell_count();

    let mut merged: Vec<bool> = Vec::new();
    while merged.len() < n
        invariant
            n == m_start.grid().len(),
            merged@.len() <= n,
            forall|t: int| 0 <= t < merged@.len() ==> !(#[trigger] merged@[t]),
        decreases n - merged@.len(),
    {
        merged.push(false);
    }

    let mut has_changed = false;

    let row_range = get_iteration_range(row_offset, rows);
    let mut a: usize = 0;
    while a < rows
        invariant
            matrix.wf(),
            matrix.spec_rows() == grows,
            matrix.spec_cols() == gcols,
            merged@.len() == matrix.grid().len(),
            unit_delta(dr, dc),
            dr == row_offset as int,
            dc == col_offset as int,
            rows as int == grows,
            cols as int == gcols,
            m_start.wf(),
            grows == m_start.spec_rows(),
            gcols == m_start.spec_cols(),
            m_start.grid() == cleared(old(matrix).grid()),
            old(matrix).wf(),
            sum_vals(old(matrix).grid()) == sum0,
            sum_vals(m_start.grid()) == sum0,
            sum0 <= 0xffff,
            mset0 == tiles_mset(m_start.grid()),
            row_range@.len() == rows,
            forall|k: int|
                0 <= k < rows ==> (#[trigger] row_range@[k]) as int == iter_index(dr, grows, k),
            a <= rows,
            sum_vals(matrix.grid()) == sum0,
            all_tiles(old(matrix).grid()) ==> all_tiles(matrix.grid()),
            no_new(matrix.grid()),
            merged_nonzero(matrix.grid()),
            forall|x: int, y: int|
                m_start.in_bounds(x, y) && !processed(dr, dc, grows, gcols, x, y, a as int, 0)
                    ==> #[trigger] matrix.at(x, y) == m_start.at(x, y),
            !has_changed ==> matrix.grid() == m_start.grid(),
            !has_changed ==> forall|t: int| 0 <= t < merged@.len() ==> !(#[trigger] merged@[t]),
            !has_changed ==> forall|x: int, y: int|
                #[trigger] processed(dr, dc, grows, gcols, x, y, a as int, 0)
                    && m_start.in_bounds(x, y) ==> !cell_can_change(m_start, dr, dc, x, y),
            has_changed ==> can_change(m_start, dr, dc),
            no_merged(matrix.grid()) ==> tiles_mset(matrix.grid()) == mset0,
            forall|x: int, y: int|
                #[trigger] processed(dr, dc, grows, gcols, x, y, a as int, 0)
                    && m_start.in_bounds(x, y) ==> packed_tile(*matrix, dr, dc, x, y),
        decreases rows - a,
    {
        let i = row_range[a];
        let col_range = get_iteration_range(col_offset, cols);
        let mut b: usize = 0;
        while b < cols
            invariant
                matrix.wf(),
                matrix.spec_rows() == grows,
                matrix.spec_cols() == gcols,
                merged@.len() == matrix.grid().len(),
                unit_delta(dr, dc),
                dr == row_offset as int,
                dc == col_offset as int,
                rows as int == grows,
                cols as int == gcols,
                m_start.wf(),
                grows == m_start.spec_rows(),
                gcols == m_start.spec_cols(),
                m_start.grid() == cleared(old(matrix).grid()),
                old(matrix).wf(),
                sum_vals(old(matrix).grid()) == sum0,
                sum_vals(m_start.grid()) == sum0,
                sum0 <= 0xffff,
                mset0 == tiles_mset(m_start.grid()),
                a < rows,
                b <= cols,
                i as int == iter_index(dr, grows, a as int),
                i < rows,
                col_range@.len() == cols,
                forall|k: int|
                    0 <= k < cols ==> (#[trigger] col_range@[k]) as int == iter_index(dc, gcols, k),
                sum_vals(matrix.grid()) == sum0,
                all_tiles(old(matrix).grid()) ==> all_tiles(matrix.grid()),
                no_new(matrix.grid()),
                merged_nonzero(matrix.grid()),
                forall|x: int, y: int|
                    m_start.in_bounds(x, y) && !processed(
                        dr,
                        dc,
                        grows,
                        gcols,
                        x,
                        y,
                        a as int,
                        b as int,
                    ) ==> #[trigger] matrix.at(x, y) == m_start.at(x, y),
                !has_changed ==> matrix.grid() == m_start.grid(),
                !has_changed ==> forall|t: int|
                    0 <= t < merged@.len() ==> !(#[trigger] merged@[t]),
                !has_changed ==> forall|x: int, y: int|
                    #[trigger] processed(dr, dc, grows, gcols, x, y, a as int, b as int)
                        && m_start.in_bounds(x, y) ==> !cell_can_change(m_start, dr, dc, x, y),
                has_changed ==> can_change(m_start, dr, dc),
                no_merged(matrix.grid()) ==> tiles_mset(matrix.grid()) == mset0,
                forall|x: int, y: int|
                    #[trigger] processed(dr, dc, grows, gcols, x, y, a as int, b as int)
                        && m_start.in_bounds(x, y) ==> packed_tile(*matrix, dr, dc, x, y),
            decreases cols - b,
        {
            let j = col_range[b];
            let ghost gi = i as int;
            let ghost gj = j as int;
            proof {
                assert(iter_index(dr, grows, gi) == a as int);
                assert(iter_index(dc, gcols, gj) == b as int);
                assert(!processed(dr, dc, grows, gcols, gi, gj, a as int, b as int));
                assert(matrix.at(gi, gj) == m_start.at(gi, gj));
                lemma_flat_in_range(grows, gcols, gi, gj);
            }
            if matrix.get(i, j).value != 0 {
                let ghost pre_changed = has_changed;
                let ghost m_pre = *matrix;
                let mut current_i = i;
                let mut current_j = j;
                let moved = move_tile(
                    matrix,
                    &mut current_i,
                    &mut current_j,
                    row_offset,
                    col_offset,
                );
                let ghost m_mid = *matrix;
                let ghost ci = current_i as int;
                let ghost cj = current_j as int;
                if moved {
                    has_changed = true;
                }
                let merged_now = merge_tiles(
                    matrix,
                    &mut merged,
                    current_i,
                    current_j,
                    row_offset,
                    col_offset,
                );
                if merged_now {
                    has_changed = true;
                }
                proof {
                    let ghost ni = ci + dr;
                    let ghost nj = cj + dc;
                    lemma_flat_in_range(grows, gcols, ci, cj);
                    // the region not yet traversed is still exactly the reset board
                    assert forall|x: int, y: int|
                        m_start.in_bounds(x, y) && !processed(
                            dr,
                            dc,
                            grows,
                            gcols,
                            x,
                            y,
                            a as int,
                            b as int + 1,
                        ) implies #[trigger] matrix.at(x, y) == m_start.at(x, y) by {
                        assert(!processed(dr, dc, grows, gcols, x, y, a as int, b as int));
                        if on_path(gi, gj, ci, cj, x, y) {
                            assert(processed(dr, dc, grows, gcols, x, y, a as int, b as int + 1));
                            assert(false);
                        }
                        assert(m_mid.at(x, y) == m_pre.at(x, y));
                        if x == ni && y == nj {
                            assert(processed(dr, dc, grows, gcols, x, y, a as int, b as int + 1));
                            assert(false);
                        }
                        assert(matrix.at(x, y) == m_mid.at(x, y));
                    }
                    // whether the move changed anything, and why
                    if !has_changed {
                        assert(matrix.grid() == m_start.grid());
                        assert forall|x: int, y: int|
                            #[trigger] processed(dr, dc, grows, gcols, x, y, a as int, b as int + 1)
                                && m_start.in_bounds(x, y) implies !cell_can_change(
                            m_start,
                            dr,
                            dc,
                            x,
                            y,
                        ) by {
                            if !processed(dr, dc, grows, gcols, x, y, a as int, b as int) {
                                assert(x == gi && y == gj);
                                assert(!(m_pre.in_bounds(gi + dr, gj + dc) && m_pre.at(
                                    gi + dr,
                                    gj + dc,
                                ).value == 0));
                                if m_pre.in_bounds(gi + dr, gj + dc) {
                                    lemma_flat_in_range(grows, gcols, gi + dr, gj + dc);
                                    assert(!merged@[(gi + dr) * gcols + (gj + dc)]);
                                    assert(m_pre.at(gi + dr, gj + dc).value != m_pre.at(
                                        gi,
                                        gj,
                                    ).value);
                                }
                            }
                        }
                    } else if !pre_changed {
                        assert(cell_can_change(m_start, dr, dc, gi, gj));
                        assert(can_change(m_start, dr, dc));
                    }
                    // a merge destination still holds a tile
                    assert forall|k: int|
                        0 <= k < m_mid.grid().len() && (#[trigger] m_mid.grid()[k]).state == Some(
                            CellState::Merged,
                        ) implies m_mid.grid()[k].value != 0 by {
                        assert(m_pre.grid()[k].state == Some(CellState::Merged));
                        if k == gi * gcols + gj {
                            assert(false);
                        }
                        assert(m_mid.grid()[k] == m_pre.grid()[k]);
                    }
                    // once nothing is marked merged, the settled values are intact
                    if no_merged(matrix.grid()) {
                        if merged_now {
                            assert(!no_merged(matrix.grid()));
                            assert(false);
                        }
                        assert forall|k: int|
                            0 <= k < m_pre.grid().len() implies (#[trigger] m_pre.grid()[k]).state
                                != Some(CellState::Merged) by {
                            if m_pre.grid()[k].state == Some(CellState::Merged) {
                                assert(m_pre.grid()[k].value != 0);
                                if k == gi * gcols + gj {
                                    assert(false);
                                }
                                assert(m_mid.grid()[k] == m_pre.grid()[k]);
                                assert(matrix.grid()[k].state == Some(CellState::Merged));
                                assert(false);
                            }
                        }
                        assert(tiles_mset(m_pre.grid()) == mset0);
                    }
                    // every tile settled so far is packed against the direction
                    assert forall|x: int, y: int|
                        #[trigger] processed(dr, dc, grows, gcols, x, y, a as int, b as int + 1)
                            && m_start.in_bounds(x, y) implies packed_tile(
                        *matrix,
                        dr,
                        dc,
                        x,
                        y,
                    ) by {
                        if matrix.at(x, y).value != 0 && matrix.in_bounds(x + dr, y + dc) {
                            let nx = x + dr;
                            let ny = y + dc;
                            if x == ci && y == cj {
                                // the tile handled this step: it stopped because the
                                // next cell is occupied, unless the merge emptied it
                                if merged_now {
                                    assert(matrix.at(x, y).value == 0);
                                    assert(false);
                                } else {
                                    assert(m_mid.at(nx, ny).value != 0);
                                    assert(matrix.at(nx, ny) == m_mid.at(nx, ny));
                                }
                            } else if merged_now && x == ni && y == nj {
                                // the merge destination doubled in place; it was
                                // already settled and packed, and its own neighbour
                                // is beyond the slide path, hence untouched
                                assert(processed(dr, dc, grows, gcols, x, y, a as int, b as int));
                                assert(packed_tile(m_pre, dr, dc, x, y));
                                assert(!on_path(gi, gj, ci, cj, x, y));
                                assert(m_mid.at(x, y) == m_pre.at(x, y));
                                assert(m_mid.at(ci, cj).value != 0);
                                assert(m_pre.at(x, y).value != 0);
                                assert(m_pre.at(nx, ny).value != 0);
                                assert(!on_path(gi, gj, ci, cj, nx, ny));
                                assert(m_mid.at(nx, ny) == m_pre.at(nx, ny));
                                assert(nx != ci || ny != cj);
                                assert(nx != ni || ny != nj);
                                assert(matrix.at(nx, ny) == m_mid.at(nx, ny));
                            } else {
                                // a tile settled in an earlier step
                                if on_path(gi, gj, ci, cj, x, y) {
                                    assert(m_mid.at(x, y) == empty_cell());
                                    if merged_now {
                                        assert(x != ni || y != nj);
                                        assert(matrix.at(x, y) == m_mid.at(x, y));
                                    }
                                    assert(false);
                                }
                                if !processed(dr, dc, grows, gcols, x, y, a as int, b as int) {
                                    assert(x == gi && y == gj);
                                    assert(on_path(gi, gj, ci, cj, x, y));
                                    assert(false);
                                }
                                assert(packed_tile(m_pre, dr, dc, x, y));
                                assert(m_mid.at(x, y) == m_pre.at(x, y));
                                if merged_now {
                                    assert(x != ni || y != nj);
                                    assert(matrix.at(x, y) == m_mid.at(x, y));
                                }
                                assert(m_pre.at(x, y).value != 0);
                                assert(m_pre.at(nx, ny).value != 0);
                                if on_path(gi, gj, ci, cj, nx, ny) {
                                    // a tile on the slide path must be its origin,
                                    // which puts (x, y) one step beyond the cell
                                    // being handled: not processed yet
                                    assert(nx == gi && ny == gj);
                                    assert(!processed(
                                        dr,
                                        dc,
                                        grows,
                                        gcols,
                                        x,
                                        y,
                                        a as int,
                                        b as int + 1,
                                    ));
                                    assert(false);
                                }
                                if merged_now && nx == ni && ny == nj {
                                    assert(matrix.at(nx, ny).value != 0);
                                } else {
                                    if nx == ci && ny == cj {
                                        assert(false);
                                    }
                                    assert(m_mid.at(nx, ny) == m_pre.at(nx, ny));
                                    if merged_now {
                                        assert(matrix.at(nx, ny) == m_mid.at(nx, ny));
                                    }
                                    assert(matrix.at(nx, ny).value != 0);
                                }
                            }
                        }
                    }
                }
            } else {
                proof {
                    if !has_changed {
                        assert forall|x: int, y: int|
                            #[trigger] processed(dr, dc, grows, gcols, x, y, a as int, b as int + 1)
                                && m_start.in_bounds(x, y) implies !cell_can_change(
                            m_start,
                            dr,
                            dc,
                            x,
                            y,
                        ) by {
                            if !processed(dr, dc, grows, gcols, x, y, a as int, b as int) {
                                assert(x == gi && y == gj);
                                assert(m_start.at(gi, gj).value == 0);
                            }
                        }
                    }
                    assert forall|x: int, y: int|
                        #[trigger] processed(dr, dc, grows, gcols, x, y, a as int, b as int + 1)
                            && m_start.in_bounds(x, y) implies packed_tile(
                        *matrix,
                        dr,
                        dc,
                        x,
                        y,
                    ) by {
                        if processed(dr, dc, grows, gcols, x, y, a as int, b as int) {
                        } else {
                            assert(x == gi && y == gj);
                            assert(matrix.at(x, y).value == 0);
                        }
                    }
                }
            }
            b = b + 1;
        }
        proof {
            if !has_changed {
                assert forall|x: int, y: int|
                    #[trigger] processed(dr, dc, grows, gcols, x, y, a as int + 1, 0)
                        && m_start.in_bounds(x, y) implies !cell_can_change(
                    m_start,
                    dr,
                    dc,
                    x,
                    y,
                ) by {
                    assert(processed(dr, dc, grows, gcols, x, y, a as int, cols as int));
                }
            }
            assert forall|x: int, y: int|
                #[trigger] processed(dr, dc, grows, gcols, x, y, a as int + 1, 0)
                    && m_start.in_bounds(x, y) implies packed_tile(*matrix, dr, dc, x, y) by {
                assert(processed(dr, dc, grows, gcols, x, y, a as int, cols as int));
            }
        }
        a = a + 1;
    }

    if has_changed {
        let ghost m_coll = *matrix;
        spawn_tile(matrix, rng);
        proof {
            if exists|x: int, y: int|
                m_coll.in_bounds(x, y) && (#[trigger] m_coll.at(x, y)).value == 0 {
                let (x, y, v) = choose|x: int, y: int, v: u16|
                    spawn_outcome(m_coll, *matrix, x, y, v);
                let k = m_coll.flat(x, y);
                lemma_flat_in_range(grows, gcols, x, y);
                let newcell = Cell {
                    value: v,
                    state: Some(CellState::New),
                    prev: m_coll.at(x, y).prev,
                };
                lemma_sum_update(m_coll.grid(), k, newcell);
                assert(sum_vals(matrix.grid()) == sum0 + v);
                assert forall|t: int|
                    0 <= t < matrix.grid().len() && t != k implies (#[trigger] matrix.grid()[t]).state
                        != Some(CellState::New) by {
                    assert(matrix.grid()[t] == m_coll.grid()[t]);
                }
                assert(spawned_cell(*old(matrix), *matrix, x, y));
                assert(move_outcome(*old(matrix), *matrix));
                if all_tiles(old(matrix).grid()) {
                    lemma_spawn_values_are_tiles();
                    assert forall|t: int| 0 <= t < matrix.grid().len() implies is_tile_value(
                        (#[trigger] matrix.grid()[t]).value as nat,
                    ) by {
                        if t != k {
                            assert(matrix.grid()[t] == m_coll.grid()[t]);
                        }
                    }
                }
                if no_merged(matrix.grid()) {
                    assert forall|t: int|
                        0 <= t < m_coll.grid().len() implies (#[trigger] m_coll.grid()[t]).state
                            != Some(CellState::Merged) by {
                        if t == k {
                            assert(m_coll.grid()[t].value == 0);
                        } else {
                            assert(matrix.grid()[t] == m_coll.grid()[t]);
                        }
                    }
                    lemma_mset_update(m_coll.grid(), k, newcell);
                    assert(tile_contrib(m_coll.grid()[k]) =~= Multiset::empty());
                    assert(tile_contrib(newcell) =~= Multiset::empty());
                    assert(tiles_mset(matrix.grid()).add(Multiset::empty()) =~= tiles_mset(
                        matrix.grid(),
                    ));
                    assert(tiles_mset(m_coll.grid()).add(Multiset::empty()) =~= tiles_mset(
                        m_coll.grid(),
                    ));
                    assert(tiles_mset(matrix.grid()) == tiles_mset(m_coll.grid()));
                }
                // the tiles that were settled before the spawn stay packed
                assert forall|p: int, q: int|
                    matrix.in_bounds(p, q) && (#[trigger] matrix.at(p, q)).value != 0
                        && matrix.at(p, q).state != Some(CellState::New) && matrix.in_bounds(
                        p + dr,
                        q + dc,
                    ) implies matrix.at(p + dr, q + dc).value != 0 by {
                    lemma_flat_in_range(grows, gcols, p, q);
                    let kp = p * gcols + q;
                    if kp == k {
                        assert(matrix.grid()[k].state == Some(CellState::New));
                        assert(false);
                    }
                    assert(matrix.grid()[kp] == m_coll.grid()[kp]);
                    assert(processed(dr, dc, grows, gcols, p, q, grows, 0));
                    assert(packed_tile(m_coll, dr, dc, p, q));
                    lemma_flat_in_range(grows, gcols, p + dr, q + dc);
                    let kn = (p + dr) * gcols + (q + dc);
                    assert(m_coll.grid()[kn].value != 0);
                    if kn != k {
                        assert(matrix.grid()[kn] == m_coll.grid()[kn]);
                    }
                }
            } else {
                assert forall|x: int, y: int| m_coll.in_bounds(x, y) implies (#[trigger] m_coll.at(
                    x,
                    y,
                )).value != 0 by {}
                assert(*matrix == m_coll);
                assert(move_outcome(*old(matrix), *matrix));
                assert forall|p: int, q: int|
                    matrix.in_bounds(p, q) && (#[trigger] matrix.at(p, q)).value != 0
                        && matrix.at(p, q).state != Some(CellState::New) && matrix.in_bounds(
                        p + dr,
                        q + dc,
                    ) implies matrix.at(p + dr, q + dc).value != 0 by {
                    assert(m_coll.at(p + dr, q + dc).value != 0);
                }
            }
        }
    } else {
        proof {
            assert(matrix.grid() == m_start.grid());
            assert forall|p: int, q: int|
                matrix.in_bounds(p, q) && (#[trigger] matrix.at(p, q)).value != 0
                    && matrix.at(p, q).state != Some(CellState::New) && matrix.in_bounds(
                    p + dr,
                    q + dc,
                ) implies matrix.at(p + dr, q + dc).value != 0 by {
                assert(processed(dr, dc, grows, gcols, p, q, grows, 0));
                assert(!cell_can_change(m_start, dr, dc, p, q));
                lemma_flat_in_range(grows, gcols, p, q);
                lemma_flat_in_range(grows, gcols, p + dr, q + dc);
            }
        }
    }

    proof {
        lemma_can_change_cleared(*old(matrix), m_start, dr, dc);
        if !has_changed {
            assert forall|x: int, y: int| !cell_can_change(m_start, dr, dc, x, y) by {
                if cell_can_change(m_start, dr, dc, x, y) {
                    assert(processed(dr, dc, grows, gcols, x, y, grows, 0));
                }
            }
            assert(!can_change(m_start, dr, dc));
        }
    }

    has_changed
}

/// Place one new tile into a uniformly chosen empty cell, marked `New`,
/// with value 2 or 4 as the random source decides.  On a full board this
/// is a no-op: a full board is a legitimate state, not an error.
pub fn spawn_tile<R: RandomSource>(matrix: &mut Matrix, rng: &mut R)
    requires
        old(matrix).wf(),
    ensures
        final(matrix).wf(),
        final(matrix).spec_rows() == old(matrix).spec_rows(),
        final(matrix).spec_cols() == old(matrix).spec_cols(),
        (forall|x: int, y: int|
            old(matrix).in_bounds(x, y) ==> (#[trigger] old(matrix).at(x, y)).value != 0)
            ==> *final(matrix) == *old(matrix),
        (exists|x: int, y: int|
            old(matrix).in_bounds(x, y) && (#[trigger] old(matrix).at(x, y)).value == 0)
            ==> exists|x: int, y: int, v: u16| spawn_outcome(*old(matrix), *final(matrix), x, y, v),
{
    let rows = matrix.row_count();
    let cols = matrix.col_count();
    let ghost grows = matrix.spec_rows();
    let ghost gcols = matrix.spec_cols();

    let mut empty_cells: Vec<(usize, usize)> = Vec::new();

    let mut i: usize = 0;
    while i < rows
        invariant
            matrix.wf(),
            *matrix == *old(matrix),
            rows as int == grows,
            cols as int == gcols,
            grows == matrix.spec_rows(),
            gcols == matrix.spec_cols(),
            i <= rows,
            forall|t: int|
                0 <= t < empty_cells@.len() ==> {
                    &&& matrix.in_bounds(
                        (#[trigger] empty_cells@[t]).0 as int,
                        empty_cells@[t].1 as int,
                    )
                    &&& matrix.at(empty_cells@[t].0 as int, empty_cells@[t].1 as int).value == 0
                },
            forall|x: int, y: int|
                0 <= x < i && 0 <= y < gcols && (#[trigger] matrix.at(x, y)).value == 0
                    ==> empty_cells@.len() > 0,
        decreases rows - i,
    {
        let mut j: usize = 0;
        while j < cols
            invariant
                matrix.wf(),
                *matrix == *old(matrix),
                rows as int == grows,
                cols as int == gcols,
                grows == matrix.spec_rows(),
                gcols == matrix.spec_cols(),
                i < rows,
                j <= cols,
                forall|t: int|
                    0 <= t < empty_cells@.len() ==> {
                        &&& matrix.in_bounds(
                            (#[trigger] empty_cells@[t]).0 as int,
                            empty_cells@[t].1 as int,
                        )
                        &&& matrix.at(empty_cells@[t].0 as int, empty_cells@[t].1 as int).value
                            == 0
                    },
                forall|x: int, y: int|
                    0 <= x < i && 0 <= y < gcols && (#[trigger] matrix.at(x, y)).value == 0
                        ==> empty_cells@.len() > 0,
                forall|y: int|
                    0 <= y < j && (#[trigger] matrix.at(i as int, y)).value == 0
                        ==> empty_cells@.len() > 0,
            decreases cols - j,
        {
            if matrix.get(i, j).value == 0 {
                empty_cells.push((i, j));
            }
            j = j + 1;
        }
        i = i + 1;
    }

    if empty_cells.len() > 0 {
        let idx = rng.pick_index(empty_cells.len());
        let (x, y) = empty_cells[idx];
        let value: u16 = if rng.draw_is_four() {
            4
        } else {
            2
        };
        let c = matrix.get(x, y);
        matrix.set(x, y, Cell { value, state: Some(CellState::New), prev: c.prev });
        proof {
            assert(spawn_outcome(*old(matrix), *matrix, x as int, y as int, value));
        }
    }
}

/// Move the whole board left.
pub fn move_left<R: RandomSource>(matrix: &mut Matrix, rng: &mut R) -> (changed: bool)
    requires
        old(matrix).wf(),
        sum_vals(old(matrix).grid()) <= 0xffff,
    ensures
        final(matrix).wf(),
        final(matrix).spec_rows() == old(matrix).spec_rows(),
        final(matrix).spec_cols() == old(matrix).spec_cols(),
        changed == can_change(*old(matrix), 0, -1),
        !changed ==> final(matrix).grid() == cleared(old(matrix).grid()),
        !changed ==> sum_vals(final(matrix).grid()) == sum_vals(old(matrix).grid()),
        changed ==> move_outcome(*old(matrix), *final(matrix)),
        all_tiles(old(matrix).grid()) ==> all_tiles(final(matrix).grid()),
        no_merged(final(matrix).grid()) ==> tiles_mset(final(matrix).grid()) == tiles_mset(
            cleared(old(matrix).grid()),
        ),
        forall|x: int, y: int|
            final(matrix).in_bounds(x, y) && (#[trigger] final(matrix).at(x, y)).value != 0
                && final(matrix).at(x, y).state != Some(CellState::New)
                && final(matrix).in_bounds(x, y - 1) ==> final(matrix).at(x, y - 1).value != 0,
{
    move_matrix(matrix, Direction::Left, rng)
}

/// Move the whole board right.
pub fn move_right<R: RandomSource>(matrix: &mut Matrix, rng: &mut R) -> (changed: bool)
    requires
        old(matrix).wf(),
        sum_vals(old(matrix).grid()) <= 0xffff,
    ensures
        final(matrix).wf(),
        final(matrix).spec_rows() == old(matrix).spec_rows(),
        final(matrix).spec_cols() == old(matrix).spec_cols(),
        changed == can_change(*old(matrix), 0, 1),
        !changed ==> final(matrix).grid() == cleared(old(matrix).grid()),
        !changed ==> sum_vals(final(matrix).grid()) == sum_vals(old(matrix).grid()),
        changed ==> move_outcome(*old(matrix), *final(matrix)),
        all_tiles(old(matrix).grid()) ==> all_tiles(final(matrix).grid()),
        no_merged(final(matrix).grid()) ==> tiles_mset(final(matrix).grid()) == tiles_mset(
            cleared(old(matrix).grid()),
        ),
        forall|x: int, y: int|
            final(matrix).in_bounds(x, y) && (#[trigger] final(matrix).at(x, y)).value != 0
                && final(matrix).at(x, y).state != Some(CellState::New)
                && final(matrix).in_bounds(x, y + 1) ==> final(matrix).at(x, y + 1).value != 0,
{
    move_matrix(matrix, Direction::Right, rng)
}

/// Move the whole board up.
pub fn move_up<R: RandomSource>(matrix: &mut Matrix, rng: &mut R) -> (changed: bool)
    requires
        old(matrix).wf(),
        sum_vals(old(matrix).grid()) <= 0xffff,
    ensures
        final(matrix).wf(),
        final(matrix).spec_rows() == old(matrix).spec_rows(),
        final(matrix).spec_cols() == old(matrix).spec_cols(),
        changed == can_change(*old(matrix), -1, 0),
        !changed ==> final(matrix).grid() == cleared(old(matrix).grid()),
        !changed ==> sum_vals(final(matrix).grid()) == sum_vals(old(matrix).grid()),
        changed ==> move_outcome(*old(matrix), *final(matrix)),
        all_tiles(old(matrix).grid()) ==> all_tiles(final(matrix).grid()),
        no_merged(final(matrix).grid()) ==> tiles_mset(final(matrix).grid()) == tiles_mset(
            cleared(old(matrix).grid()),
        ),
        forall|x: int, y: int|
            final(matrix).in_bounds(x, y) && (#[trigger] final(matrix).at(x, y)).value != 0
                && final(matrix).at(x, y).state != Some(CellState::New)
                && final(matrix).in_bounds(x - 1, y) ==> final(matrix).at(x - 1, y).value != 0,
{
    move_matrix(matrix, Direction::Up, rng)
}

/// Move the whole board down.
pub fn move_down<R: RandomSource>(matrix: &mut Matrix, rng: &mut R) -> (changed: bool)
    requires
        old(matrix).wf(),
        sum_vals(old(matrix).grid()) <= 0xffff,
    ensures
        final(matrix).wf(),
        final(matrix).spec_rows() == old(matrix).spec_rows(),
        final(matrix).spec_cols() == old(matrix).spec_cols(),
        changed == can_change(*old(matrix), 1, 0),
        !changed ==> final(matrix).grid() == cleared(old(matrix).grid()),
        !changed ==> sum_vals(final(matrix).grid()) == sum_vals(old(matrix).grid()),
        changed ==> move_outcome(*old(matrix), *final(matrix)),
        all_tiles(old(matrix).grid()) ==> all_tiles(final(matrix).grid()),
        no_merged(final(matrix).grid()) ==> tiles_mset(final(matrix).grid()) == tiles_mset(
            cleared(old(matrix).grid()),
        ),
        forall|x: int, y: int|
            final(matrix).in_bounds(x, y) && (#[trigger] final(matrix).at(x, y)).value != 0
                && final(matrix).at(x, y).state != Some(CellState::New)
                && final(matrix).in_bounds(x + 1, y) ==> final(matrix).at(x + 1, y).value != 0,
{
    move_matrix(matrix, Direction::Down, rng)
}

/// The character for one decimal digit.
pub open spec fn digit_char(d: int) -> char {
    if d == 0 {
        '0'
    } else if d == 1 {
        '1'
    } else if d == 2 {
        '2'
    } else if d == 3 {
        '3'
    } else if d == 4 {
        '4'
    } else if d == 5 {
        '5'
    } else if d == 6 {
        '6'
    } else if d == 7 {
        '7'
    } else if d == 8 {
        '8'
    } else {
        '9'
    }
}

/// The decimal representation of `n`, most significant digit first.
pub open spec fn dec_rep(n: nat) -> Seq<char>
    decreases n,
{
    if n < 10 {
        seq![digit_char(n as int)]
    } else {
        dec_rep(n / 10).push(digit_char((n % 10) as int))
    }
}

/// The one-character string for a decimal digit.
fn digit_str(d: u16) -> (r: &'static str)
    requires
        d < 10,
    ensures
        r@ == seq![digit_char(d as int)],
{
    if d == 0 {
        proof {
            reveal_strlit("0");
            assert(("0")@ =~= seq![digit_char(0)]);
        }
        "0"
    } else if d == 1 {
        proof {
            reveal_strlit("1");
            assert(("1")@ =~= seq![digit_char(1)]);
        }
        "1"
    } else if d == 2 {
        proof {
            reveal_strlit("2");
            assert(("2")@ =~= seq![digit_char(2)]);
        }
        "2"
    } else if d == 3 {
        proof {
            reveal_strlit("3");
            assert(("3")@ =~= seq![digit_char(3)]);
        }
        "3"
    } else if d == 4 {
        proof {
            reveal_strlit("4");
            assert(("4")@ =~= seq![digit_char(4)]);
        }
        "4"
    } else if d == 5 {
        proof {
            reveal_strlit("5");
            assert(("5")@ =~= seq![digit_char(5)]);
        }
        "5"
    } else if d == 6 {
        proof {
            reveal_strlit("6");
            assert(("6")@ =~= seq![digit_char(6)]);
        }
        "6"
    } else if d == 7 {
        proof {
            reveal_strlit("7");
            assert(("7")@ =~= seq![digit_char(7)]);
        }
        "7"
    } else if d == 8 {
        proof {
            reveal_strlit("8");
            assert(("8")@ =~= seq![digit_char(8)]);
        }
        "8"
    } else {
        proof {
            reveal_strlit("9");
            assert(("9")@ =~= seq![digit_char(9)]);
        }
        "9"
    }
}

/// Append the decimal representation of `n` to `out`.
fn push_decimal(n: u16, out: &mut String)
    ensures
        final(out)@ == old(out)@ + dec_rep(n as nat),
    decreases n,
{
    if n >= 10 {
        push_decimal(n / 10, out);
    }
    out.append(digit_str(n % 10));
    proof {
        assert(out@ =~= old(out)@ + dec_rep(n as nat));
    }
}

/// The style-class name a renderer uses for a cell of the given score:
/// `cell-` followed by the score in decimal.
pub fn get_class_for_score(score: u16) -> (r: String)
    ensures
        r@ == seq!['c', 'e', 'l', 'l', '-'] + dec_rep(score as nat),
{
    let mut s = String::from_str("cell-");
    proof {
        reveal_strlit("cell-");
        assert(s@ =~= seq!['c', 'e', 'l', 'l', '-']);
    }
    push_decimal(score, &mut s);
    s
}


} // verus!
