use twenty48::game::{move_down, move_left, move_matrix, move_right, move_up};
use twenty48::models::{Cell, CellState, Direction, Matrix};
use twenty48::rng::ScriptedRandom;

fn board_from(rows: &[&[u16]]) -> Matrix {
    let mut m = Matrix::new(rows.len(), rows[0].len()).unwrap();
    for (i, row) in rows.iter().enumerate() {
        for (j, v) in row.iter().enumerate() {
            if *v != 0 {
                m.set(i, j, Cell { value: *v, state: None, prev: None });
            }
        }
    }
    m
}

fn values_of(m: &Matrix) -> Vec<Vec<u16>> {
    let mut out = Vec::new();
    for i in 0..m.row_count() {
        let mut row = Vec::new();
        for j in 0..m.col_count() {
            row.push(m.get(i, j).value);
        }
        out.push(row);
    }
    out
}

fn rng_with(picks: Vec<usize>, fours: Vec<bool>) -> ScriptedRandom {
    ScriptedRandom::new(picks, fours)
}

#[test]
fn end_to_end_single_row_left() {
    // [[0, 0, 2, 2]] moved Left collapses to a merged 4 at the left edge.
    let mut m = board_from(&[&[0, 0, 2, 2]]);
    let mut rng = rng_with(vec![0], vec![false]);
    let changed = move_left(&mut m, &mut rng);
    assert!(changed);
    assert_eq!(m.get(0, 0).value, 4);
    assert!(matches!(m.get(0, 0).state, Some(CellState::Merged)));
    // the scripted spawn fills the first empty cell with a 2
    assert_eq!(m.get(0, 1).value, 2);
    assert!(matches!(m.get(0, 1).state, Some(CellState::New)));
    assert_eq!(m.get(0, 2).value, 0);
    assert_eq!(m.get(0, 3).value, 0);
}

#[test]
fn no_double_merge_left() {
    // [2, 2, 2, 0] collapsed Left gives [4, 2, ...], never [8, ...] or [4, 4, ...].
    let mut m = board_from(&[&[2, 2, 2, 0]]);
    // spawn into the second empty cell so the collapsed prefix stays visible
    let mut rng = rng_with(vec![1], vec![true]);
    let changed = move_left(&mut m, &mut rng);
    assert!(changed);
    assert_eq!(m.get(0, 0).value, 4);
    assert_eq!(m.get(0, 1).value, 2);
    assert_eq!(m.get(0, 2).value, 0);
    assert_eq!(m.get(0, 3).value, 4);
    assert!(matches!(m.get(0, 3).state, Some(CellState::New)));
}

#[test]
fn no_op_move_leaves_board_identical_and_spawns_nothing() {
    let mut m = board_from(&[
        &[2, 4, 8, 16],
        &[32, 64, 128, 256],
        &[512, 1024, 4, 8],
        &[2, 4, 8, 16],
    ]);
    // stale annotations must be cleared even when nothing moves
    m.set(
        0,
        0,
        Cell { value: 2, state: Some(CellState::Moved), prev: Some((3, 3)) },
    );
    let before = values_of(&m);
    let mut rng = rng_with(vec![0], vec![false]);
    let changed = move_left(&mut m, &mut rng);
    assert!(!changed);
    assert_eq!(values_of(&m), before);
    for i in 0..4 {
        for j in 0..4 {
            assert!(m.get(i, j).state.is_none());
            assert!(m.get(i, j).prev.is_none());
        }
    }
}

#[test]
fn merge_free_move_conserves_value_multiset() {
    let mut m = board_from(&[&[2, 0, 4, 0]]);
    let mut rng = rng_with(vec![0], vec![false]);
    let changed = move_left(&mut m, &mut rng);
    assert!(changed);
    // settled tiles (everything not marked New) carry exactly the old values
    let mut settled: Vec<u16> = Vec::new();
    for j in 0..4 {
        let c = m.get(0, j);
        if c.value != 0 && !matches!(c.state, Some(CellState::New)) {
            settled.push(c.value);
        }
    }
    settled.sort();
    assert_eq!(settled, vec![2, 4]);
    assert_eq!(m.get(0, 0).value, 2);
    assert_eq!(m.get(0, 1).value, 4);
}

#[test]
fn merge_conserves_sum_of_settled_values() {
    let mut m = board_from(&[&[2, 2, 0, 0]]);
    let mut rng = rng_with(vec![0], vec![false]);
    let changed = move_left(&mut m, &mut rng);
    assert!(changed);
    let mut settled_sum: u32 = 0;
    for j in 0..4 {
        let c = m.get(0, j);
        if !matches!(c.state, Some(CellState::New)) {
            settled_sum += c.value as u32;
        }
    }
    assert_eq!(settled_sum, 4);
    assert_eq!(m.get(0, 0).value, 4);
}

#[test]
fn move_right_merges_at_right_edge() {
    let mut m = board_from(&[&[2, 2, 0, 0]]);
    let mut rng = rng_with(vec![2], vec![false]);
    let changed = move_right(&mut m, &mut rng);
    assert!(changed);
    assert_eq!(m.get(0, 3).value, 4);
    assert!(matches!(m.get(0, 3).state, Some(CellState::Merged)));
}

#[test]
fn move_up_merges_at_top_edge() {
    let mut m = board_from(&[&[0], &[0], &[2], &[2]]);
    let mut rng = rng_with(vec![0], vec![false]);
    let changed = move_up(&mut m, &mut rng);
    assert!(changed);
    assert_eq!(m.get(0, 0).value, 4);
    assert!(matches!(m.get(0, 0).state, Some(CellState::Merged)));
}

#[test]
fn move_down_merges_at_bottom_edge() {
    let mut m = board_from(&[&[2], &[2], &[0], &[0]]);
    let mut rng = rng_with(vec![0], vec![false]);
    let changed = move_down(&mut m, &mut rng);
    assert!(changed);
    assert_eq!(m.get(3, 0).value, 4);
    assert!(matches!(m.get(3, 0).state, Some(CellState::Merged)));
}

#[test]
fn three_equal_tiles_down_merge_once_at_bottom() {
    let mut m = board_from(&[&[2], &[2], &[2], &[0]]);
    let mut rng = rng_with(vec![0], vec![false]);
    let changed = move_down(&mut m, &mut rng);
    assert!(changed);
    assert_eq!(m.get(3, 0).value, 4);
    assert_eq!(m.get(2, 0).value, 2);
}

#[test]
fn packed_two_cell_row_cannot_move_either_way() {
    let mut m = board_from(&[&[2, 4]]);
    let mut rng = rng_with(vec![0], vec![false]);
    assert!(!move_left(&mut m, &mut rng));
    assert!(!move_right(&mut m, &mut rng));
    assert_eq!(values_of(&m), vec![vec![2, 4]]);
}

#[test]
fn move_matrix_accepts_every_direction() {
    for dir in [
        Direction::Left,
        Direction::Right,
        Direction::Up,
        Direction::Down,
    ] {
        let mut m = board_from(&[&[0, 2, 0, 2], &[0, 0, 0, 0], &[2, 0, 2, 0], &[0, 0, 0, 0]]);
        let mut rng = rng_with(vec![0], vec![false]);
        let changed = move_matrix(&mut m, dir, &mut rng);
        assert!(changed);
    }
}

#[test]
fn values_stay_zero_or_powers_of_two_across_play() {
    let mut rng = rng_with(
        vec![3, 7, 1, 0, 2, 5, 4, 6, 0, 1, 2, 3],
        vec![false, true, false, false, true, false, false, false],
    );
    let mut m = twenty48::models::generate_start_matrix(&mut rng);
    for dir in [
        Direction::Left,
        Direction::Down,
        Direction::Right,
        Direction::Up,
        Direction::Left,
        Direction::Down,
    ] {
        move_matrix(&mut m, dir, &mut rng);
        for i in 0..m.row_count() {
            for j in 0..m.col_count() {
                let v = m.get(i, j).value;
                assert!(v == 0 || (v >= 2 && (v & (v - 1)) == 0), "bad value {}", v);
            }
        }
    }
}

#[test]
fn after_a_move_settled_tiles_are_packed_against_the_direction() {
    let dirs = [
        (Direction::Left, 0i64, -1i64),
        (Direction::Right, 0, 1),
        (Direction::Up, -1, 0),
        (Direction::Down, 1, 0),
    ];
    for (dir, di, dj) in dirs {
        let mut m = board_from(&[&[2, 0, 2, 4], &[0, 4, 0, 4], &[8, 0, 0, 2], &[0, 2, 4, 0]]);
        let mut rng = rng_with(vec![1], vec![false]);
        let changed = move_matrix(&mut m, dir, &mut rng);
        assert!(changed);
        for i in 0..4i64 {
            for j in 0..4i64 {
                let cell = m.get(i as usize, j as usize);
                if cell.value == 0 || matches!(cell.state, Some(CellState::New)) {
                    continue;
                }
                let (ni, nj) = (i + di, j + dj);
                if (0..4).contains(&ni) && (0..4).contains(&nj) {
                    assert_ne!(
                        m.get(ni as usize, nj as usize).value,
                        0,
                        "tile at ({}, {}) has an empty cell ahead of it",
                        i,
                        j
                    );
                }
            }
        }
    }
}

#[test]
fn moved_tile_records_where_it_started() {
    let mut m = board_from(&[&[0, 0, 0, 2]]);
    let mut rng = rng_with(vec![0], vec![false]);
    let changed = move_left(&mut m, &mut rng);
    assert!(changed);
    assert_eq!(m.get(0, 0).value, 2);
    assert!(matches!(m.get(0, 0).state, Some(CellState::Moved)));
    assert_eq!(m.get(0, 0).prev, Some((0, 3)));
}
