use twenty48::game::spawn_tile;
use twenty48::models::generate_start_matrix;
use twenty48::models::{Cell, CellState, Matrix};
use twenty48::rng::{ScriptedRandom, ThreadRandom};

fn board_from(rows: &[&[u16]]) -> Matrix {
    let mut m = Matrix::new(rows.len(), rows[0].len()).unwrap();
    for (i, row) in rows.iter().enumerate() {
        for (j, v) in row.iter().enumerate() {
            if *v != 0 {
                m.set(i, j, Cell { value: *v, state: None, prev: None });
            }
        }
    }
    m
}

fn values_of(m: &Matrix) -> Vec<Vec<u16>> {
    let mut out = Vec::new();
    for i in 0..m.row_count() {
        let mut row = Vec::new();
        for j in 0..m.col_count() {
            row.push(m.get(i, j).value);
        }
        out.push(row);
    }
    out
}

#[test]
fn spawn_targets_the_only_empty_cell() {
    let mut m = board_from(&[
        &[2, 4, 8, 16],
        &[32, 64, 128, 256],
        &[2, 4, 8, 0],
        &[16, 32, 64, 128],
    ]);
    let before = values_of(&m);
    let mut rng = ScriptedRandom::new(vec![5], vec![false]);
    spawn_tile(&mut m, &mut rng);
    assert_eq!(m.get(2, 3).value, 2);
    assert!(matches!(m.get(2, 3).state, Some(CellState::New)));
    for i in 0..4 {
        for j in 0..4 {
            if (i, j) != (2, 3) {
                assert_eq!(m.get(i, j).value, before[i][j]);
                assert!(m.get(i, j).state.is_none());
            }
        }
    }
}

#[test]
fn spawn_on_full_board_changes_nothing() {
    let mut m = board_from(&[&[2, 4], &[8, 16]]);
    let before = values_of(&m);
    let mut rng = ScriptedRandom::new(vec![0], vec![true]);
    spawn_tile(&mut m, &mut rng);
    assert_eq!(values_of(&m), before);
    for i in 0..2 {
        for j in 0..2 {
            assert!(m.get(i, j).state.is_none());
        }
    }
}

#[test]
fn spawn_is_reproducible_with_the_same_script() {
    let build = || board_from(&[&[0, 2, 0, 0], &[0, 0, 4, 0], &[0, 0, 0, 0], &[0, 0, 0, 0]]);
    let mut first = build();
    let mut second = build();
    let mut rng_a = ScriptedRandom::new(vec![7], vec![true]);
    let mut rng_b = ScriptedRandom::new(vec![7], vec![true]);
    spawn_tile(&mut first, &mut rng_a);
    spawn_tile(&mut second, &mut rng_b);
    assert_eq!(values_of(&first), values_of(&second));
    for i in 0..4 {
        for j in 0..4 {
            let a = first.get(i, j);
            let b = second.get(i, j);
            assert_eq!(a.value, b.value);
            assert_eq!(
                matches!(a.state, Some(CellState::New)),
                matches!(b.state, Some(CellState::New))
            );
        }
    }
}

#[test]
fn spawn_value_follows_the_biased_draw() {
    // `false` draws the common 2, `true` the rare 4
    let mut low = board_from(&[&[2, 0]]);
    let mut rng_low = ScriptedRandom::new(vec![0], vec![false]);
    spawn_tile(&mut low, &mut rng_low);
    assert_eq!(low.get(0, 1).value, 2);

    let mut high = board_from(&[&[2, 0]]);
    let mut rng_high = ScriptedRandom::new(vec![0], vec![true]);
    spawn_tile(&mut high, &mut rng_high);
    assert_eq!(high.get(0, 1).value, 4);
}

#[test]
fn spawn_picks_by_row_major_rank_among_empties() {
    let mut m = board_from(&[&[2, 0], &[0, 4]]);
    // empties are (0,1) then (1,0); rank 1 is (1,0)
    let mut rng = ScriptedRandom::new(vec![1], vec![false]);
    spawn_tile(&mut m, &mut rng);
    assert_eq!(m.get(1, 0).value, 2);
    assert_eq!(m.get(0, 1).value, 0);
}

#[test]
fn start_matrix_holds_exactly_two_new_tiles() {
    let mut rng = ScriptedRandom::new(vec![0, 0], vec![false, true]);
    let m = generate_start_matrix(&mut rng);
    assert_eq!(m.row_count(), 4);
    assert_eq!(m.col_count(), 4);
    assert_eq!(m.get(0, 0).value, 2);
    assert!(matches!(m.get(0, 0).state, Some(CellState::New)));
    assert_eq!(m.get(0, 1).value, 4);
    assert!(matches!(m.get(0, 1).state, Some(CellState::New)));
    let mut nonzero = 0;
    for i in 0..4 {
        for j in 0..4 {
            if m.get(i, j).value != 0 {
                nonzero += 1;
            }
        }
    }
    assert_eq!(nonzero, 2);
}

#[test]
fn spawn_with_ambient_generator_fills_exactly_one_empty_cell() {
    let mut m = board_from(&[&[2, 0]]);
    let mut rng = ThreadRandom::new();
    spawn_tile(&mut m, &mut rng);
    assert_eq!(m.get(0, 0).value, 2);
    let v = m.get(0, 1).value;
    assert!(v == 2 || v == 4);
    assert!(matches!(m.get(0, 1).state, Some(CellState::New)));
}
