use twenty48::game::{get_class_for_score, get_iteration_range, is_within_bounds};
use twenty48::models::{reset_tile_states, Cell, CellState, Direction, Matrix};

fn empty_board(rows: usize, cols: usize) -> Matrix {
    Matrix::new(rows, cols).unwrap()
}

#[test]
fn class_names_follow_the_score() {
    assert_eq!(get_class_for_score(0), "cell-0");
    assert_eq!(get_class_for_score(2), "cell-2");
    assert_eq!(get_class_for_score(64), "cell-64");
    assert_eq!(get_class_for_score(2048), "cell-2048");
    assert_eq!(get_class_for_score(65535), "cell-65535");
}

#[test]
fn direction_deltas_are_unit_steps() {
    assert_eq!(Direction::Left.to_tuple(), (0, -1));
    assert_eq!(Direction::Right.to_tuple(), (0, 1));
    assert_eq!(Direction::Up.to_tuple(), (-1, 0));
    assert_eq!(Direction::Down.to_tuple(), (1, 0));
}

#[test]
fn iteration_order_starts_at_the_collapse_side() {
    assert_eq!(get_iteration_range(1, 4), vec![3, 2, 1, 0]);
    assert_eq!(get_iteration_range(-1, 4), vec![0, 1, 2, 3]);
    assert_eq!(get_iteration_range(0, 3), vec![0, 1, 2]);
}

#[test]
fn bounds_check_stops_at_every_edge() {
    let m = empty_board(4, 4);
    assert!(!is_within_bounds(&m, 0, 0, -1, 0));
    assert!(!is_within_bounds(&m, 0, 0, 0, -1));
    assert!(is_within_bounds(&m, 0, 0, 1, 0));
    assert!(is_within_bounds(&m, 0, 0, 0, 1));
    assert!(!is_within_bounds(&m, 3, 3, 1, 0));
    assert!(!is_within_bounds(&m, 3, 3, 0, 1));
    assert!(is_within_bounds(&m, 3, 3, -1, 0));
    assert!(is_within_bounds(&m, 3, 3, 0, -1));
}

#[test]
fn reset_clears_annotations_and_keeps_values() {
    let mut m = empty_board(2, 2);
    m.set(0, 0, Cell { value: 8, state: Some(CellState::Merged), prev: Some((1, 1)) });
    m.set(1, 1, Cell { value: 2, state: Some(CellState::New), prev: None });
    reset_tile_states(&mut m);
    assert_eq!(m.get(0, 0).value, 8);
    assert!(m.get(0, 0).state.is_none());
    assert!(m.get(0, 0).prev.is_none());
    assert_eq!(m.get(1, 1).value, 2);
    assert!(m.get(1, 1).state.is_none());
}

#[test]
fn cell_equality_ignores_annotations() {
    let a = Cell { value: 2, state: Some(CellState::New), prev: Some((0, 0)) };
    let b = Cell { value: 2, state: None, prev: None };
    let c = Cell { value: 4, state: None, prev: None };
    assert!(a == b);
    assert!(a != c);
}

#[test]
fn zero_sized_boards_are_rejected() {
    assert!(Matrix::new(0, 4).is_none());
    assert!(Matrix::new(4, 0).is_none());
    assert!(Matrix::new(1, 4).is_some());
    assert!(Matrix::new(4, 4).is_some());
}

#[test]
fn sum_guard_notices_an_oversized_board() {
    let mut big = Matrix::new(1, 2).unwrap();
    big.set(0, 0, Cell { value: 40000, state: None, prev: None });
    big.set(0, 1, Cell { value: 40000, state: None, prev: None });
    assert!(!big.sum_fits());

    let mut small = Matrix::new(1, 2).unwrap();
    small.set(0, 0, Cell { value: 32768, state: None, prev: None });
    small.set(0, 1, Cell { value: 32767, state: None, prev: None });
    assert!(small.sum_fits());
}

#[test]
fn board_reports_its_shape() {
    let m = empty_board(3, 5);
    assert_eq!(m.row_count(), 3);
    assert_eq!(m.col_count(), 5);
    assert_eq!(m.cell_count(), 15);
    for i in 0..3 {
        for j in 0..5 {
            assert_eq!(m.get(i, j).value, 0);
        }
    }
}
