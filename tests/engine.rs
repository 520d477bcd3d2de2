use stone_path::automaton::{next_matrix, Automaton, CellState, GridError};
use stone_path::sparse_automaton::{get_possible_moves as sparse_moves, LiveCells, SparseAutomaton};

use CellState::{Alive as A, Dead as D, Finish as F, Start as S};

fn sample() -> Vec<Vec<i32>> {
    vec![
        vec![2, 0, 1, 0, 0],
        vec![0, 1, 1, 0, 1],
        vec![1, 0, 0, 1, 0],
        vec![0, 1, 1, 0, 0],
        vec![0, 0, 1, 0, 3],
    ]
}

#[test]
fn round_trip_of_integer_matrix() {
    let m = sample();
    let a = Automaton::from_integer_matrix(m.clone()).unwrap();
    assert_eq!(a.to_integer_matrix(), m);
    assert_eq!(a.generation, 1);
    assert_eq!(a.starting_point, (0, 0));
    assert_eq!(a.finishing_point, (4, 4));
}

#[test]
fn decoding_maps_codes_to_cells() {
    let a = Automaton::from_integer_matrix(vec![vec![2, 1], vec![0, 3]]).unwrap();
    assert_eq!(a.matrix, vec![vec![S, A], vec![D, F]]);
}

#[test]
fn unknown_codes_decode_as_dead() {
    let a = Automaton::from_integer_matrix(vec![vec![2, 7], vec![-1, 3]]).unwrap();
    assert_eq!(a.matrix, vec![vec![S, D], vec![D, F]]);
    assert_eq!(a.to_integer_matrix(), vec![vec![2, 0], vec![0, 3]]);
}

#[test]
fn empty_matrix_is_refused() {
    assert!(matches!(Automaton::from_integer_matrix(vec![]), Err(GridError::EmptyGrid)));
    assert!(matches!(Automaton::from_integer_matrix(vec![vec![]]), Err(GridError::EmptyGrid)));
    assert!(matches!(Automaton::new(vec![]), Err(GridError::EmptyGrid)));
}

#[test]
fn ragged_matrix_is_refused() {
    let m = vec![vec![2, 0, 0], vec![0, 3]];
    assert!(matches!(Automaton::from_integer_matrix(m), Err(GridError::NonRectangular)));
    let p = vec![vec![S, D], vec![F]];
    assert!(matches!(Automaton::new(p), Err(GridError::NonRectangular)));
}

#[test]
fn wrong_marker_count_is_refused() {
    let one = vec![vec![2, 0], vec![0, 0]];
    assert!(matches!(Automaton::from_integer_matrix(one), Err(GridError::MissingMarker)));
    let three = vec![vec![2, 3], vec![3, 0]];
    assert!(matches!(Automaton::from_integer_matrix(three), Err(GridError::MissingMarker)));
}

#[test]
fn two_starts_and_no_finish_is_refused() {
    let m = vec![vec![2, 0], vec![0, 2]];
    assert!(matches!(Automaton::from_integer_matrix(m), Err(GridError::MissingMarker)));
}

#[test]
fn new_needs_both_markers() {
    assert!(matches!(Automaton::new(vec![vec![S, D]]), Err(GridError::MissingMarker)));
    assert!(matches!(Automaton::new(vec![vec![F, D]]), Err(GridError::MissingMarker)));
    let a = Automaton::new(vec![vec![S, F]]).unwrap();
    assert_eq!(a.starting_point, (0, 0));
    assert_eq!(a.finishing_point, (0, 1));
}

#[test]
fn new_takes_the_last_marker_in_row_major_order() {
    let a = Automaton::new(vec![vec![S, F, D], vec![D, S, F]]).unwrap();
    assert_eq!(a.starting_point, (1, 1));
    assert_eq!(a.finishing_point, (1, 2));
}

#[test]
fn generation_grows_by_one_per_iteration() {
    let mut a = Automaton::from_integer_matrix(sample()).unwrap();
    for k in 1..=7u32 {
        a = a.iterate();
        assert_eq!(a.generation, 1 + k);
    }
}

#[test]
fn iteration_is_deterministic() {
    let a = Automaton::from_integer_matrix(sample()).unwrap();
    let b = Automaton::from_integer_matrix(sample()).unwrap();
    let mut x = a.iterate();
    let mut y = b.iterate();
    for _ in 0..5 {
        assert_eq!(x.matrix, y.matrix);
        x = x.iterate();
        y = y.iterate();
    }
}

#[test]
fn markers_stay_through_iterations() {
    let mut a = Automaton::from_integer_matrix(sample()).unwrap();
    for _ in 0..10 {
        a = a.iterate();
        assert_eq!(a.starting_point, (0, 0));
        assert_eq!(a.finishing_point, (4, 4));
        assert_eq!(a.matrix[0][0], S);
        assert_eq!(a.matrix[4][4], F);
    }
}

#[test]
fn alive_cell_survives_with_four_neighbours() {
    // centre has 4 live neighbours
    let g = vec![vec![A, A, D], vec![A, A, D], vec![D, A, D]];
    let n = next_matrix(&g);
    assert_eq!(n[1][1], A);
}

#[test]
fn alive_cell_dies_with_three_neighbours() {
    let g = vec![vec![A, A, D], vec![A, A, D], vec![D, D, D]];
    let n = next_matrix(&g);
    assert_eq!(n[1][1], D);
}

#[test]
fn alive_cell_dies_with_six_neighbours() {
    let g = vec![vec![A, A, A], vec![A, A, A], vec![D, D, A]];
    let n = next_matrix(&g);
    assert_eq!(n[1][1], D);
}

#[test]
fn dead_cell_comes_alive_with_two_to_four_neighbours() {
    for (count, expected) in [(1, D), (2, A), (3, A), (4, A), (5, D)] {
        let cells = [(0, 0), (0, 1), (0, 2), (1, 0), (1, 2)];
        let mut g = vec![vec![D; 3]; 3];
        for &(i, j) in cells.iter().take(count) {
            g[i][j] = A;
        }
        let n = next_matrix(&g);
        assert_eq!(n[1][1], expected, "with {} neighbours", count);
    }
}

#[test]
fn markers_are_not_counted_as_live() {
    let a = Automaton::new(vec![vec![S, F, D], vec![D, D, D], vec![D, D, D]]).unwrap();
    assert_eq!(a.get_number_of_alive_nighbours((1, 1)), 0);
    let b = a.iterate();
    assert_eq!(b.matrix[1][1], D);
}

#[test]
fn neighbour_count_is_clipped_at_edges() {
    let a = Automaton::from_integer_matrix(vec![vec![1, 1, 1], vec![1, 2, 1], vec![1, 1, 3]]).unwrap();
    assert_eq!(a.get_number_of_alive_nighbours((0, 0)), 2);
    assert_eq!(a.get_number_of_alive_nighbours((1, 1)), 7);
    assert_eq!(a.get_number_of_alive_nighbours((0, 1)), 4);
}

#[test]
fn sparse_decoding() {
    let s = SparseAutomaton::from_integer_matrix(sample()).unwrap();
    assert_eq!(s.height, 5);
    assert_eq!(s.width, 5);
    assert_eq!(s.starting_point, (0, 0));
    assert_eq!(s.finishing_point, (4, 4));
    assert_eq!(s.generation, 1);
    assert!(s.live_cells.contains((0, 2)));
    assert!(!s.live_cells.contains((0, 1)));
    assert!(!s.live_cells.contains((9, 9)));
}

#[test]
fn sparse_refuses_missing_markers() {
    let none = vec![vec![0, 1], vec![0, 0], vec![1, 0]];
    assert!(matches!(SparseAutomaton::from_integer_matrix(none), Err(GridError::MissingMarker)));
    let two_starts = vec![vec![2, 1], vec![0, 0], vec![1, 2]];
    assert!(matches!(SparseAutomaton::from_integer_matrix(two_starts), Err(GridError::MissingMarker)));
    let three = vec![vec![2, 3], vec![3, 0]];
    assert!(matches!(SparseAutomaton::from_integer_matrix(three), Err(GridError::MissingMarker)));
    let ok = SparseAutomaton::from_integer_matrix(vec![vec![0, 3], vec![2, 0], vec![1, 0]]).unwrap();
    assert_eq!(ok.starting_point, (1, 0));
    assert_eq!(ok.finishing_point, (0, 1));
}

#[test]
fn sparse_refuses_empty_and_ragged() {
    assert!(matches!(SparseAutomaton::from_integer_matrix(vec![]), Err(GridError::EmptyGrid)));
    assert!(matches!(
        SparseAutomaton::from_integer_matrix(vec![vec![0, 0], vec![0]]),
        Err(GridError::NonRectangular)
    ));
}

#[test]
fn dense_and_sparse_engines_agree() {
    let mut d = Automaton::from_integer_matrix(sample()).unwrap();
    let mut s = SparseAutomaton::from_integer_matrix(sample()).unwrap();
    for _ in 0..12 {
        for i in 0..5 {
            for j in 0..5 {
                assert_eq!(d.matrix[i][j] == A, s.live_cells.contains((i, j)), "cell {} {}", i, j);
            }
        }
        d = d.iterate();
        s = s.iterate();
        assert_eq!(d.generation, s.generation);
    }
}

#[test]
fn sparse_markers_never_become_live() {
    let m = vec![vec![1, 1, 1], vec![1, 2, 1], vec![1, 1, 3]];
    let s = SparseAutomaton::from_integer_matrix(m).unwrap().iterate();
    assert!(!s.live_cells.contains((1, 1)));
    assert!(!s.live_cells.contains((2, 2)));
}

#[test]
fn sparse_moves_are_in_bounds_and_free() {
    let mut live = LiveCells::new();
    live.insert((0, 1));
    assert_eq!(sparse_moves((3, 3), &live, (0, 0)), vec![(1, 0)]);
    assert_eq!(sparse_moves((3, 3), &live, (1, 1)), vec![(1, 0), (1, 2), (2, 1)]);
    assert_eq!(sparse_moves((3, 3), &live, (2, 2)), vec![(2, 1), (1, 2)]);
    let all = sparse_moves((3, 3), &LiveCells::new(), (1, 1));
    assert_eq!(all.len(), 4);
}

#[test]
fn live_cells_insert_and_contains() {
    let mut live = LiveCells::new();
    assert!(!live.contains((2, 3)));
    live.insert((2, 3));
    live.insert((2, 4));
    assert!(live.contains((2, 3)));
    assert!(live.contains((2, 4)));
    assert!(!live.contains((3, 2)));
}
