use stone_path::automaton::{Automaton, CellState, GridError};
use stone_path::path_finder::astar::automaton_map::{
    build_snapshots, AutomatonMap, InMemoryAutomatonMap, SnapshotAutomatonMap,
};
use stone_path::path_finder::astar::{path_finder as astar, path_finder_with_map};
use stone_path::path_finder::astar::priority_queue::{Node, PriorityQueue, State};
use stone_path::path_finder::depth_first::{
    order_moves, path_finder as depth_first, path_finder_with_map as depth_first_with_map, MAX_GENERATION,
};
use stone_path::path_finder::shared::{get_possible_moves, manhattan_distance};
use stone_path::path_finder::{find_path, verify_result};

use CellState::{Alive as A, Dead as D, Finish as F, Start as S};

fn sample() -> Vec<Vec<i32>> {
    vec![
        vec![2, 0, 1, 0, 0],
        vec![0, 1, 1, 0, 1],
        vec![1, 0, 0, 1, 0],
        vec![0, 1, 1, 0, 0],
        vec![0, 0, 1, 0, 3],
    ]
}

fn empty_three() -> Automaton {
    Automaton::from_integer_matrix(vec![vec![2, 0, 0], vec![0, 0, 0], vec![0, 0, 3]]).unwrap()
}

fn check_walk(a: &Automaton, p: &Vec<(usize, usize)>) {
    assert_eq!(p[0], a.starting_point);
    assert_eq!(*p.last().unwrap(), a.finishing_point);
    for w in p.windows(2) {
        let d = manhattan_distance(w[0], w[1]);
        assert_eq!(d, 1);
    }
    let mut cur = a.duplicate();
    for &(i, j) in p.iter() {
        assert_ne!(cur.matrix[i][j], A);
        cur = cur.iterate();
    }
}

fn st(r: usize, c: usize, g: u32) -> State {
    State { position: (r, c), automaton_generation: g }
}

#[test]
fn empty_grid_path_has_five_positions() {
    let a = empty_three();
    let p = find_path(a.duplicate()).unwrap().unwrap();
    assert_eq!(p.len(), 5);
    assert_eq!(p.len() - 1, 4);
    check_walk(&a, &p);
}

#[test]
fn start_equal_to_finish_gives_single_cell() {
    let a = Automaton {
        matrix: vec![vec![S, D], vec![D, D]],
        generation: 1,
        starting_point: (0, 0),
        finishing_point: (0, 0),
    };
    assert_eq!(astar(a.duplicate()), Some(vec![(0, 0)]));
    assert_eq!(find_path(a).unwrap(), Some(vec![(0, 0)]));
}

#[test]
fn enclosed_finish_has_no_path() {
    let m = vec![
        vec![2, 0, 1, 0, 1],
        vec![1, 1, 0, 0, 1],
        vec![0, 0, 1, 1, 0],
        vec![1, 1, 1, 0, 1],
        vec![1, 1, 0, 1, 3],
    ];
    let a = Automaton::from_integer_matrix(m).unwrap();
    assert_eq!(a.matrix[3][4], A);
    assert_eq!(a.matrix[4][3], A);
    assert_eq!(find_path(a.duplicate()).unwrap(), None);
    assert_eq!(depth_first(a).unwrap(), None);
}

#[test]
fn returned_paths_avoid_live_cells() {
    let a = Automaton::from_integer_matrix(sample()).unwrap();
    // the finish of this grid cannot be reached within the horizon
    assert_eq!(find_path(a.duplicate()).unwrap(), None);
    let b = empty_three();
    let p = find_path(b.duplicate()).unwrap().unwrap();
    check_walk(&b, &p);
    assert!(verify_result(&b, &p));
}

#[test]
fn shortest_path_through_evolving_obstacles() {
    let m = vec![
        vec![2, 0, 1, 0, 0, 1],
        vec![0, 0, 1, 0, 0, 0],
        vec![0, 1, 0, 1, 0, 0],
        vec![1, 0, 1, 0, 0, 0],
        vec![0, 1, 0, 0, 0, 0],
        vec![0, 0, 0, 0, 1, 3],
    ];
    let a = Automaton::from_integer_matrix(m).unwrap();
    let p = find_path(a.duplicate()).unwrap().unwrap();
    assert_eq!(p.len(), 21);
    check_walk(&a, &p);
    assert!(verify_result(&a, &p));
    if let Some(q) = depth_first(a.duplicate()).unwrap() {
        assert!(q.len() >= 21);
        check_walk(&a, &q);
    }
}

#[test]
fn find_path_needs_generation_one() {
    let a = empty_three().iterate();
    assert!(matches!(find_path(a), Err(GridError::WrongGenerationPrecondition)));
    let b = empty_three().iterate();
    assert!(matches!(depth_first(b), Err(GridError::WrongGenerationPrecondition)));
}

#[test]
fn astar_finds_shortest_on_open_grid() {
    let a = Automaton::from_integer_matrix(vec![vec![2, 0, 0, 0], vec![0, 0, 0, 3]]).unwrap();
    let p = astar(a.duplicate()).unwrap();
    assert_eq!(p.len(), 5);
    check_walk(&a, &p);
}

#[test]
fn depth_first_path_is_a_walk() {
    let a = empty_three();
    let p = depth_first(a.duplicate()).unwrap().unwrap();
    check_walk(&a, &p);
}

#[test]
fn verify_result_rejects_live_and_outside_cells() {
    let a = Automaton::from_integer_matrix(vec![vec![2, 1], vec![0, 3]]).unwrap();
    assert!(!verify_result(&a, &vec![(0, 1)]));
    assert!(verify_result(&a, &vec![(0, 0), (0, 1)]));
    assert!(!verify_result(&a, &vec![(0, 0), (5, 5)]));
    assert!(verify_result(&a, &vec![(0, 0), (1, 0)]));
    assert!(verify_result(&a, &vec![]));
}

#[test]
fn dense_moves_in_order_left_right_down_up() {
    let g = vec![vec![D, A, D], vec![D, D, D], vec![D, D, D]];
    assert_eq!(get_possible_moves(&g, (1, 1)), vec![(1, 0), (1, 2), (2, 1)]);
    assert_eq!(get_possible_moves(&g, (0, 0)), vec![(1, 0)]);
    assert_eq!(get_possible_moves(&g, (2, 2)), vec![(2, 1), (1, 2)]);
    let open = vec![vec![S, D, D], vec![D, D, D], vec![D, D, F]];
    assert_eq!(get_possible_moves(&open, (1, 1)).len(), 4);
    assert_eq!(get_possible_moves(&open, (0, 1)), vec![(0, 0), (0, 2), (1, 1)]);
}

#[test]
fn manhattan_values() {
    assert_eq!(manhattan_distance((0, 0), (2, 2)), 4);
    assert_eq!(manhattan_distance((5, 1), (2, 7)), 9);
    assert_eq!(manhattan_distance((3, 3), (3, 3)), 0);
}

#[test]
fn queue_gives_least_cost_first() {
    let mut q = PriorityQueue::new();
    assert_eq!(q.dequeue(), None);
    q.enqueue(Node { state: st(0, 0, 1), cost: 7 });
    q.enqueue(Node { state: st(0, 1, 2), cost: 3 });
    q.enqueue(Node { state: st(1, 1, 3), cost: 5 });
    assert_eq!(q.get_length(), 3);
    assert_eq!(q.dequeue(), Some(st(0, 1, 2)));
    assert_eq!(q.dequeue(), Some(st(1, 1, 3)));
    assert_eq!(q.dequeue(), Some(st(0, 0, 1)));
    assert_eq!(q.dequeue(), None);
    assert_eq!(q.get_length(), 0);
}

#[test]
fn queue_update_decreases_key() {
    let mut q = PriorityQueue::new();
    q.enqueue(Node { state: st(0, 0, 1), cost: 4 });
    q.enqueue(Node { state: st(2, 2, 2), cost: 9 });
    q.update(Node { state: st(2, 2, 2), cost: 1 });
    assert_eq!(q.get_length(), 2);
    assert_eq!(q.dequeue(), Some(st(2, 2, 2)));
    assert_eq!(q.dequeue(), Some(st(0, 0, 1)));
}

#[test]
fn same_cell_at_two_generations_is_two_states() {
    assert_ne!(st(1, 1, 2), st(1, 1, 3));
    assert_eq!(st(1, 1, 2), st(1, 1, 2));
    let mut q = PriorityQueue::new();
    q.enqueue(Node { state: st(1, 1, 2), cost: 4 });
    q.update(Node { state: st(1, 1, 3), cost: 2 });
    assert_eq!(q.get_length(), 2);
}

#[test]
fn in_memory_cache_covers_the_horizon() {
    let a = Automaton::from_integer_matrix(sample()).unwrap();
    let map = InMemoryAutomatonMap::new(a.duplicate());
    // horizon = floor(2.5 * (5 + 5)) = 25
    assert!(map.get_automaton_matrix_generation(25).is_ok());
    assert!(matches!(map.get_automaton_matrix_generation(26), Err(GridError::GenerationOutOfRange)));
    assert!(matches!(map.get_automaton_matrix_generation(0), Err(GridError::GenerationOutOfRange)));
    assert_eq!(*map.get_automaton_matrix_generation(1).unwrap(), a.matrix);
    let mut cur = a.duplicate();
    for g in 1..=25u32 {
        assert_eq!(*map.get_automaton_matrix_generation(g).unwrap(), cur.matrix);
        cur = cur.iterate();
    }
}

#[test]
fn horizon_rounds_down() {
    let a = Automaton::from_integer_matrix(vec![vec![2, 0, 3]]).unwrap();
    let map = InMemoryAutomatonMap::new(a);
    // floor(2.5 * 4) = 10
    assert!(map.get_automaton_matrix_generation(10).is_ok());
    assert!(map.get_automaton_matrix_generation(11).is_err());
    let b = Automaton::from_integer_matrix(vec![vec![2, 0], vec![0, 0], vec![0, 3]]).unwrap();
    let map_b = InMemoryAutomatonMap::new(b);
    // floor(2.5 * 5) = 12
    assert!(map_b.get_automaton_matrix_generation(12).is_ok());
    assert!(map_b.get_automaton_matrix_generation(13).is_err());
}

#[test]
fn snapshot_cache_matches_in_memory_cache() {
    let a = Automaton::from_integer_matrix(sample()).unwrap();
    let memory = InMemoryAutomatonMap::new(a.duplicate());
    let snapshots = build_snapshots(a.duplicate(), 4);
    assert_eq!(snapshots.len(), 6);
    assert!(snapshots.contains_key(&24));
    assert!(!snapshots.contains_key(&26));
    let replay = SnapshotAutomatonMap::new(a, snapshots, 4);
    for g in 1..=25u32 {
        let expected = memory.get_automaton_matrix_generation(g).unwrap().clone();
        assert_eq!(replay.get_automaton_matrix_generation(g).unwrap(), expected, "generation {}", g);
        assert_eq!(replay.grid_for(g).unwrap(), expected);
        assert_eq!(memory.grid_for(g).unwrap(), expected);
    }
}

#[test]
fn snapshot_cache_refuses_missing_snapshots() {
    let a = Automaton::from_integer_matrix(sample()).unwrap();
    let snapshots = build_snapshots(a.duplicate(), 4);
    let replay = SnapshotAutomatonMap::new(a, snapshots, 4);
    assert!(matches!(replay.get_automaton_matrix_generation(0), Err(GridError::GenerationOutOfRange)));
    assert!(matches!(replay.get_automaton_matrix_generation(29), Err(GridError::GenerationOutOfRange)));
    assert!(replay.get_automaton_matrix_generation(3).is_ok());
}

#[test]
fn order_moves_sorts_stably_by_distance() {
    let goal = (0, 0);
    let moves = vec![(2, 2), (1, 0), (0, 3), (0, 1), (3, 0)];
    // distances 4, 1, 3, 1, 3
    assert_eq!(order_moves(moves.clone(), goal, false), vec![(1, 0), (0, 1), (0, 3), (3, 0), (2, 2)]);
    assert_eq!(order_moves(moves, goal, true), vec![(0, 1), (1, 0), (0, 3), (3, 0), (2, 2)]);
}

#[test]
fn order_moves_swaps_only_on_a_tie() {
    let goal = (0, 0);
    let moves = vec![(0, 2), (1, 0)];
    assert_eq!(order_moves(moves.clone(), goal, true), vec![(1, 0), (0, 2)]);
    assert_eq!(order_moves(vec![(4, 4)], goal, true), vec![(4, 4)]);
    assert_eq!(order_moves(vec![], goal, true), vec![]);
}

#[test]
fn depth_first_start_equal_to_finish() {
    let a = Automaton {
        matrix: vec![vec![S, D], vec![D, D]],
        generation: 1,
        starting_point: (0, 0),
        finishing_point: (0, 0),
    };
    assert_eq!(depth_first(a).unwrap(), Some(vec![(0, 0)]));
}

#[test]
fn depth_first_path_is_bounded() {
    let m = vec![
        vec![2, 0, 1, 0, 0, 1],
        vec![0, 0, 1, 0, 0, 0],
        vec![0, 1, 0, 1, 0, 0],
        vec![1, 0, 1, 0, 0, 0],
        vec![0, 1, 0, 0, 0, 0],
        vec![0, 0, 0, 0, 1, 3],
    ];
    let a = Automaton::from_integer_matrix(m).unwrap();
    for _ in 0..5 {
        if let Some(p) = depth_first(a.duplicate()).unwrap() {
            assert!(p.len() <= MAX_GENERATION as usize);
            check_walk(&a, &p);
        }
    }
}

#[test]
fn searches_accept_a_snapshot_cache() {
    let a = empty_three();
    let replay = SnapshotAutomatonMap::new(a.duplicate(), build_snapshots(a.duplicate(), 4), 4);
    let p = path_finder_with_map(&a, &replay).unwrap();
    assert_eq!(p.len(), 5);
    check_walk(&a, &p);
    let q = depth_first_with_map(&a, &replay).unwrap().unwrap();
    check_walk(&a, &q);
    let b = Automaton::from_integer_matrix(sample()).unwrap();
    let memory = InMemoryAutomatonMap::new(b.duplicate());
    assert_eq!(path_finder_with_map(&b, &memory), None);
}
