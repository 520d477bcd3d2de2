use vstd::prelude::*;

use crate::automaton::{copy_matrix, evolve, grid_view, in_grid, next_matrix, Automaton, CellState, GridError, Position};
use crate::path_finder::astar::automaton_map::horizon_of;
use crate::path_finder::astar::{fits_search, no_path_within, path_finder};
use crate::path_finder::shared::{adjacent, open_at};

pub mod astar;
pub mod depth_first;
pub mod shared;

verus! {

/// Index i of the sequence stands on a cell that is not Alive at generation i + 1.
pub open spec fn avoids_live_cells(g: Seq<Seq<CellState>>, p: Seq<Position>) -> bool {
    forall|i: int|
        0 <= i < p.len() ==> open_at(evolve(g, i as nat), #[trigger] p[i].0 as int, p[i].1 as int)
}

/// A walk from `start` that moves one orthogonal step per generation and stands, at
/// each index i, on a cell that is not Alive at generation i + 1.
pub open spec fn is_walk(g: Seq<Seq<CellState>>, start: Position, p: Seq<Position>) -> bool {
    &&& p.len() >= 1
    &&& p[0] == start
    &&& forall|i: int|
        0 <= i < p.len() ==> open_at(evolve(g, i as nat), #[trigger] p[i].0 as int, p[i].1 as int)
    &&& forall|i: int| 0 <= i < p.len() - 1 ==> adjacent(#[trigger] p[i], p[i + 1])
}

/// A walk from `start` that ends on `finish`.
pub open spec fn is_valid_path(
    g: Seq<Seq<CellState>>,
    start: Position,
    finish: Position,
    p: Seq<Position>,
) -> bool {
    is_walk(g, start, p) && p.last() == finish
}

/// A finish whose orthogonal neighbours inside the grid are Alive at every generation
/// cannot be reached from any other start: no valid path exists, so `find_path` finds
/// none.
pub proof fn lemma_enclosed_finish(g: Seq<Seq<CellState>>, start: Position, finish: Position)
    requires
        start != finish,
        forall|k: nat, q: Position|
            adjacent(q, finish) && in_grid(#[trigger] evolve(g, k), q.0 as int, q.1 as int)
                ==> #[trigger] evolve(g, k)[q.0 as int][q.1 as int] == CellState::Alive,
    ensures
        forall|p: Seq<Position>| !#[trigger] is_valid_path(g, start, finish, p),
{
    assert forall|p: Seq<Position>| !#[trigger] is_valid_path(g, start, finish, p) by {
        if is_valid_path(g, start, finish, p) {
            let n = p.len() - 1;
            assert(n > 0);
            assert(adjacent(p[n - 1], p[n]));
            assert(open_at(evolve(g, (n - 1) as nat), p[n - 1].0 as int, p[n - 1].1 as int));
        }
    }
}

/// Replays the automaton alongside `result`: whether no position lies outside the
/// grid or on a cell that is Alive at its generation.
pub fn verify_result(automaton: &Automaton, result: &Vec<Position>) -> (b: bool)
    ensures
        b == avoids_live_cells(grid_view(&automaton.matrix), result@),
{
    let ghost g = grid_view(&automaton.matrix);
    let mut matrix = copy_matrix(&automaton.matrix);
    let mut i: usize = 0;
    while i < result.len()
        invariant
            0 <= i <= result@.len(),
            g == grid_view(&automaton.matrix),
            i < result@.len() ==> grid_view(&matrix) == evolve(g, i as nat),
            forall|k: int|
                0 <= k < i ==> open_at(evolve(g, k as nat), #[trigger] result@[k].0 as int, result@[k].1 as int),
        decreases result@.len() - i,
    {
        let (r, c) = result[i];
        if r >= matrix.len() || c >= matrix[r].len() || matrix[r][c] == CellState::Alive {
            return false;
        }
        if i + 1 < result.len() {
            matrix = next_matrix(&matrix);
        }
        i += 1;
    }
    true
}

/// Time-extended A* from the start to the finish cell, with its result checked by
/// replay: a shortest valid walk, or `Ok(None)` when no walk of at most horizon
/// positions exists. Refused with `WrongGenerationPrecondition` unless the automaton is at
/// generation 1.
pub fn find_path(automaton: Automaton) -> (r: Result<Option<Vec<Position>>, GridError>)
    requires
        automaton.wf(),
        fits_search(automaton.matrix@.len() as int, automaton.matrix@[0]@.len() as int),
    ensures
        (r == Err::<Option<Vec<Position>>, GridError>(GridError::WrongGenerationPrecondition))
            <==> automaton.generation != 1,
        automaton.generation == 1 && automaton.starting_point == automaton.finishing_point ==> (r
            matches Ok(Some(p)) && p@ == seq![automaton.starting_point]),
        automaton.generation == 1 && (forall|p: Seq<Position>|
            !#[trigger] is_valid_path(
                grid_view(&automaton.matrix),
                automaton.starting_point,
                automaton.finishing_point,
                p,
            )) ==> r matches Ok(None),
        match r {
            Ok(Some(p)) => {
                &&& is_valid_path(
                    grid_view(&automaton.matrix),
                    automaton.starting_point,
                    automaton.finishing_point,
                    p@,
                )
                &&& no_path_within(
                    grid_view(&automaton.matrix),
                    automaton.starting_point,
                    automaton.finishing_point,
                    p@.len() - 1,
                )
            },
            Ok(None) => no_path_within(
                grid_view(&automaton.matrix),
                automaton.starting_point,
                automaton.finishing_point,
                horizon_of(automaton.matrix@.len() as int, automaton.matrix@[0]@.len() as int),
            ),
            Err(e) => e == GridError::WrongGenerationPrecondition,
        },
{
    if automaton.generation != 1 {
        return Err(GridError::WrongGenerationPrecondition);
    }
    let ghost g = grid_view(&automaton.matrix);
    let ghost single = seq![automaton.starting_point];
    proof {
        if automaton.starting_point == automaton.finishing_point {
            assert(is_valid_path(g, automaton.starting_point, automaton.finishing_point, single));
        }
    }
    match path_finder(automaton.duplicate()) {
        Some(result) => {
            if verify_result(&automaton, &result) {
                Ok(Some(result))
            } else {
                Ok(None)
            }
        },
        None => Ok(None),
    }
}

} // verus!
