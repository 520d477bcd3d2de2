use vstd::prelude::*;

use crate::automaton::{
    evolve, grid_view, holds, is_nonempty, is_rectangular, lemma_evolve_keeps_shape, Automaton,
    CellState, GridError, Position,
};
use crate::path_finder::astar::automaton_map::{AutomatonMap, InMemoryAutomatonMap};
use crate::path_finder::shared::{
    adjacent, lemma_moves_are_free_neighbours, manhattan, manhattan_distance, open_at,
};
use crate::path_finder::{is_valid_path, is_walk};

verus! {

/// Relies on rand::random: a value drawn from the thread-local generator. Nothing is
/// promised of the value.
pub assume_specification<T>[ rand::random::<T> ]() -> (r: T)
    where
        rand::distributions::Standard: rand::distributions::Distribution<T>,
;

/// Wherever the map holds a grid, it is the grid that `g` evolves into by then.
pub open spec fn agrees_with<M: AutomatonMap>(m: &M, g: Seq<Seq<CellState>>) -> bool {
    forall|generation: u32|
        generation >= 1 && (#[trigger] m.grid_at(generation)) is Some ==> m.grid_at(generation)
            == Some(evolve(g, (generation - 1) as nat))
}

/// The most expansions one search may make.
pub const MAX_CALLS: u32 = 10000;

/// The last generation a depth-first branch may reach.
pub const MAX_GENERATION: u32 = 1000;

/// Every position of `s` is a legal move from `from` in grid `g`.
pub open spec fn legal_moves(g: Seq<Seq<CellState>>, from: Position, s: Seq<Position>) -> bool {
    forall|k: int|
        0 <= k < s.len() ==> open_at(g, #[trigger] s[k].0 as int, s[k].1 as int) && adjacent(
            from,
            s[k],
        )
}

/// Depth-first baseline: tries the moves nearest the finish first, swapping the two
/// best at random when they tie. Gives up after `MAX_CALLS` expansions or at generation
/// `MAX_GENERATION`; a path it returns is a valid walk, not necessarily a shortest one.
pub fn path_finder(automaton: Automaton) -> (r: Result<Option<Vec<Position>>, GridError>)
    requires
        automaton.wf(),
        5 * (automaton.matrix@.len() + automaton.matrix@[0]@.len()) <= u32::MAX,
    ensures
        (r is Err) <==> automaton.generation != 1,
        automaton.generation == 1 && automaton.starting_point == automaton.finishing_point ==> (r
            matches Ok(Some(p)) && p@ == seq![automaton.starting_point]),
        match r {
            Ok(Some(p)) => {
                &&& is_valid_path(
                    grid_view(&automaton.matrix),
                    automaton.starting_point,
                    automaton.finishing_point,
                    p@,
                )
                &&& p@.len() <= MAX_GENERATION
            },
            Ok(None) => true,
            Err(e) => e == GridError::WrongGenerationPrecondition,
        },
{
    let automaton_map = InMemoryAutomatonMap::new(automaton.duplicate());
    path_finder_with_map(&automaton, &automaton_map)
}

/// The depth-first search of `path_finder`, reading grids from a cache of the caller's
/// choice.
pub fn path_finder_with_map<M: AutomatonMap>(automaton: &Automaton, automaton_map: &M) -> (r: Result<
    Option<Vec<Position>>,
    GridError,
>)
    requires
        automaton.wf(),
        5 * (automaton.matrix@.len() + automaton.matrix@[0]@.len()) <= u32::MAX,
        automaton_map.map_wf(),
        agrees_with(automaton_map, grid_view(&automaton.matrix)),
    ensures
        (r is Err) <==> automaton.generation != 1,
        automaton.generation == 1 && automaton.starting_point == automaton.finishing_point ==> (r
            matches Ok(Some(p)) && p@ == seq![automaton.starting_point]),
        match r {
            Ok(Some(p)) => {
                &&& is_valid_path(
                    grid_view(&automaton.matrix),
                    automaton.starting_point,
                    automaton.finishing_point,
                    p@,
                )
                &&& p@.len() <= MAX_GENERATION
            },
            Ok(None) => true,
            Err(e) => e == GridError::WrongGenerationPrecondition,
        },
{
    if automaton.generation != 1 {
        return Err(GridError::WrongGenerationPrecondition);
    }
    let ghost g = grid_view(&automaton.matrix);
    let starting_point = automaton.starting_point;
    let finishing_point = automaton.finishing_point;
    proof {
        lemma_evolve_keeps_shape(g, 0);
    }
    let mut calls: u32 = 0;
    let mut path: Vec<Position> = Vec::new();
    path.push(starting_point);
    let ghost path_start = path;
    let result = helper(
        1,
        starting_point,
        finishing_point,
        path,
        automaton_map,
        &mut calls,
        Ghost(g),
        Ghost(starting_point),
    );
    assert(path_start@ =~= seq![starting_point]);
    if result.1 {
        Ok(Some(result.0))
    } else {
        Ok(None)
    }
}


fn copy_path(path: &Vec<Position>) -> (r: Vec<Position>)
    ensures
        r@ == path@,
{
    let mut out: Vec<Position> = Vec::new();
    let mut i: usize = 0;
    while i < path.len()
        invariant
            0 <= i <= path@.len(),
            out@ == path@.take(i as int),
        decreases path@.len() - i,
    {
        out.push(path[i]);
        assert(out@ =~= path@.take(i + 1));
        i += 1;
    }
    assert(out@ =~= path@);
    out
}

/// How many leading cells of `s` are no farther than `d` from `goal`: where a cell at
/// distance `d` goes, after the cells that tie with it.
pub open spec fn first_farther(s: Seq<Position>, goal: Position, d: int) -> int
    decreases s.len(),
{
    if s.len() == 0 {
        0
    } else if manhattan(goal, s[0]) > d {
        0
    } else {
        1 + first_farther(s.drop_first(), goal, d)
    }
}

/// `s` sorted by ascending Manhattan distance to `goal`, ties kept in input order.
pub open spec fn sorted_by_distance(s: Seq<Position>, goal: Position) -> Seq<Position>
    decreases s.len(),
{
    if s.len() == 0 {
        s
    } else {
        let rest = sorted_by_distance(s.drop_last(), goal);
        rest.insert(first_farther(rest, goal, manhattan(goal, s.last())), s.last())
    }
}

/// `s` with its first two cells exchanged when `swap` holds and they tie in distance.
pub open spec fn swap_front(s: Seq<Position>, goal: Position, swap: bool) -> Seq<Position> {
    if swap && s.len() > 1 && manhattan(goal, s[0]) == manhattan(goal, s[1]) {
        s.update(0, s[1]).update(1, s[0])
    } else {
        s
    }
}

proof fn lemma_first_farther_bound(s: Seq<Position>, goal: Position, d: int)
    ensures
        0 <= first_farther(s, goal, d) <= s.len(),
    decreases s.len(),
{
    if s.len() > 0 {
        lemma_first_farther_bound(s.drop_first(), goal, d);
    }
}

/// Sorting keeps the length and takes every cell from the input.
proof fn lemma_sorted_elements(s: Seq<Position>, goal: Position)
    ensures
        sorted_by_distance(s, goal).len() == s.len(),
        forall|k: int|
            0 <= k < s.len() ==> s.contains(#[trigger] sorted_by_distance(s, goal)[k]),
    decreases s.len(),
{
    if s.len() > 0 {
        let d = s.drop_last();
        let rest = sorted_by_distance(d, goal);
        lemma_sorted_elements(d, goal);
        let idx = first_farther(rest, goal, manhattan(goal, s.last()));
        lemma_first_farther_bound(rest, goal, manhattan(goal, s.last()));
        rest.insert_ensures(idx, s.last());
        let r = sorted_by_distance(s, goal);
        assert forall|k: int| 0 <= k < s.len() implies s.contains(#[trigger] r[k]) by {
            if k < idx {
                assert(d.contains(rest[k]));
                let j = choose|j: int| 0 <= j < d.len() && d[j] == rest[k];
                assert(s[j] == r[k]);
            } else if k == idx {
                assert(s[s.len() - 1] == r[k]);
            } else {
                assert(r[k] == rest[k - 1]);
                assert(d.contains(rest[k - 1]));
                let j = choose|j: int| 0 <= j < d.len() && d[j] == rest[k - 1];
                assert(s[j] == r[k]);
            }
        }
    }
}

/// The candidate moves in the order the depth-first search tries them: stably sorted
/// by Manhattan distance to `goal`, with the first two exchanged when `swap` holds and
/// they tie.
pub fn order_moves(moves: Vec<Position>, goal: Position, swap: bool) -> (r: Vec<Position>)
    requires
        forall|k: int| 0 <= k < moves@.len() ==> manhattan(goal, #[trigger] moves@[k]) <= u32::MAX,
    ensures
        r@ == swap_front(sorted_by_distance(moves@, goal), goal, swap),
{
    let mut out: Vec<Position> = Vec::new();
    let mut i: usize = 0;
    while i < moves.len()
        invariant
            0 <= i <= moves@.len(),
            out@ == sorted_by_distance(moves@.take(i as int), goal),
            forall|k: int| 0 <= k < moves@.len() ==> manhattan(goal, #[trigger] moves@[k]) <= u32::MAX,
        decreases moves@.len() - i,
    {
        proof {
            lemma_sorted_elements(moves@.take(i as int), goal);
            assert forall|k: int| 0 <= k < out@.len() implies manhattan(goal, #[trigger] out@[k]) <= u32::MAX by {
                let t = moves@.take(i as int);
                assert(t.contains(out@[k]));
                let j = choose|j: int| 0 <= j < t.len() && t[j] == out@[k];
                assert(moves@[j] == out@[k]);
            }
        }
        let x = moves[i];
        let d = manhattan_distance(goal, x);
        let mut k: usize = 0;
        assert(out@.skip(0) =~= out@);
        while k < out.len() && manhattan_distance(goal, out[k]) <= d
            invariant
                0 <= k <= out@.len(),
                d == manhattan(goal, x),
                forall|j: int| 0 <= j < out@.len() ==> manhattan(goal, #[trigger] out@[j]) <= u32::MAX,
                first_farther(out@, goal, d as int) == k + first_farther(out@.skip(k as int), goal, d as int),
            decreases out@.len() - k,
        {
            assert(out@.skip(k as int).drop_first() =~= out@.skip(k + 1));
            k += 1;
        }
        proof {
            if k == out@.len() {
                assert(out@.skip(k as int).len() == 0);
            }
            assert(moves@.take(i + 1).drop_last() =~= moves@.take(i as int));
        }
        out.insert(k, x);
        i += 1;
    }
    assert(moves@.take(moves@.len() as int) =~= moves@);
    if swap && out.len() > 1 {
        proof {
            lemma_sorted_elements(moves@, goal);
            let t = moves@;
            let j0 = choose|j: int| 0 <= j < t.len() && t[j] == out@[0];
            let j1 = choose|j: int| 0 <= j < t.len() && t[j] == out@[1];
            assert(manhattan(goal, moves@[j0]) <= u32::MAX);
            assert(manhattan(goal, moves@[j1]) <= u32::MAX);
        }
        if manhattan_distance(goal, out[0]) == manhattan_distance(goal, out[1]) {
            let first_option = out[0];
            let second_option = out[1];
            out.set(0, second_option);
            out.set(1, first_option);
        }
    }
    out
}

/// Ordering keeps the length and takes every cell from the input.
proof fn lemma_order_elements(s: Seq<Position>, goal: Position, swap: bool)
    ensures
        swap_front(sorted_by_distance(s, goal), goal, swap).len() == s.len(),
        forall|k: int|
            0 <= k < s.len() ==> s.contains(
                #[trigger] swap_front(sorted_by_distance(s, goal), goal, swap)[k],
            ),
{
    lemma_sorted_elements(s, goal);
    let t = sorted_by_distance(s, goal);
    let r = swap_front(t, goal, swap);
    assert forall|k: int| 0 <= k < s.len() implies s.contains(#[trigger] r[k]) by {
        if swap && t.len() > 1 && manhattan(goal, t[0]) == manhattan(goal, t[1]) {
            if k == 0 {
                assert(s.contains(t[1]));
            } else if k == 1 {
                assert(s.contains(t[0]));
            } else {
                assert(s.contains(t[k]));
            }
        } else {
            assert(s.contains(t[k]));
        }
    }
}

#[verifier::rlimit(80)]
fn helper<M: AutomatonMap>(
    generation: u32,
    starting_point: Position,
    ending_point: Position,
    path: Vec<Position>,
    automaton_map: &M,
    calls: &mut u32,
    Ghost(g): Ghost<Seq<Seq<CellState>>>,
    Ghost(origin): Ghost<Position>,
) -> (r: (Vec<Position>, bool))
    requires
        automaton_map.map_wf(),
        agrees_with(automaton_map, g),
        is_nonempty(g),
        is_rectangular(g),
        5 * (g.len() + g[0].len()) <= u32::MAX,
        holds(g, ending_point),
        1 <= generation <= MAX_GENERATION,
        path@.len() == generation,
        is_walk(g, origin, path@),
        path@.last() == starting_point,
        *old(calls) <= MAX_CALLS,
    ensures
        *old(calls) <= *final(calls) <= MAX_CALLS,
        *old(calls) < MAX_CALLS ==> *old(calls) < *final(calls),
        *old(calls) < MAX_CALLS - 1 && starting_point == ending_point ==> r.1 && r.0@ == path@,
        !r.1 ==> r.0@ == path@,
        r.1 ==> {
            &&& is_valid_path(g, origin, ending_point, r.0@)
            &&& path@.len() <= r.0@.len() <= MAX_GENERATION
            &&& r.0@.take(path@.len() as int) == path@
            &&& *final(calls) < MAX_CALLS
        },
    decreases MAX_GENERATION - generation,
{
    let ghost entry_calls = *calls;
    if *calls < MAX_CALLS {
        *calls = *calls + 1;
    }
    if *calls >= MAX_CALLS {
        return (path, false);
    }
    if starting_point.0 == ending_point.0 && starting_point.1 == ending_point.1 {
        assert(starting_point == ending_point);
        return (path, true);
    }
    if generation == MAX_GENERATION {
        return (path, false);
    }
    let next_generation = generation + 1;
    let ghost gn = evolve(g, (next_generation - 1) as nat);
    proof {
        lemma_evolve_keeps_shape(g, (next_generation - 1) as nat);
        lemma_evolve_keeps_shape(g, (generation - 1) as nat);
        assert(open_at(evolve(g, (generation - 1) as nat), path@[generation - 1].0 as int, path@[generation - 1].1 as int));
        assert(is_rectangular(gn)) by {
            assert forall|i: int| 0 <= i < gn.len() implies #[trigger] gn[i].len() == gn[0].len() by {
                assert(g[i].len() == g[0].len());
            }
        }
        assert(g[starting_point.0 as int].len() == g[0].len());
        if automaton_map.grid_at(next_generation) is Some {
            assert(automaton_map.grid_at(next_generation) == Some(gn));
        }
        lemma_moves_are_free_neighbours(gn, starting_point);
    }
    let possible_moves = match automaton_map.moves_at(next_generation, starting_point) {
        Ok(m) => m,
        Err(_) => {
            // Past what the cache holds: a dead end.
            return (path, false);
        },
    };
    if possible_moves.len() == 0 {
        return (path, false);
    }
    proof {
        assert(g[ending_point.0 as int].len() == g[0].len());
        assert forall|k: int| 0 <= k < possible_moves@.len() implies manhattan(ending_point, #[trigger] possible_moves@[k]) <= u32::MAX by {
            assert(gn[possible_moves@[k].0 as int].len() == g[0].len());
        }
    }
    // The draw only matters when the two nearest moves tie; `order_moves` applies it then.
    let swap: bool = if possible_moves.len() > 1 {
        rand::random()
    } else {
        false
    };
    let ghost candidates = possible_moves@;
    let possible_moves = order_moves(possible_moves, ending_point, swap);
    proof {
        lemma_order_elements(candidates, ending_point, swap);
        assert forall|k: int| 0 <= k < possible_moves@.len() implies open_at(gn, #[trigger] possible_moves@[k].0 as int, possible_moves@[k].1 as int) && adjacent(starting_point, possible_moves@[k]) by {
            let j = choose|j: int| 0 <= j < candidates.len() && candidates[j] == possible_moves@[k];
            assert(open_at(gn, candidates[j].0 as int, candidates[j].1 as int));
        }
    }
    let mut k: usize = 0;
    while k < possible_moves.len()
        invariant
            0 <= k <= possible_moves@.len(),
            legal_moves(gn, starting_point, possible_moves@),
            automaton_map.map_wf(),
            agrees_with(automaton_map, g),
            is_nonempty(g),
            is_rectangular(g),
            5 * (g.len() + g[0].len()) <= u32::MAX,
            holds(g, ending_point),
            gn == evolve(g, generation as nat),
            next_generation == generation + 1,
            generation < MAX_GENERATION,
            path@.len() == generation,
            is_walk(g, origin, path@),
            path@.last() == starting_point,
            entry_calls == *old(calls),
            starting_point != ending_point,
            entry_calls < *calls <= MAX_CALLS,
        decreases possible_moves@.len() - k,
    {
        let point = possible_moves[k];
        let mut path_clone = copy_path(&path);
        path_clone.push(point);
        proof {
            let p = path_clone@;
            assert(p.drop_last() == path@);
            assert forall|i: int| 0 <= i < p.len() implies open_at(evolve(g, i as nat), #[trigger] p[i].0 as int, p[i].1 as int) by {
                if i < p.len() - 1 {
                    assert(p[i] == path@[i]);
                }
            }
            assert forall|i: int| 0 <= i < p.len() - 1 implies adjacent(#[trigger] p[i], p[i + 1]) by {
                if i < p.len() - 2 {
                    assert(p[i] == path@[i] && p[i + 1] == path@[i + 1]);
                } else {
                    assert(p[i] == path@.last());
                }
            }
        }
        let result = helper(
            next_generation,
            point,
            ending_point,
            path_clone,
            automaton_map,
            calls,
            Ghost(g),
            Ghost(origin),
        );
        if result.1 {
            proof {
                let n = path@.len() as int;
                assert forall|i: int| 0 <= i < n implies #[trigger] result.0@[i] == path@[i] by {
                    assert(result.0@.take(path_clone@.len() as int)[i] == path_clone@[i]);
                }
                assert(result.0@.take(n) =~= path@);
            }
            return result;
        }
        k += 1;
    }
    (path, false)
}

} // verus!
