use std::collections::HashMap;
use std::collections::HashSet;
use vstd::arithmetic::div_mod::lemma_fundamental_div_mod_converse;
use vstd::prelude::*;

use crate::automaton::{
    evolve, grid_view, holds, is_nonempty, is_rectangular, lemma_evolve_keeps_shape,
    Automaton, CellState, Position,
};
use crate::path_finder::{is_valid_path, is_walk};
use crate::path_finder::shared::{
    adjacent, dense_moves, lemma_free_neighbour_is_move, lemma_moves_are_free_neighbours, manhattan,
    manhattan_distance, open_at,
};

pub mod automaton_map;
pub mod priority_queue;

use self::automaton_map::{horizon_of, AutomatonMap, InMemoryAutomatonMap};
use self::priority_queue::{least_at, without_state, Node, PriorityQueue, State};

verus! {

broadcast use vstd::std_specs::hash::group_hash_axioms;

/// What the search knows of a state: its cost, and the cell it was reached from one
/// generation earlier.
#[derive(Clone, Copy, Debug)]
pub struct Result {
    pub cost: u32,
    pub previous_position: Position,
}

/// The grids that the search can handle: generation numbers and state keys fit their
/// integer types.
pub open spec fn fits_search(height: int, width: int) -> bool {
    &&& 5 * (height + width) <= u32::MAX
    &&& (horizon_of(height, width) + 1) * height * width <= u64::MAX
}

pub open spec fn in_range(s: State, h: int, w: int, horizon: int) -> bool {
    &&& 1 <= s.automaton_generation <= horizon
    &&& s.position.0 < h
    &&& s.position.1 < w
}

/// A distinct number for each state in range: generation, row and column in order.
pub open spec fn key_of(s: State, h: int, w: int) -> int {
    ((s.automaton_generation as int) * h + s.position.0 as int) * w + s.position.1 as int
}

pub open spec fn skey(s: State, h: int, w: int) -> u64 {
    key_of(s, h, w) as u64
}

pub open spec fn previous_state(s: State, v: Result) -> State {
    State { position: v.previous_position, automaton_generation: (s.automaton_generation - 1) as u32 }
}

/// What the search records of a state it has reached: the cell is free at the
/// state's generation, and the state is the start or was reached by one step from a
/// recorded state of the generation before.
pub open spec fn well_reached(
    s: State,
    v: Result,
    results: Map<u64, Result>,
    g: Seq<Seq<CellState>>,
    start: Position,
    h: int,
    w: int,
    horizon: int,
) -> bool {
    &&& open_at(
        evolve(g, (s.automaton_generation - 1) as nat),
        s.position.0 as int,
        s.position.1 as int,
    )
    &&& s.automaton_generation == 1 ==> s.position == start
    &&& s.automaton_generation > 1 ==> {
        &&& in_range(previous_state(s, v), h, w, horizon)
        &&& results.contains_key(skey(previous_state(s, v), h, w))
        &&& adjacent(v.previous_position, s.position)
    }
}

pub open spec fn results_ok(
    results: Map<u64, Result>,
    g: Seq<Seq<CellState>>,
    start: Position,
    h: int,
    w: int,
    horizon: int,
) -> bool {
    forall|s: State|
        in_range(s, h, w, horizon) && #[trigger] results.contains_key(skey(s, h, w))
            ==> well_reached(s, results[skey(s, h, w)], results, g, start, h, w, horizon)
}

pub open spec fn queue_ok(q: Seq<Node>, results: Map<u64, Result>, h: int, w: int, horizon: int) -> bool {
    forall|i: int|
        0 <= i < q.len() ==> in_range(#[trigger] q[i].state, h, w, horizon)
            && results.contains_key(skey(q[i].state, h, w))
}

/// Each queued node costs its generation plus its Manhattan distance to the finish.
pub open spec fn costs_ok(q: Seq<Node>, finish: Position) -> bool {
    forall|i: int|
        0 <= i < q.len() ==> #[trigger] q[i].cost == q[i].state.automaton_generation + manhattan(
            finish,
            q[i].state.position,
        )
}

proof fn lemma_without_state_keeps_costs(s: Seq<Node>, state: State, finish: Position)
    requires
        costs_ok(s, finish),
    ensures
        costs_ok(without_state(s, state), finish),
    decreases s.len(),
{
    reveal(Seq::filter);
    if s.len() > 0 {
        lemma_without_state_keeps_costs(s.drop_last(), state, finish);
    }
}

/// On a walk that ends at `finish`, the finish is no farther from index j than the
/// steps left.
proof fn lemma_distance_left(g: Seq<Seq<CellState>>, start: Position, finish: Position, p: Seq<Position>, j: int)
    requires
        is_valid_path(g, start, finish, p),
        0 <= j < p.len(),
    ensures
        manhattan(finish, p[j]) <= p.len() - 1 - j,
    decreases p.len() - j,
{
    if j < p.len() - 1 {
        lemma_distance_left(g, start, finish, p, j + 1);
        assert(adjacent(p[j], p[j + 1]));
    }
}

/// The state reached after stepping back i times from generation `top`.
pub open spec fn back_state(b: Seq<Position>, top: int, i: int) -> State {
    State { position: b[i], automaton_generation: (top - i) as u32 }
}

/// The state of a walk at index j: its cell at generation j + 1.
pub open spec fn walk_state(p: Seq<Position>, j: int) -> State {
    State { position: p[j], automaton_generation: (j + 1) as u32 }
}

/// Along a walk from the start, the first state that is not closed waits in the queue.
proof fn lemma_frontier(
    closed: Set<u64>,
    results: Map<u64, Result>,
    q: Seq<Node>,
    g: Seq<Seq<CellState>>,
    start: Position,
    finish: Position,
    h: int,
    w: int,
    horizon: int,
    p: Seq<Position>,
    i: int,
)
    requires
        fits_search(h, w),
        horizon == horizon_of(h, w),
        is_nonempty(g),
        is_rectangular(g),
        h == g.len(),
        w == g[0].len(),
        search_ok(closed, results, q, None, g, finish, h, w, horizon),
        results.contains_key(skey(State { position: start, automaton_generation: 1 }, h, w)),
        is_walk(g, start, p),
        p.len() <= horizon,
        0 <= i < p.len(),
    ensures
        in_range(walk_state(p, i), h, w, horizon),
        closed.contains(skey(walk_state(p, i), h, w))
            || exists|j: int|
            0 <= j <= i && #[trigger] is_queued(q, walk_state(p, j)),
    decreases i,
{
    lemma_evolve_keeps_shape(g, i as nat);
    assert(open_at(evolve(g, i as nat), p[i].0 as int, p[i].1 as int));
    assert(g[p[i].0 as int].len() == g[0].len());
    let cur = walk_state(p, i);
    if i == 0 {
        if !closed.contains(skey(cur, h, w)) {
            assert(is_queued(q, cur));
        }
    } else {
        lemma_frontier(closed, results, q, g, start, finish, h, w, horizon, p, i - 1);
        let prev = State { position: p[i - 1], automaton_generation: i as u32 };
        assert(prev == walk_state(p, i - 1));
        if closed.contains(skey(prev, h, w)) {
            assert(successors_recorded(prev, results, g, h, w, horizon));
            let gi = evolve(g, i as nat);
            lemma_evolve_keeps_shape(g, (i - 1) as nat);
            assert(open_at(evolve(g, (i - 1) as nat), p[i - 1].0 as int, p[i - 1].1 as int));
            assert(adjacent(p[i - 1], p[i]));
            assert(is_rectangular(gi)) by {
                assert forall|r: int| 0 <= r < gi.len() implies #[trigger] gi[r].len() == gi[0].len() by {
                    assert(g[r].len() == g[0].len());
                }
            }
            assert(g[p[i - 1].0 as int].len() == g[0].len());
            lemma_free_neighbour_is_move(gi, p[i - 1], p[i]);
            assert(dense_moves(evolve(g, prev.automaton_generation as nat), prev.position).contains(p[i]));
            assert(results.contains_key(skey(cur, h, w)));
            if !closed.contains(skey(cur, h, w)) {
                assert(is_queued(q, cur));
            }
        } else {
            let j = choose|j: int| 0 <= j <= i - 1 && #[trigger] is_queued(q, walk_state(p, j));
            assert(0 <= j <= i);
        }
    }
}

/// The first goal state to leave the queue is at the least generation any walk can
/// reach the finish.
proof fn lemma_optimal(
    closed: Set<u64>,
    results: Map<u64, Result>,
    q: Seq<Node>,
    k: int,
    rest: Seq<Node>,
    current: State,
    g: Seq<Seq<CellState>>,
    start: Position,
    finish: Position,
    h: int,
    w: int,
    horizon: int,
)
    requires
        fits_search(h, w),
        horizon == horizon_of(h, w),
        is_nonempty(g),
        is_rectangular(g),
        h == g.len(),
        w == g[0].len(),
        search_ok(closed, results, q, None, g, finish, h, w, horizon),
        costs_ok(q, finish),
        least_at(q, k, current, rest),
        in_range(current, h, w, horizon),
        current.position == finish,
        results.contains_key(skey(State { position: start, automaton_generation: 1 }, h, w)),
    ensures
        no_path_within(g, start, finish, current.automaton_generation - 1),
{
    assert forall|p: Seq<Position>| p.len() <= current.automaton_generation - 1 implies !#[trigger] is_valid_path(g, start, finish, p) by {
        if is_valid_path(g, start, finish, p) {
            let n = p.len() - 1;
            lemma_frontier(closed, results, q, g, start, finish, h, w, horizon, p, n);
            let last = walk_state(p, n);
            assert(!closed.contains(skey(last, h, w)));
            let j = choose|j: int| 0 <= j <= n && #[trigger] is_queued(q, walk_state(p, j));
            let sj = walk_state(p, j);
            let idx = choose|idx: int| 0 <= idx < q.len() && #[trigger] q[idx].state == sj;
            lemma_distance_left(g, start, finish, p, j);
            assert(q[idx].cost == sj.automaton_generation + manhattan(finish, p[j]));
            assert(q[k].cost <= q[idx].cost);
            assert(q[k].cost == current.automaton_generation + manhattan(finish, finish));
        }
    }
}

proof fn lemma_key_bound(s: State, h: int, w: int, horizon: int)
    requires
        in_range(s, h, w, horizon),
    ensures
        0 <= (s.automaton_generation as int) * h <= (s.automaton_generation as int) * h
            + s.position.0 as int,
        0 <= ((s.automaton_generation as int) * h + s.position.0 as int) <= ((
        s.automaton_generation as int) * h + s.position.0 as int) * w,
        key_of(s, h, w) < (horizon + 1) * h * w,
{
    let g = s.automaton_generation as int;
    let r = s.position.0 as int;
    let c = s.position.1 as int;
    assert(0 <= g * h) by (nonlinear_arith)
        requires
            g >= 1,
            h > r >= 0,
    ;
    assert((g * h + r) <= (g * h + r) * w) by (nonlinear_arith)
        requires
            g >= 1,
            h > r >= 0,
            w > c >= 0,
    ;
    assert((g * h + r) * w + c < (horizon + 1) * h * w) by (nonlinear_arith)
        requires
            1 <= g <= horizon,
            h > r >= 0,
            w > c >= 0,
    ;
}

proof fn lemma_key_injective(s1: State, s2: State, h: int, w: int, horizon: int)
    requires
        in_range(s1, h, w, horizon),
        in_range(s2, h, w, horizon),
        key_of(s1, h, w) == key_of(s2, h, w),
    ensures
        s1 == s2,
{
    let a1 = (s1.automaton_generation as int) * h + s1.position.0 as int;
    let a2 = (s2.automaton_generation as int) * h + s2.position.0 as int;
    let k = key_of(s1, h, w);
    lemma_fundamental_div_mod_converse(k, w, a1, s1.position.1 as int);
    lemma_fundamental_div_mod_converse(k, w, a2, s2.position.1 as int);
    lemma_fundamental_div_mod_converse(
        a1,
        h,
        s1.automaton_generation as int,
        s1.position.0 as int,
    );
    lemma_fundamental_div_mod_converse(
        a2,
        h,
        s2.automaton_generation as int,
        s2.position.0 as int,
    );
}

proof fn lemma_skey_injective(s1: State, s2: State, h: int, w: int, horizon: int)
    requires
        in_range(s1, h, w, horizon),
        in_range(s2, h, w, horizon),
        (horizon + 1) * h * w <= u64::MAX,
        skey(s1, h, w) == skey(s2, h, w),
    ensures
        s1 == s2,
{
    lemma_key_bound(s1, h, w, horizon);
    lemma_key_bound(s2, h, w, horizon);
    lemma_key_injective(s1, s2, h, w, horizon);
}

proof fn lemma_without_state_keeps(s: Seq<Node>, state: State, results: Map<u64, Result>, h: int, w: int, horizon: int)
    requires
        queue_ok(s, results, h, w, horizon),
    ensures
        queue_ok(without_state(s, state), results, h, w, horizon),
    decreases s.len(),
{
    reveal(Seq::filter);
    if s.len() > 0 {
        lemma_without_state_keeps(s.drop_last(), state, results, h, w, horizon);
    }
}

/// No walk of at most `horizon` positions leads from `start` to `finish`.
pub open spec fn no_path_within(
    g: Seq<Seq<CellState>>,
    start: Position,
    finish: Position,
    horizon: int,
) -> bool {
    forall|p: Seq<Position>| p.len() <= horizon ==> !#[trigger] is_valid_path(g, start, finish, p)
}

pub open spec fn keys_below(n: u64) -> Set<u64> {
    Set::new(|k: u64| k < n)
}

pub open spec fn is_queued(q: Seq<Node>, s: State) -> bool {
    exists|i: int| 0 <= i < q.len() && #[trigger] q[i].state == s
}

/// Every free neighbour of `s` at the next generation has been recorded, unless `s`
/// stands at the horizon.
pub open spec fn successors_recorded(
    s: State,
    results: Map<u64, Result>,
    g: Seq<Seq<CellState>>,
    h: int,
    w: int,
    horizon: int,
) -> bool {
    s.automaton_generation < horizon ==> forall|q: Position| #[trigger]
        dense_moves(evolve(g, s.automaton_generation as nat), s.position).contains(q)
            ==> results.contains_key(
            skey(
                State { position: q, automaton_generation: (s.automaton_generation + 1) as u32 },
                h,
                w,
            ),
        )
}

/// The bookkeeping of the search: a closed state was recorded, is not the goal, and had
/// its successors recorded; a recorded state that is not closed waits in the queue
/// (but for `exempt`, the state being expanded).
pub open spec fn search_ok(
    closed: Set<u64>,
    results: Map<u64, Result>,
    q: Seq<Node>,
    exempt: Option<State>,
    g: Seq<Seq<CellState>>,
    finish: Position,
    h: int,
    w: int,
    horizon: int,
) -> bool {
    &&& forall|s: State|
        in_range(s, h, w, horizon) && #[trigger] closed.contains(skey(s, h, w)) ==> {
            &&& results.contains_key(skey(s, h, w))
            &&& s.position != finish
            &&& successors_recorded(s, results, g, h, w, horizon)
        }
    &&& forall|s: State|
        in_range(s, h, w, horizon) && #[trigger] results.contains_key(skey(s, h, w))
            && !closed.contains(skey(s, h, w)) && exempt != Some(s) ==> is_queued(q, s)
}

proof fn lemma_keys_below(n: u64)
    ensures
        keys_below(n).finite(),
        keys_below(n).len() == n,
    decreases n,
{
    if n == 0 {
        assert(keys_below(0) =~= Set::<u64>::empty());
    } else {
        lemma_keys_below((n - 1) as u64);
        assert(keys_below(n) =~= keys_below((n - 1) as u64).insert((n - 1) as u64));
    }
}

proof fn lemma_remove_keeps_others(
    q: Seq<Node>,
    k: int,
    current: State,
    closed: Set<u64>,
    results: Map<u64, Result>,
    g: Seq<Seq<CellState>>,
    finish: Position,
    h: int,
    w: int,
    horizon: int,
)
    requires
        0 <= k < q.len(),
        q[k].state == current,
        queue_ok(q, results, h, w, horizon),
        costs_ok(q, finish),
        search_ok(closed, results, q, None, g, finish, h, w, horizon),
    ensures
        queue_ok(q.remove(k), results, h, w, horizon),
        costs_ok(q.remove(k), finish),
        search_ok(closed, results, q.remove(k), Some(current), g, finish, h, w, horizon),
{
    let r = q.remove(k);
    assert forall|i: int| 0 <= i < r.len() implies #[trigger] r[i] == (if i < k { q[i] } else { q[i + 1] }) by {}
    assert forall|s: State|
        in_range(s, h, w, horizon) && #[trigger] results.contains_key(skey(s, h, w))
            && !closed.contains(skey(s, h, w)) && Some(current) != Some(s) implies is_queued(r, s) by {
        assert(is_queued(q, s));
        let i = choose|i: int| 0 <= i < q.len() && #[trigger] q[i].state == s;
        if i < k {
            assert(r[i].state == s);
        } else {
            assert(i != k);
            assert(r[i - 1].state == s);
        }
    }
}

proof fn lemma_queue_after_push(q: Seq<Node>, node: Node)
    ensures
        forall|s: State| is_queued(q, s) ==> #[trigger] is_queued(q.push(node), s),
        is_queued(q.push(node), node.state),
{
    assert forall|s: State| is_queued(q, s) implies #[trigger] is_queued(q.push(node), s) by {
        let i = choose|i: int| 0 <= i < q.len() && #[trigger] q[i].state == s;
        assert(q.push(node)[i].state == s);
    }
    assert(q.push(node)[q.len() as int].state == node.state);
}

proof fn lemma_queue_after_update(q: Seq<Node>, node: Node)
    ensures
        forall|s: State|
            s != node.state && is_queued(q, s) ==> #[trigger] is_queued(
                without_state(q, node.state).push(node),
                s,
            ),
        is_queued(without_state(q, node.state).push(node), node.state),
{
    let f = without_state(q, node.state);
    assert forall|s: State| s != node.state && is_queued(q, s) implies #[trigger] is_queued(
        f.push(node),
        s,
    ) by {
        let i = choose|i: int| 0 <= i < q.len() && #[trigger] q[i].state == s;
        q.lemma_filter_contains(|n: Node| n.state != node.state, i);
        assert(f.contains(q[i]));
        let j = choose|j: int| 0 <= j < f.len() && f[j] == q[i];
        assert(f.push(node)[j].state == s);
    }
    lemma_queue_after_push(f, node);
}

proof fn lemma_search_ok_after_add(
    closed: Set<u64>,
    old_results: Map<u64, Result>,
    results: Map<u64, Result>,
    old_q: Seq<Node>,
    q: Seq<Node>,
    new_state: State,
    v: Result,
    current: State,
    g: Seq<Seq<CellState>>,
    finish: Position,
    h: int,
    w: int,
    horizon: int,
)
    requires
        fits_search(h, w),
        horizon == horizon_of(h, w),
        in_range(new_state, h, w, horizon),
        results == old_results.insert(skey(new_state, h, w), v),
        forall|s: State| s != new_state && is_queued(old_q, s) ==> #[trigger] is_queued(q, s),
        is_queued(q, new_state),
        search_ok(closed, old_results, old_q, Some(current), g, finish, h, w, horizon),
    ensures
        search_ok(closed, results, q, Some(current), g, finish, h, w, horizon),
{
    assert forall|s: State|
        in_range(s, h, w, horizon) && #[trigger] closed.contains(skey(s, h, w)) implies {
            &&& results.contains_key(skey(s, h, w))
            &&& s.position != finish
            &&& successors_recorded(s, results, g, h, w, horizon)
        } by {
        assert(successors_recorded(s, old_results, g, h, w, horizon));
    }
    assert forall|s: State|
        in_range(s, h, w, horizon) && #[trigger] results.contains_key(skey(s, h, w))
            && !closed.contains(skey(s, h, w)) && Some(current) != Some(s) implies is_queued(q, s) by {
        if skey(s, h, w) == skey(new_state, h, w) {
            lemma_skey_injective(s, new_state, h, w, horizon);
        } else {
            assert(old_results.contains_key(skey(s, h, w)));
            assert(is_queued(old_q, s));
            assert(s != new_state);
        }
    }
}

proof fn lemma_search_ok_after_close(
    old_closed: Set<u64>,
    closed: Set<u64>,
    results: Map<u64, Result>,
    q: Seq<Node>,
    current: State,
    g: Seq<Seq<CellState>>,
    finish: Position,
    h: int,
    w: int,
    horizon: int,
)
    requires
        fits_search(h, w),
        horizon == horizon_of(h, w),
        in_range(current, h, w, horizon),
        closed == old_closed.insert(skey(current, h, w)),
        results.contains_key(skey(current, h, w)),
        current.position != finish,
        successors_recorded(current, results, g, h, w, horizon),
        search_ok(old_closed, results, q, Some(current), g, finish, h, w, horizon),
    ensures
        search_ok(closed, results, q, None, g, finish, h, w, horizon),
{
    assert forall|s: State|
        in_range(s, h, w, horizon) && #[trigger] closed.contains(skey(s, h, w)) implies {
            &&& results.contains_key(skey(s, h, w))
            &&& s.position != finish
            &&& successors_recorded(s, results, g, h, w, horizon)
        } by {
        if skey(s, h, w) == skey(current, h, w) {
            lemma_skey_injective(s, current, h, w, horizon);
        }
    }
    assert forall|s: State|
        in_range(s, h, w, horizon) && #[trigger] results.contains_key(skey(s, h, w))
            && !closed.contains(skey(s, h, w)) && None::<State> != Some(s) implies is_queued(q, s) by {
        assert(s != current);
    }
}

proof fn lemma_walk_recorded(
    closed: Set<u64>,
    results: Map<u64, Result>,
    q: Seq<Node>,
    g: Seq<Seq<CellState>>,
    start: Position,
    finish: Position,
    h: int,
    w: int,
    horizon: int,
    p: Seq<Position>,
    i: int,
)
    requires
        fits_search(h, w),
        horizon == horizon_of(h, w),
        is_nonempty(g),
        is_rectangular(g),
        h == g.len(),
        w == g[0].len(),
        q.len() == 0,
        search_ok(closed, results, q, None, g, finish, h, w, horizon),
        results.contains_key(skey(State { position: start, automaton_generation: 1 }, h, w)),
        is_walk(g, start, p),
        p.len() <= horizon,
        0 <= i < p.len(),
    ensures
        in_range(State { position: p[i], automaton_generation: (i + 1) as u32 }, h, w, horizon),
        results.contains_key(skey(State { position: p[i], automaton_generation: (i + 1) as u32 }, h, w)),
    decreases i,
{
    lemma_evolve_keeps_shape(g, i as nat);
    assert(open_at(evolve(g, i as nat), p[i].0 as int, p[i].1 as int));
    assert(g[p[i].0 as int].len() == g[0].len());
    if i > 0 {
        lemma_walk_recorded(closed, results, q, g, start, finish, h, w, horizon, p, i - 1);
        let prev = State { position: p[i - 1], automaton_generation: i as u32 };
        assert(prev == State { position: p[i - 1], automaton_generation: ((i - 1) + 1) as u32 });
        if !closed.contains(skey(prev, h, w)) {
            assert(is_queued(q, prev));
        }
        assert(closed.contains(skey(prev, h, w)));
        assert(successors_recorded(prev, results, g, h, w, horizon));
        let gi = evolve(g, i as nat);
        lemma_evolve_keeps_shape(g, (i - 1) as nat);
        assert(open_at(evolve(g, (i - 1) as nat), p[i - 1].0 as int, p[i - 1].1 as int));
        assert(adjacent(p[i - 1], p[i]));
        assert(is_rectangular(gi)) by {
            assert forall|r: int| 0 <= r < gi.len() implies #[trigger] gi[r].len() == gi[0].len() by {
                assert(g[r].len() == g[0].len());
            }
        }
        assert(g[p[i - 1].0 as int].len() == g[0].len());
        lemma_free_neighbour_is_move(gi, p[i - 1], p[i]);
        assert(dense_moves(evolve(g, prev.automaton_generation as nat), prev.position).contains(p[i]));
    }
}

proof fn lemma_exhausted(
    closed: Set<u64>,
    results: Map<u64, Result>,
    q: Seq<Node>,
    g: Seq<Seq<CellState>>,
    start: Position,
    finish: Position,
    h: int,
    w: int,
    horizon: int,
)
    requires
        fits_search(h, w),
        horizon == horizon_of(h, w),
        is_nonempty(g),
        is_rectangular(g),
        h == g.len(),
        w == g[0].len(),
        q.len() == 0,
        search_ok(closed, results, q, None, g, finish, h, w, horizon),
        results.contains_key(skey(State { position: start, automaton_generation: 1 }, h, w)),
    ensures
        no_path_within(g, start, finish, horizon),
{
    assert forall|p: Seq<Position>| p.len() <= horizon implies !#[trigger] is_valid_path(g, start, finish, p) by {
        if is_valid_path(g, start, finish, p) {
            let n = p.len() - 1;
            lemma_walk_recorded(closed, results, q, g, start, finish, h, w, horizon, p, n);
            let s = State { position: p[n], automaton_generation: (n + 1) as u32 };
            if !closed.contains(skey(s, h, w)) {
                assert(is_queued(q, s));
            }
            assert(s.position == finish);
        }
    }
}

fn state_key(s: State, h: usize, w: usize, horizon: usize) -> (k: u64)
    requires
        in_range(s, h as int, w as int, horizon as int),
        (horizon + 1) * h * w <= u64::MAX,
    ensures
        k == skey(s, h as int, w as int),
        k == key_of(s, h as int, w as int),
{
    proof {
        lemma_key_bound(s, h as int, w as int, horizon as int);
    }
    ((s.automaton_generation as u64) * (h as u64) + (s.position.0 as u64)) * (w as u64) + (
    s.position.1 as u64)
}

fn calculate_cost(starting_node_cost: u32, heuristic_cost: u32) -> (r: u32)
    requires
        starting_node_cost + heuristic_cost <= u32::MAX,
    ensures
        r == starting_node_cost + heuristic_cost,
{
    starting_node_cost + heuristic_cost
}

/// Time-extended A*: a shortest walk from the start to the finish cell, one step per
/// generation, never standing on an Alive cell. States are explored up to the cache's
/// horizon; `None` when the frontier empties.
pub fn path_finder(automaton: Automaton) -> (r: Option<Vec<Position>>)
    requires
        automaton.wf(),
        fits_search(automaton.matrix@.len() as int, automaton.matrix@[0]@.len() as int),
    ensures
        match r {
            Some(p) => {
                &&& is_valid_path(
                    grid_view(&automaton.matrix),
                    automaton.starting_point,
                    automaton.finishing_point,
                    p@,
                )
                &&& no_path_within(
                    grid_view(&automaton.matrix),
                    automaton.starting_point,
                    automaton.finishing_point,
                    p@.len() - 1,
                )
            },
            None => no_path_within(
                grid_view(&automaton.matrix),
                automaton.starting_point,
                automaton.finishing_point,
                horizon_of(automaton.matrix@.len() as int, automaton.matrix@[0]@.len() as int),
            ),
        },
{
    let automaton_map = InMemoryAutomatonMap::new(automaton.duplicate());
    path_finder_with_map(&automaton, &automaton_map)
}

/// The map holds the grid of every generation from 1 to `horizon`.
pub open spec fn covers_horizon<M: AutomatonMap>(m: &M, g: Seq<Seq<CellState>>, horizon: int) -> bool {
    forall|generation: u32|
        1 <= generation <= horizon ==> #[trigger] m.grid_at(generation) == Some(
            evolve(g, (generation - 1) as nat),
        )
}

/// The A* search of `path_finder`, reading grids from a cache of the caller's choice.
pub fn path_finder_with_map<M: AutomatonMap>(automaton: &Automaton, automaton_map: &M) -> (r:
    Option<Vec<Position>>)
    requires
        automaton.wf(),
        fits_search(automaton.matrix@.len() as int, automaton.matrix@[0]@.len() as int),
        automaton_map.map_wf(),
        covers_horizon(
            automaton_map,
            grid_view(&automaton.matrix),
            horizon_of(automaton.matrix@.len() as int, automaton.matrix@[0]@.len() as int),
        ),
    ensures
        match r {
            Some(p) => {
                &&& is_valid_path(
                    grid_view(&automaton.matrix),
                    automaton.starting_point,
                    automaton.finishing_point,
                    p@,
                )
                &&& no_path_within(
                    grid_view(&automaton.matrix),
                    automaton.starting_point,
                    automaton.finishing_point,
                    p@.len() - 1,
                )
            },
            None => no_path_within(
                grid_view(&automaton.matrix),
                automaton.starting_point,
                automaton.finishing_point,
                horizon_of(automaton.matrix@.len() as int, automaton.matrix@[0]@.len() as int),
            ),
        },
{
    algorithm(automaton, automaton_map, automaton.starting_point, automaton.finishing_point)
}

#[verifier::rlimit(100)]
fn algorithm<M: AutomatonMap>(
    automaton: &Automaton,
    automaton_map: &M,
    starting_point: Position,
    ending_point: Position,
) -> (r: Option<Vec<Position>>)
    requires
        automaton.wf(),
        fits_search(automaton.matrix@.len() as int, automaton.matrix@[0]@.len() as int),
        automaton_map.map_wf(),
        covers_horizon(
            automaton_map,
            grid_view(&automaton.matrix),
            horizon_of(automaton.matrix@.len() as int, automaton.matrix@[0]@.len() as int),
        ),
        starting_point == automaton.starting_point,
        ending_point == automaton.finishing_point,
    ensures
        match r {
            Some(p) => {
                &&& is_valid_path(grid_view(&automaton.matrix), starting_point, ending_point, p@)
                &&& no_path_within(
                    grid_view(&automaton.matrix),
                    starting_point,
                    ending_point,
                    p@.len() - 1,
                )
            },
            None => no_path_within(
                grid_view(&automaton.matrix),
                starting_point,
                ending_point,
                horizon_of(automaton.matrix@.len() as int, automaton.matrix@[0]@.len() as int),
            ),
        },
{
    let ghost g = grid_view(&automaton.matrix);
    let height = automaton.matrix.len();
    let width = automaton.matrix[0].len();
    let horizon = (5 * (height + width)) / 2;
    let ghost h = height as int;
    let ghost w = width as int;
    let ghost hz = horizon as int;
    proof {
        lemma_evolve_keeps_shape(g, 0);
    }
    let mut closed_states: HashSet<u64> = HashSet::new();
    let mut results: HashMap<u64, Result> = HashMap::new();
    let mut priority_queue = PriorityQueue::new();
    let starting_state = State { position: starting_point, automaton_generation: 1 };
    let starting_result = Result {
        cost: calculate_cost(1, manhattan_distance(ending_point, starting_point)),
        previous_position: starting_point,
    };
    let start_key = state_key(starting_state, height, width, horizon);
    results.insert(start_key, starting_result);
    priority_queue.enqueue(Node { state: starting_state, cost: starting_result.cost });
    proof {
        assert forall|s: State|
            in_range(s, h, w, hz) && #[trigger] results@.contains_key(skey(s, h, w))
                implies well_reached(s, results@[skey(s, h, w)], results@, g, starting_point, h, w, hz) by {
            lemma_skey_injective(s, starting_state, h, w, hz);
        }
        assert forall|s: State|
            in_range(s, h, w, hz) && #[trigger] results@.contains_key(skey(s, h, w))
                && !closed_states@.contains(skey(s, h, w)) implies is_queued(priority_queue@, s) by {
            lemma_skey_injective(s, starting_state, h, w, hz);
            assert(priority_queue@[0].state == s);
        }
        assert(hz + 1 <= (hz + 1) * h) by (nonlinear_arith)
            requires
                hz >= 0,
                h >= 1,
        ;
        assert((hz + 1) * h <= (hz + 1) * h * w) by (nonlinear_arith)
            requires
                hz >= 0,
                h >= 1,
                w >= 1,
        ;
    }
    let limit: u64 = ((horizon as u64) + 1) * (height as u64) * (width as u64);
    proof {
        lemma_keys_below(limit);
    }
    loop
        invariant
            automaton_map.map_wf(),
            covers_horizon(automaton_map, g, hz),
            g == grid_view(&automaton.matrix),
            horizon == horizon_of(height as int, width as int),
            h == height,
            w == width,
            hz == horizon,
            limit == (hz + 1) * h * w,
            keys_below(limit).finite(),
            keys_below(limit).len() == limit,
            fits_search(h, w),
            is_nonempty(g),
            is_rectangular(g),
            height == g.len(),
            width == g[0].len(),
            holds(g, ending_point),
            holds(g, starting_point),
            results@.contains_key(skey(starting_state, h, w)),
            starting_state == (State { position: starting_point, automaton_generation: 1 }),
            results_ok(results@, g, starting_point, h, w, hz),
            queue_ok(priority_queue@, results@, h, w, hz),
            costs_ok(priority_queue@, ending_point),
            search_ok(closed_states@, results@, priority_queue@, None, g, ending_point, h, w, hz),
            closed_states@.subset_of(keys_below(limit)),
        decreases limit - closed_states@.len(), priority_queue@.len(),
    {
        proof {
            vstd::set_lib::lemma_len_subset(closed_states@, keys_below(limit));
        }
        let ghost queue_before = priority_queue@;
        let ghost closed_at_start = closed_states@;
        let current = match priority_queue.dequeue() {
            Some(s) => s,
            None => {
                proof {
                    lemma_exhausted(closed_states@, results@, priority_queue@, g, starting_point, ending_point, h, w, hz);
                }
                return None;
            },
        };
        let ghost k_removed = choose|k: int| #[trigger] least_at(queue_before, k, current, priority_queue@);
        proof {
            assert(least_at(queue_before, k_removed, current, priority_queue@));
            lemma_remove_keeps_others(queue_before, k_removed, current, closed_states@, results@, g, ending_point, h, w, hz);
            assert(queue_before[k_removed].state == current);
        }
        let current_key = state_key(current, height, width, horizon);
        if closed_states.contains(&current_key) {
            proof {
                assert(search_ok(closed_states@, results@, priority_queue@, None, g, ending_point, h, w, hz));
                assert(priority_queue@.len() == queue_before.len() - 1);
            }
            continue;
        }
        if current.position.0 == ending_point.0 && current.position.1 == ending_point.1 {
            let path = recreate_steps(
                &results,
                current,
                Ghost(g),
                starting_point,
                height,
                width,
                horizon,
            );
            assert(current.position == ending_point);
            proof {
                lemma_optimal(closed_states@, results@, queue_before, k_removed, priority_queue@, current, g, starting_point, ending_point, h, w, hz);
            }
            return Some(path);
        }
        let next_generation = current.automaton_generation + 1;
        let ghost gn = evolve(g, (next_generation - 1) as nat);
        proof {
            lemma_evolve_keeps_shape(g, (next_generation - 1) as nat);
            assert(is_rectangular(gn)) by {
                assert forall|i: int| 0 <= i < gn.len() implies #[trigger] gn[i].len() == gn[0].len() by {
                    assert(g[i].len() == g[0].len());
                }
            }
            assert(g[current.position.0 as int].len() == g[0].len());
        }
        // A state at the horizon has no successors: the cache holds no later grid.
        let possible_moves = if next_generation as usize <= horizon {
            proof {
                assert(automaton_map.grid_at(next_generation) == Some(gn));
                lemma_moves_are_free_neighbours(gn, current.position);
            }
            match automaton_map.moves_at(next_generation, current.position) {
                Ok(m) => m,
                Err(_) => Vec::new(),
            }
        } else {
            Vec::new()
        };
        assert(next_generation <= horizon ==> possible_moves@ == dense_moves(gn, current.position));
        let mut idx: usize = 0;
        while idx < possible_moves.len()
            invariant
                0 <= idx <= possible_moves@.len(),
                fits_search(h, w),
                horizon == horizon_of(height as int, width as int),
                h == height,
                w == width,
                hz == horizon,
                in_range(current, h, w, hz),
                possible_moves@.len() > 0 ==> 2 <= next_generation <= horizon,
                next_generation == current.automaton_generation + 1,
                next_generation <= horizon ==> possible_moves@ == dense_moves(gn, current.position),
                results@.contains_key(skey(current, h, w)),
                !closed_states@.contains(skey(current, h, w)),
                current.position != ending_point,
                gn == evolve(g, (next_generation - 1) as nat),
                gn.len() == height,
                holds(g, ending_point),
                holds(g, starting_point),
                results@.contains_key(skey(starting_state, h, w)),
                starting_state == (State { position: starting_point, automaton_generation: 1 }),
                is_nonempty(g),
                is_rectangular(g),
                height == g.len(),
                width == g[0].len(),
                forall|i: int| 0 <= i < g.len() ==> #[trigger] gn[i].len() == g[i].len(),
                forall|k: int|
                    0 <= k < possible_moves@.len() ==> {
                        &&& open_at(gn, possible_moves@[k].0 as int, possible_moves@[k].1 as int)
                        &&& adjacent(current.position, #[trigger] possible_moves@[k])
                    },
                forall|k: int|
                    0 <= k < idx ==> results@.contains_key(
                        skey(
                            State { position: #[trigger] possible_moves@[k], automaton_generation: next_generation },
                            h,
                            w,
                        ),
                    ),
                results_ok(results@, g, starting_point, h, w, hz),
                queue_ok(priority_queue@, results@, h, w, hz),
                costs_ok(priority_queue@, ending_point),
                search_ok(closed_states@, results@, priority_queue@, Some(current), g, ending_point, h, w, hz),
            decreases possible_moves@.len() - idx,
        {
            let position = possible_moves[idx];
            let new_state = State { position, automaton_generation: next_generation };
            proof {
                assert(gn[position.0 as int].len() == g[0].len());
                assert(g[ending_point.0 as int].len() == g[0].len());
            }
            let new_key = state_key(new_state, height, width, horizon);
            let ghost old_results = results@;
            let ghost old_queue = priority_queue@;
            if !closed_states.contains(&new_key) {
                let calculated_cost = calculate_cost(
                    next_generation,
                    manhattan_distance(ending_point, position),
                );
                let calculated_result = Result {
                    previous_position: current.position,
                    cost: calculated_cost,
                };
                let past_cost = match results.get(&new_key) {
                    Some(past) => Some(past.cost),
                    None => None,
                };
                let mut changed = false;
                match past_cost {
                    Some(cost) => {
                        if calculated_cost < cost {
                            results.insert(new_key, calculated_result);
                            priority_queue.update(Node { state: new_state, cost: calculated_cost });
                            changed = true;
                        }
                    },
                    None => {
                        results.insert(new_key, calculated_result);
                        priority_queue.enqueue(Node { state: new_state, cost: calculated_cost });
                        changed = true;
                    },
                }
                proof {
                    if changed {
                        assert(well_reached(new_state, calculated_result, results@, g, starting_point, h, w, hz));
                        assert forall|s: State|
                            in_range(s, h, w, hz) && #[trigger] results@.contains_key(skey(s, h, w))
                                implies well_reached(s, results@[skey(s, h, w)], results@, g, starting_point, h, w, hz) by {
                            if skey(s, h, w) == new_key {
                                lemma_skey_injective(s, new_state, h, w, hz);
                            } else {
                                assert(old_results.contains_key(skey(s, h, w)));
                                assert(well_reached(s, old_results[skey(s, h, w)], old_results, g, starting_point, h, w, hz));
                            }
                        }
                        assert(queue_ok(old_queue, results@, h, w, hz));
                        let node = Node { state: new_state, cost: calculated_cost };
                        assert(node.cost == new_state.automaton_generation + manhattan(ending_point, new_state.position));
                        if past_cost is Some {
                            lemma_without_state_keeps_costs(old_queue, new_state, ending_point);
                            lemma_without_state_keeps(old_queue, new_state, results@, h, w, hz);
                            lemma_queue_after_update(old_queue, node);
                        } else {
                            lemma_queue_after_push(old_queue, node);
                        }
                        lemma_search_ok_after_add(closed_states@, old_results, results@, old_queue, priority_queue@, new_state, calculated_result, current, g, ending_point, h, w, hz);
                    } else {
                        assert(results@ == old_results);
                    }
                }
            } else {
                proof {
                    let s = new_state;
                    assert(closed_states@.contains(skey(s, h, w)));
                }
            }
            idx += 1;
        }
        proof {
            lemma_key_bound(current, h, w, hz);
            if current.automaton_generation < hz {
                assert forall|q: Position| #[trigger] dense_moves(evolve(g, current.automaton_generation as nat), current.position).contains(q)
                    implies results@.contains_key(skey(State { position: q, automaton_generation: (current.automaton_generation + 1) as u32 }, h, w)) by {
                    let m = dense_moves(gn, current.position);
                    let j = choose|j: int| 0 <= j < m.len() && m[j] == q;
                    assert(possible_moves@[j] == q);
                }
            }
        }
        let ghost closed_before = closed_states@;
        closed_states.insert(current_key);
        proof {
            lemma_search_ok_after_close(closed_before, closed_states@, results@, priority_queue@, current, g, ending_point, h, w, hz);
            assert(closed_before.len() < closed_states@.len()) by {
                assert(!closed_before.contains(current_key));
                vstd::set_lib::lemma_len_subset(closed_before, keys_below(limit));
            }
            assert(closed_states@.subset_of(keys_below(limit)));
            vstd::set_lib::lemma_len_subset(closed_states@, keys_below(limit));
            assert(closed_at_start == closed_before);
            assert(limit - closed_states@.len() < limit - closed_at_start.len());
        }
    }
}

/// Walks the recorded predecessors back from `entry` to generation 1, then returns
/// the cells in forward order.
fn recreate_steps(
    results: &HashMap<u64, Result>,
    entry: State,
    Ghost(g): Ghost<Seq<Seq<CellState>>>,
    starting_point: Position,
    height: usize,
    width: usize,
    horizon: usize,
) -> (path: Vec<Position>)
    requires
        fits_search(height as int, width as int),
        horizon == horizon_of(height as int, width as int),
        in_range(entry, height as int, width as int, horizon as int),
        results@.contains_key(skey(entry, height as int, width as int)),
        results_ok(results@, g, starting_point, height as int, width as int, horizon as int),
    ensures
        is_valid_path(g, starting_point, entry.position, path@),
        path@.len() == entry.automaton_generation,
        forall|k: int|
            0 <= k < path@.len() - 1 ==> {
                &&& results@.contains_key(skey(#[trigger] walk_state(path@, k + 1), height as int, width as int))
                &&& results@[skey(walk_state(path@, k + 1), height as int, width as int)].previous_position
                    == path@[k]
            },
{
    let h = Ghost(height as int);
    let w = Ghost(width as int);
    let mut state = entry;
    let mut backwards: Vec<Position> = Vec::new();
    backwards.push(entry.position);
    proof {
        let v = results@[skey(entry, h@, w@)];
        assert(well_reached(entry, v, results@, g, starting_point, h@, w@, horizon as int));
    }
    while state.automaton_generation > 1
        invariant
            fits_search(height as int, width as int),
            horizon == horizon_of(height as int, width as int),
            h@ == height,
            w@ == width,
            in_range(entry, h@, w@, horizon as int),
            in_range(state, h@, w@, horizon as int),
            results@.contains_key(skey(state, h@, w@)),
            results_ok(results@, g, starting_point, h@, w@, horizon as int),
            state.automaton_generation <= entry.automaton_generation,
            backwards@.len() == entry.automaton_generation - state.automaton_generation + 1,
            backwards@[0] == entry.position,
            backwards@.last() == state.position,
            forall|i: int|
                0 <= i < backwards@.len() ==> open_at(
                    evolve(g, (entry.automaton_generation - 1 - i) as nat),
                    #[trigger] backwards@[i].0 as int,
                    backwards@[i].1 as int,
                ),
            forall|i: int|
                0 <= i < backwards@.len() - 1 ==> adjacent(#[trigger] backwards@[i + 1], backwards@[i]),
            forall|i: int|
                0 <= i < backwards@.len() - 1 ==> {
                    &&& results@.contains_key(skey(#[trigger] back_state(backwards@, entry.automaton_generation as int, i), h@, w@))
                    &&& results@[skey(back_state(backwards@, entry.automaton_generation as int, i), h@, w@)].previous_position
                        == backwards@[i + 1]
                },
        decreases state.automaton_generation,
    {
        let key = state_key(state, height, width, horizon);
        let v = match results.get(&key) {
            Some(v) => *v,
            None => {
                proof {
                    assert(false);
                }
                return backwards;
            },
        };
        proof {
            assert(well_reached(state, v, results@, g, starting_point, h@, w@, horizon as int));
            let p = previous_state(state, v);
            assert(well_reached(p, results@[skey(p, h@, w@)], results@, g, starting_point, h@, w@, horizon as int));
        }
        let ghost before = backwards@;
        backwards.push(v.previous_position);
        proof {
            let G = entry.automaton_generation as int;
            assert(back_state(before, G, before.len() - 1) == state);
            assert forall|i: int| 0 <= i < backwards@.len() - 1 implies {
                &&& results@.contains_key(skey(#[trigger] back_state(backwards@, G, i), h@, w@))
                &&& results@[skey(back_state(backwards@, G, i), h@, w@)].previous_position
                    == backwards@[i + 1]
            } by {
                assert(back_state(backwards@, G, i) == back_state(before, G, i));
            }
        }
        state = State {
            position: v.previous_position,
            automaton_generation: state.automaton_generation - 1,
        };
    }
    proof {
        assert(well_reached(state, results@[skey(state, h@, w@)], results@, g, starting_point, h@, w@, horizon as int));
    }
    let n = backwards.len();
    let mut path: Vec<Position> = Vec::new();
    let mut i: usize = 0;
    while i < n
        invariant
            0 <= i <= n,
            n == backwards@.len(),
            path@.len() == i,
            forall|k: int| 0 <= k < i ==> #[trigger] path@[k] == backwards@[n - 1 - k],
        decreases n - i,
    {
        path.push(backwards[n - 1 - i]);
        i += 1;
    }
    proof {
        assert forall|k: int| 0 <= k < path@.len() - 1 implies adjacent(#[trigger] path@[k], path@[k + 1]) by {
            assert(path@[k] == backwards@[n - 1 - k]);
            assert(path@[k + 1] == backwards@[n - 1 - (k + 1)]);
            assert(adjacent(backwards@[(n - 2 - k) + 1], backwards@[n - 2 - k]));
        }
        assert forall|k: int| 0 <= k < path@.len() implies open_at(evolve(g, k as nat), #[trigger] path@[k].0 as int, path@[k].1 as int) by {
            assert(path@[k] == backwards@[n - 1 - k]);
        }
        assert forall|k: int| 0 <= k < path@.len() - 1 implies {
            &&& results@.contains_key(skey(#[trigger] walk_state(path@, k + 1), h@, w@))
            &&& results@[skey(walk_state(path@, k + 1), h@, w@)].previous_position == path@[k]
        } by {
            let i = n - 2 - k;
            assert(path@[k + 1] == backwards@[i]);
            assert(path@[k] == backwards@[i + 1]);
            assert(walk_state(path@, k + 1) == back_state(backwards@, entry.automaton_generation as int, i));
        }
    }
    path
}

} // verus!
