use std::collections::HashMap;
use vstd::prelude::*;

use crate::path_finder::shared::{dense_moves, get_possible_moves};
use crate::automaton::{
    copy_matrix, evolve, grid_view, holds, is_rectangular, next_matrix, Automaton, CellState,
    GridError, Position,
};

use vstd::arithmetic::div_mod::{lemma_fundamental_div_mod, lemma_mod_pos_bound};

verus! {

broadcast use vstd::std_specs::hash::group_hash_axioms;

/// The number of generations an eager cache holds: ⌊2.5 × (height + width)⌋.
pub open spec fn horizon_of(height: int, width: int) -> int {
    (5 * (height + width)) / 2
}

/// A source of the grid at any generation it covers, whichever way it keeps them.
pub trait AutomatonMap {
    /// The grid at `generation`, where the map covers it.
    spec fn grid_at(&self, generation: u32) -> Option<Seq<Seq<CellState>>>;

    spec fn map_wf(&self) -> bool;

    fn grid_for(&self, generation: u32) -> (r: Result<Vec<Vec<CellState>>, GridError>)
        requires
            self.map_wf(),
        ensures
            match r {
                Ok(m) => self.grid_at(generation) == Some(grid_view(&m)),
                Err(e) => e == GridError::GenerationOutOfRange && self.grid_at(generation) is None,
            },
    ;

    /// The legal moves from `position` on the grid at `generation`.
    fn moves_at(&self, generation: u32, position: Position) -> (r: Result<Vec<Position>, GridError>)
        requires
            self.map_wf(),
            self.grid_at(generation) is Some ==> is_rectangular(self.grid_at(generation)->0) && holds(
                self.grid_at(generation)->0,
                position,
            ),
        ensures
            match r {
                Ok(m) => self.grid_at(generation) is Some && m@ == dense_moves(
                    self.grid_at(generation)->0,
                    position,
                ),
                Err(e) => e == GridError::GenerationOutOfRange && self.grid_at(generation) is None,
            },
    ;
}

/// Every generation from 1 up to the horizon, computed once.
pub struct InMemoryAutomatonMap {
    automaton_map: Vec<Vec<Vec<CellState>>>,
    base: Ghost<Seq<Seq<CellState>>>,
}

impl InMemoryAutomatonMap {
    /// The grid at generation 1.
    pub closed spec fn base(&self) -> Seq<Seq<CellState>> {
        self.base@
    }

    /// The last generation held.
    pub closed spec fn horizon(&self) -> int {
        self.automaton_map@.len() as int
    }

    pub closed spec fn wf(&self) -> bool {
        forall|k: int|
            0 <= k < self.automaton_map@.len() ==> grid_view(#[trigger] &self.automaton_map@[k])
                == evolve(self.base@, k as nat)
    }

    /// Precomputes the grids of generations 1 to ⌊2.5 × (height + width)⌋.
    pub fn new(automaton: Automaton) -> (r: InMemoryAutomatonMap)
        requires
            automaton.wf(),
            5 * (automaton.matrix@.len() + automaton.matrix@[0]@.len()) <= u32::MAX,
        ensures
            r.wf(),
            r.base() == grid_view(&automaton.matrix),
            r.horizon() == horizon_of(
                automaton.matrix@.len() as int,
                automaton.matrix@[0]@.len() as int,
            ),
    {
        let ghost base = grid_view(&automaton.matrix);
        let height = automaton.matrix.len();
        let width = automaton.matrix[0].len();
        let horizon = (5 * (height + width)) / 2;
        let mut automaton_map: Vec<Vec<Vec<CellState>>> = Vec::new();
        let mut current = automaton.matrix;
        let mut k: usize = 0;
        while k < horizon
            invariant
                0 <= k <= horizon,
                automaton_map@.len() == k,
                grid_view(&current) == evolve(base, k as nat),
                forall|i: int|
                    0 <= i < k ==> grid_view(#[trigger] &automaton_map@[i]) == evolve(
                        base,
                        i as nat,
                    ),
            decreases horizon - k,
        {
            let next = next_matrix(&current);
            automaton_map.push(current);
            current = next;
            k += 1;
        }
        InMemoryAutomatonMap { automaton_map, base: Ghost(base) }
    }

    /// The grid at `generation`, for 1 <= generation <= horizon.
    pub fn get_automaton_matrix_generation(&self, generation: u32) -> (r: Result<
        &Vec<Vec<CellState>>,
        GridError,
    >)
        requires
            self.wf(),
        ensures
            match r {
                Ok(m) => {
                    &&& 1 <= generation <= self.horizon()
                    &&& grid_view(m) == evolve(self.base(), (generation - 1) as nat)
                },
                Err(e) => {
                    &&& e == GridError::GenerationOutOfRange
                    &&& !(1 <= generation <= self.horizon())
                },
            },
    {
        if generation == 0 || generation as usize > self.automaton_map.len() {
            return Err(GridError::GenerationOutOfRange);
        }
        Ok(&self.automaton_map[(generation - 1) as usize])
    }
}

impl AutomatonMap for InMemoryAutomatonMap {
    open spec fn grid_at(&self, generation: u32) -> Option<Seq<Seq<CellState>>> {
        if 1 <= generation <= self.horizon() {
            Some(evolve(self.base(), (generation - 1) as nat))
        } else {
            None
        }
    }

    open spec fn map_wf(&self) -> bool {
        self.wf()
    }

    fn grid_for(&self, generation: u32) -> (r: Result<Vec<Vec<CellState>>, GridError>) {
        match self.get_automaton_matrix_generation(generation) {
            Ok(m) => Ok(copy_matrix(m)),
            Err(e) => Err(e),
        }
    }

    fn moves_at(&self, generation: u32, position: Position) -> (r: Result<Vec<Position>, GridError>) {
        match self.get_automaton_matrix_generation(generation) {
            Ok(m) => Ok(get_possible_moves(m, position)),
            Err(e) => Err(e),
        }
    }
}

/// Grids persisted every `generation_step` generations, replayed forward on demand.
pub struct SnapshotAutomatonMap {
    snapshots: HashMap<u32, Vec<Vec<CellState>>>,
    automaton: Automaton,
    generation_step: u32,
}

impl SnapshotAutomatonMap {
    /// The grid at generation 1.
    pub closed spec fn base(&self) -> Seq<Seq<CellState>> {
        grid_view(&self.automaton.matrix)
    }

    pub closed spec fn step(&self) -> int {
        self.generation_step as int
    }

    /// The snapshot grids, by generation.
    pub closed spec fn snapshot_grids(&self) -> Map<u32, Seq<Seq<CellState>>> {
        self.snapshots@.map_values(|m: Vec<Vec<CellState>>| grid_view(&m))
    }

    /// A cache over `automaton` at generation 1 and the grids persisted at multiples of
    /// `generation_step`, keyed by generation.
    pub fn new(
        automaton: Automaton,
        snapshots: HashMap<u32, Vec<Vec<CellState>>>,
        generation_step: u32,
    ) -> (r: SnapshotAutomatonMap)
        requires
            generation_step > 0,
        ensures
            r.base() == grid_view(&automaton.matrix),
            r.step() == generation_step,
            r.snapshot_grids() == snapshots@.map_values(|m: Vec<Vec<CellState>>| grid_view(&m)),
    {
        SnapshotAutomatonMap { snapshots, automaton, generation_step }
    }

    /// The grid at `generation`: the base grid replayed `generation - 1` times within
    /// the first block, else the nearest snapshot at or below `generation` replayed
    /// `generation mod step` times.
    pub fn get_automaton_matrix_generation(&self, generation: u32) -> (r: Result<
        Vec<Vec<CellState>>,
        GridError,
    >)
        requires
            self.step() > 0,
        ensures
            ({
                let snapshot_generation = (generation as int / self.step()) * self.step();
                match r {
                    Ok(m) => {
                        &&& generation >= 1
                        &&& generation < self.step() ==> grid_view(&m) == evolve(
                            self.base(),
                            (generation - 1) as nat,
                        )
                        &&& generation >= self.step() ==> {
                            &&& self.snapshot_grids().contains_key(snapshot_generation as u32)
                            &&& grid_view(&m) == evolve(
                                self.snapshot_grids()[snapshot_generation as u32],
                                (generation as int % self.step()) as nat,
                            )
                        }
                    },
                    Err(e) => {
                        &&& e == GridError::GenerationOutOfRange
                        &&& generation == 0 || (generation >= self.step()
                            && !self.snapshot_grids().contains_key(snapshot_generation as u32))
                    },
                }
            }),
    {
        let steps = generation / self.generation_step;
        let remainder = generation % self.generation_step;
        proof {
            lemma_fundamental_div_mod(generation as int, self.generation_step as int);
            lemma_mod_pos_bound(generation as int, self.generation_step as int);
            let g = generation as int;
            let s = self.generation_step as int;
            let q = steps as int;
            let m = remainder as int;
            assert(g == s * q + m);
            assert(q == 0 ==> m == g) by (nonlinear_arith)
                requires
                    g == s * q + m,
            ;
            assert(q >= 1 ==> g >= s) by (nonlinear_arith)
                requires
                    g == s * q + m,
                    m >= 0,
                    s > 0,
            ;
            assert(q == 0 ==> g < s) by (nonlinear_arith)
                requires
                    g == s * q + m,
                    m < s,
            ;
        }
        let snapshot_generation = steps * self.generation_step;
        let mut current: Vec<Vec<CellState>>;
        let replays: u32;
        if steps == 0 {
            if generation == 0 {
                return Err(GridError::GenerationOutOfRange);
            }
            current = copy_matrix(&self.automaton.matrix);
            replays = remainder - 1;
        } else {
            match self.snapshots.get(&snapshot_generation) {
                Some(snapshot) => {
                    current = copy_matrix(snapshot);
                },
                None => {
                    return Err(GridError::GenerationOutOfRange);
                },
            }
            replays = remainder;
        }
        let ghost first = grid_view(&current);
        let mut k: u32 = 0;
        while k < replays
            invariant
                0 <= k <= replays,
                grid_view(&current) == evolve(first, k as nat),
            decreases replays - k,
        {
            current = next_matrix(&current);
            k += 1;
        }
        Ok(current)
    }
}

impl AutomatonMap for SnapshotAutomatonMap {
    open spec fn grid_at(&self, generation: u32) -> Option<Seq<Seq<CellState>>> {
        let snapshot_generation = ((generation as int / self.step()) * self.step()) as u32;
        if generation == 0 {
            None
        } else if generation < self.step() {
            Some(evolve(self.base(), (generation - 1) as nat))
        } else if self.snapshot_grids().contains_key(snapshot_generation) {
            Some(
                evolve(
                    self.snapshot_grids()[snapshot_generation],
                    (generation as int % self.step()) as nat,
                ),
            )
        } else {
            None
        }
    }

    open spec fn map_wf(&self) -> bool {
        self.step() > 0
    }

    fn grid_for(&self, generation: u32) -> (r: Result<Vec<Vec<CellState>>, GridError>) {
        self.get_automaton_matrix_generation(generation)
    }

    fn moves_at(&self, generation: u32, position: Position) -> (r: Result<Vec<Position>, GridError>) {
        match self.get_automaton_matrix_generation(generation) {
            Ok(m) => Ok(get_possible_moves(&m, position)),
            Err(e) => Err(e),
        }
    }
}

/// The snapshots that a snapshot cache reads: the grid at every generation up to the
/// horizon that is a multiple of `generation_step`.
pub fn build_snapshots(automaton: Automaton, generation_step: u32) -> (r: HashMap<
    u32,
    Vec<Vec<CellState>>,
>)
    requires
        automaton.wf(),
        generation_step > 0,
        5 * (automaton.matrix@.len() + automaton.matrix@[0]@.len()) <= u32::MAX,
    ensures
        forall|g: u32| #[trigger]
            r@.contains_key(g) <==> 1 <= g <= horizon_of(
                automaton.matrix@.len() as int,
                automaton.matrix@[0]@.len() as int,
            ) && g % generation_step == 0,
        forall|g: u32| #[trigger]
            r@.contains_key(g) ==> grid_view(&r@[g]) == evolve(
                grid_view(&automaton.matrix),
                (g - 1) as nat,
            ),
{
    let ghost base = grid_view(&automaton.matrix);
    let height = automaton.matrix.len();
    let width = automaton.matrix[0].len();
    let horizon = ((5 * (height + width)) / 2) as u32;
    let mut snapshots: HashMap<u32, Vec<Vec<CellState>>> = HashMap::new();
    let mut current = automaton.matrix;
    let mut i: u32 = 1;
    while i <= horizon
        invariant
            1 <= i <= horizon + 1,
            horizon == horizon_of(height as int, width as int),
            horizon < u32::MAX,
            generation_step > 0,
            grid_view(&current) == evolve(base, (i - 1) as nat),
            forall|g: u32| #[trigger]
                snapshots@.contains_key(g) <==> 1 <= g < i && g % generation_step == 0,
            forall|g: u32| #[trigger]
                snapshots@.contains_key(g) ==> grid_view(&snapshots@[g]) == evolve(
                    base,
                    (g - 1) as nat,
                ),
        decreases horizon + 1 - i,
    {
        if i % generation_step == 0 {
            snapshots.insert(i, copy_matrix(&current));
        }
        current = next_matrix(&current);
        i += 1;
    }
    snapshots
}

} // verus!
