use std::collections::HashMap;
use std::collections::HashSet;
use vstd::prelude::*;

use crate::path_finder::shared::{adjacent, seq_if};

use crate::automaton::{
    alive_at, become_alive_rule, becomes_alive, decode, decode_grid, grid_view, has_two_markers,
    in_grid, is_last_cell, is_nonempty, is_rectangular, lemma_single_markers,
    lemma_step_keeps_shape, live_neighbors, matrix_error, next_view, rows_match, scan_ok,
    stay_alive_rule, stays_alive, step_grid, view_after, AutomatonView, CellState, GridError,
    Position,
};

verus! {

broadcast use vstd::std_specs::hash::group_hash_axioms;

/// A set of grid cells, kept as the columns held in each row.
#[derive(Debug)]
pub struct LiveCells {
    rows: HashMap<usize, HashSet<usize>>,
}

impl LiveCells {
    pub closed spec fn view(&self) -> Set<Position> {
        Set::new(|p: Position| self.rows@.contains_key(p.0) && self.rows@[p.0]@.contains(p.1))
    }

    pub fn new() -> (r: LiveCells)
        ensures
            r@ == Set::<Position>::empty(),
    {
        let r = LiveCells { rows: HashMap::new() };
        assert(r@ =~= Set::<Position>::empty());
        r
    }

    pub fn contains(&self, p: Position) -> (b: bool)
        ensures
            b == self@.contains(p),
    {
        match self.rows.get(&p.0) {
            Some(columns) => columns.contains(&p.1),
            None => false,
        }
    }

    pub fn insert(&mut self, p: Position)
        ensures
            final(self)@ == old(self)@.insert(p),
    {
        let ghost before = self@;
        let mut columns = match self.rows.remove(&p.0) {
            Some(columns) => columns,
            None => HashSet::new(),
        };
        columns.insert(p.1);
        self.rows.insert(p.0, columns);
        assert(self@ =~= before.insert(p));
    }
}

#[derive(Debug)]
pub struct SparseAutomaton {
    pub width: usize,
    pub height: usize,
    pub live_cells: LiveCells,
    pub starting_point: Position,
    pub finishing_point: Position,
    pub generation: u32,
}

/// The mathematical model of a sparse automaton.
pub struct SparseView {
    pub height: int,
    pub width: int,
    pub live: Set<Position>,
    pub start: Position,
    pub finish: Position,
    pub generation: int,
}

/// 1 where (i, j) is inside the bounds, is neither start nor finish, and is live; else 0.
pub open spec fn sparse_alive_at(v: SparseView, i: int, j: int) -> int {
    let p = (i as usize, j as usize);
    if 0 <= i < v.height && 0 <= j < v.width && p != v.start && p != v.finish && v.live.contains(p) {
        1
    } else {
        0
    }
}

pub open spec fn sparse_neighbors(v: SparseView, i: int, j: int) -> int {
    sparse_alive_at(v, i - 1, j - 1) + sparse_alive_at(v, i - 1, j) + sparse_alive_at(
        v,
        i - 1,
        j + 1,
    ) + sparse_alive_at(v, i, j - 1) + sparse_alive_at(v, i, j + 1) + sparse_alive_at(
        v,
        i + 1,
        j - 1,
    ) + sparse_alive_at(v, i + 1, j) + sparse_alive_at(v, i + 1, j + 1)
}

/// Whether cell p is live one generation later.
pub open spec fn sparse_next_alive(v: SparseView, p: Position) -> bool {
    let n = sparse_neighbors(v, p.0 as int, p.1 as int);
    &&& p.0 < v.height
    &&& p.1 < v.width
    &&& p != v.start
    &&& p != v.finish
    &&& if v.live.contains(p) {
        stays_alive(n)
    } else {
        becomes_alive(n)
    }
}

pub open spec fn sparse_next(v: SparseView) -> SparseView {
    SparseView {
        live: Set::new(|p: Position| sparse_next_alive(v, p)),
        generation: v.generation + 1,
        ..v
    }
}

/// The sparse automaton after `k` calls of `iterate`.
pub open spec fn sparse_after(v: SparseView, k: nat) -> SparseView
    decreases k,
{
    if k == 0 {
        v
    } else {
        sparse_next(sparse_after(v, (k - 1) as nat))
    }
}

impl SparseAutomaton {
    pub open spec fn view(&self) -> SparseView {
        SparseView {
            height: self.height as int,
            width: self.width as int,
            live: self.live_cells@,
            start: self.starting_point,
            finish: self.finishing_point,
            generation: self.generation as int,
        }
    }

    /// Decodes an integer matrix: cells coded 1 are live, the cell coded 2 is the start
    /// and the cell coded 3 the finish. Refused as `Automaton::from_integer_matrix`
    /// refuses: an empty or ragged matrix, or markers other than one start and one
    /// finish.
    pub fn from_integer_matrix(matrix: Vec<Vec<i32>>) -> (r: Result<SparseAutomaton, GridError>)
        ensures
            match r {
                Ok(a) => {
                    let m = grid_view(&matrix);
                    let g = decode_grid(m);
                    &&& is_nonempty(m)
                    &&& is_rectangular(m)
                    &&& a.height == m.len()
                    &&& a.width == m[0].len()
                    &&& a.generation == 1
                    &&& forall|p: Position| #[trigger]
                        a.live_cells@.contains(p) <==> in_grid(m, p.0 as int, p.1 as int)
                            && m[p.0 as int][p.1 as int] == 1
                    &&& matrix_error(m) is None
                    &&& is_last_cell(g, a.starting_point, CellState::Start)
                    &&& is_last_cell(g, a.finishing_point, CellState::Finish)
                },
                Err(e) => matrix_error(grid_view(&matrix)) == Some(e),
            },
    {
        let ghost m = grid_view(&matrix);
        let ghost g = decode_grid(m);
        if matrix.len() == 0 || matrix[0].len() == 0 {
            return Err(GridError::EmptyGrid);
        }
        if !rows_match(&matrix) {
            return Err(GridError::NonRectangular);
        }
        if !has_two_markers(&matrix) {
            return Err(GridError::MissingMarker);
        }
        let height = matrix.len();
        let width = matrix[0].len();
        let mut live_cells = LiveCells::new();
        let mut start: Option<Position> = None;
        let mut finish: Option<Position> = None;
        let mut i: usize = 0;
        while i < height
            invariant
                0 <= i <= height,
                height == m.len(),
                m == grid_view(&matrix),
                g == decode_grid(m),
                is_rectangular(m),
                width == m[0].len(),
                scan_ok(g, start, CellState::Start, i as int, 0),
                scan_ok(g, finish, CellState::Finish, i as int, 0),
                forall|p: Position| #[trigger]
                    live_cells@.contains(p) <==> in_grid(m, p.0 as int, p.1 as int) && p.0 < i
                        && m[p.0 as int][p.1 as int] == 1,
            decreases height - i,
        {
            let mut j: usize = 0;
            while j < width
                invariant
                    0 <= i < height,
                    0 <= j <= width,
                    height == m.len(),
                    m == grid_view(&matrix),
                    g == decode_grid(m),
                    is_rectangular(m),
                    width == m[0].len(),
                    scan_ok(g, start, CellState::Start, i as int, j as int),
                    scan_ok(g, finish, CellState::Finish, i as int, j as int),
                    forall|p: Position| #[trigger]
                        live_cells@.contains(p) <==> in_grid(m, p.0 as int, p.1 as int) && (p.0 < i
                            || (p.0 == i && p.1 < j)) && m[p.0 as int][p.1 as int] == 1,
                decreases width - j,
            {
                assert(m[i as int].len() == width);
                let v = matrix[i][j];
                if v == 1 {
                    live_cells.insert((i, j));
                }
                let c = decode(v);
                if c == CellState::Start {
                    start = Some((i, j));
                }
                if c == CellState::Finish {
                    finish = Some((i, j));
                }
                j += 1;
            }
            i += 1;
        }
        match (start, finish) {
            (Some(starting_point), Some(finishing_point)) => {
                proof {
                    assert(g[starting_point.0 as int][starting_point.1 as int] == CellState::Start);
                    assert(g[finishing_point.0 as int][finishing_point.1 as int] == CellState::Finish);
                }
                Ok(
                    SparseAutomaton {
                        width,
                        height,
                        live_cells,
                        starting_point,
                        finishing_point,
                        generation: 1,
                    },
                )
            },
            _ => Err(GridError::MissingMarker),
        }
    }

    /// Whether (r, c) lies inside the bounds, is neither start nor finish, and is live.
    fn is_live(&self, r: usize, c: usize) -> (b: bool)
        ensures
            b == (sparse_alive_at(self@, r as int, c as int) == 1),
    {
        r < self.height && c < self.width && !(r == self.starting_point.0 && c
            == self.starting_point.1) && !(r == self.finishing_point.0 && c
            == self.finishing_point.1) && self.live_cells.contains((r, c))
    }

    fn get_number_of_alive_neighbors(&self, position: Position) -> (n: u32)
        requires
            position.0 < self.height,
            position.1 < self.width,
        ensures
            n as int == sparse_neighbors(self@, position.0 as int, position.1 as int),
    {
        let (i, j) = position;
        let mut n: u32 = 0;
        if i > 0 {
            if j > 0 && self.is_live(i - 1, j - 1) {
                n += 1;
            }
            if self.is_live(i - 1, j) {
                n += 1;
            }
            if self.is_live(i - 1, j + 1) {
                n += 1;
            }
        }
        if j > 0 && self.is_live(i, j - 1) {
            n += 1;
        }
        if self.is_live(i, j + 1) {
            n += 1;
        }
        if j > 0 && self.is_live(i + 1, j - 1) {
            n += 1;
        }
        if self.is_live(i + 1, j) {
            n += 1;
        }
        if self.is_live(i + 1, j + 1) {
            n += 1;
        }
        n
    }

    /// The next generation; start and finish are never live and never counted.
    pub fn iterate(&self) -> (r: SparseAutomaton)
        requires
            self.generation < u32::MAX,
        ensures
            r@ == sparse_next(self@),
    {
        let ghost v = self@;
        let mut live = LiveCells::new();
        let mut i: usize = 0;
        while i < self.height
            invariant
                0 <= i <= self.height,
                v == self@,
                forall|p: Position| #[trigger]
                    live@.contains(p) <==> sparse_next_alive(v, p) && p.0 < i,
            decreases self.height - i,
        {
            let mut j: usize = 0;
            while j < self.width
                invariant
                    0 <= i < self.height,
                    0 <= j <= self.width,
                    v == self@,
                    forall|p: Position| #[trigger]
                        live@.contains(p) <==> sparse_next_alive(v, p) && (p.0 < i || (p.0 == i
                            && p.1 < j)),
                decreases self.width - j,
            {
                let position = (i, j);
                let is_marker = (i == self.starting_point.0 && j == self.starting_point.1) || (i
                    == self.finishing_point.0 && j == self.finishing_point.1);
                if !is_marker {
                    let n = self.get_number_of_alive_neighbors(position);
                    if self.live_cells.contains(position) {
                        if stay_alive_rule(n) {
                            live.insert(position);
                        }
                    } else {
                        if become_alive_rule(n) {
                            live.insert(position);
                        }
                    }
                }
                j += 1;
            }
            i += 1;
        }
        let r = SparseAutomaton {
            width: self.width,
            height: self.height,
            live_cells: live,
            starting_point: self.starting_point,
            finishing_point: self.finishing_point,
            generation: self.generation + 1,
        };
        assert(r@.live =~= sparse_next(v).live);
        r
    }
}

/// Inside `[0, height) x [0, width)` and not live.
pub open spec fn free_at(bounds: (usize, usize), live: Set<Position>, i: int, j: int) -> bool {
    0 <= i < bounds.0 && 0 <= j < bounds.1 && !live.contains((i as usize, j as usize))
}

/// The legal moves from p, in the order left, right, up, down.
pub open spec fn sparse_moves(bounds: (usize, usize), live: Set<Position>, p: Position) -> Seq<Position> {
    let i = p.0 as int;
    let j = p.1 as int;
    seq_if(free_at(bounds, live, i, j - 1), (p.0, (j - 1) as usize)) + seq_if(
        free_at(bounds, live, i, j + 1),
        (p.0, (j + 1) as usize),
    ) + seq_if(free_at(bounds, live, i - 1, j), ((i - 1) as usize, p.1)) + seq_if(
        free_at(bounds, live, i + 1, j),
        ((i + 1) as usize, p.1),
    )
}

/// The orthogonal neighbours of `position` inside `bounds` = (height, width) that are
/// not live.
pub fn get_possible_moves(bounds: (usize, usize), live_cells: &LiveCells, position: Position) -> (r: Vec<Position>)
    ensures
        r@ == sparse_moves(bounds, live_cells@, position),
        r@.len() <= 4,
        forall|k: int|
            0 <= k < r@.len() ==> {
                &&& #[trigger] r@[k].0 < bounds.0
                &&& r@[k].1 < bounds.1
                &&& !live_cells@.contains(r@[k])
                &&& adjacent(position, r@[k])
            },
{
    let (height, width) = bounds;
    let (i, j) = position;
    let mut moves: Vec<Position> = Vec::new();
    if i < height && j > 0 && j - 1 < width && !live_cells.contains((i, j - 1)) {
        moves.push((i, j - 1));
    }
    if i < height && j < width && j + 1 < width && !live_cells.contains((i, j + 1)) {
        moves.push((i, j + 1));
    }
    if i > 0 && i - 1 < height && j < width && !live_cells.contains((i - 1, j)) {
        moves.push((i - 1, j));
    }
    if i < height && i + 1 < height && j < width && !live_cells.contains((i + 1, j)) {
        moves.push((i + 1, j));
    }
    assert(moves@ =~= sparse_moves(bounds, live_cells@, position));
    moves
}

/// A dense and a sparse automaton describe the same state: same bounds, start and
/// finish; the live set is exactly the set of Alive cells; the Start and Finish cells of
/// the grid are exactly the start and finish positions.
pub open spec fn same_state(d: AutomatonView, s: SparseView) -> bool {
    let g = d.grid;
    &&& is_nonempty(g)
    &&& is_rectangular(g)
    &&& s.height == g.len() <= usize::MAX
    &&& s.width == g[0].len() <= usize::MAX
    &&& s.start == d.start
    &&& s.finish == d.finish
    &&& forall|p: Position| #[trigger] s.live.contains(p) ==> p.0 < s.height && p.1 < s.width
    &&& forall|i: int, j: int|
        in_grid(g, i, j) ==> ((#[trigger] g[i][j] == CellState::Alive) <==> s.live.contains(
            (i as usize, j as usize),
        ))
    &&& forall|i: int, j: int|
        in_grid(g, i, j) ==> ((#[trigger] g[i][j] == CellState::Start || g[i][j]
            == CellState::Finish) <==> ((i as usize, j as usize) == d.start || (i as usize, j as usize)
            == d.finish))
}

proof fn lemma_same_counts(d: AutomatonView, s: SparseView, i: int, j: int)
    requires
        same_state(d, s),
    ensures
        alive_at(d.grid, i, j) == sparse_alive_at(s, i, j),
{
    let g = d.grid;
    if 0 <= i < g.len() {
        assert(g[i].len() == g[0].len());
    }
    if in_grid(g, i, j) {
        assert(g[i][j] == CellState::Alive <==> s.live.contains((i as usize, j as usize)));
    }
}

proof fn lemma_same_neighbors(d: AutomatonView, s: SparseView, i: int, j: int)
    requires
        same_state(d, s),
    ensures
        live_neighbors(d.grid, i, j) == sparse_neighbors(s, i, j),
{
    lemma_same_counts(d, s, i - 1, j - 1);
    lemma_same_counts(d, s, i - 1, j);
    lemma_same_counts(d, s, i - 1, j + 1);
    lemma_same_counts(d, s, i, j - 1);
    lemma_same_counts(d, s, i, j + 1);
    lemma_same_counts(d, s, i + 1, j - 1);
    lemma_same_counts(d, s, i + 1, j);
    lemma_same_counts(d, s, i + 1, j + 1);
}

/// One iteration of each engine keeps them describing the same state.
pub proof fn lemma_same_state_step(d: AutomatonView, s: SparseView)
    requires
        same_state(d, s),
    ensures
        same_state(next_view(d), sparse_next(s)),
{
    let g = d.grid;
    let ng = step_grid(g);
    lemma_step_keeps_shape(g);
    assert(is_rectangular(ng)) by {
        assert forall|i: int| 0 <= i < ng.len() implies #[trigger] ng[i].len() == ng[0].len() by {
            assert(g[i].len() == g[0].len());
        }
    }
    assert forall|i: int, j: int| in_grid(ng, i, j) implies ((#[trigger] ng[i][j]
        == CellState::Alive) <==> sparse_next(s).live.contains((i as usize, j as usize))) by {
        let p = (i as usize, j as usize);
        assert(g[i].len() == g[0].len());
        lemma_same_neighbors(d, s, i, j);
        assert(g[i][j] == CellState::Alive <==> s.live.contains(p));
        assert(g[i][j] == CellState::Start || g[i][j] == CellState::Finish <==> (p == d.start || p == d.finish));
        assert(sparse_next(s).live.contains(p) == sparse_next_alive(s, p));
        assert(g[i].len() == g[0].len());
    }
    assert forall|i: int, j: int| in_grid(ng, i, j) implies ((#[trigger] ng[i][j]
        == CellState::Start || ng[i][j] == CellState::Finish) <==> ((i as usize, j as usize)
        == d.start || (i as usize, j as usize) == d.finish)) by {
        assert(g[i][j] == CellState::Start || g[i][j] == CellState::Finish <==> ((i as usize, j as usize)
            == d.start || (i as usize, j as usize) == d.finish));
    }
}

/// The rule as the sparse `iterate` applies it: a cell inside the bounds that is
/// neither start nor finish is live next iff it is live with 4 or 5 live neighbours, or
/// not live with 2, 3 or 4; start and finish are never live.
pub proof fn lemma_sparse_rule(v: SparseView, p: Position)
    ensures
        ({
            let n = sparse_neighbors(v, p.0 as int, p.1 as int);
            &&& (p.0 < v.height && p.1 < v.width && p != v.start && p != v.finish) ==> (
            sparse_next(v).live.contains(p) == (if v.live.contains(p) {
                n == 4 || n == 5
            } else {
                2 <= n <= 4
            }))
            &&& (p == v.start || p == v.finish) ==> !sparse_next(v).live.contains(p)
        }),
{
}

/// Two last cells of one kind are one cell.
proof fn lemma_last_cell_unique(g: Seq<Seq<CellState>>, p: Position, q: Position, c: CellState)
    requires
        is_last_cell(g, p, c),
        is_last_cell(g, q, c),
    ensures
        p == q,
{
    assert(g[p.0 as int][p.1 as int] == c);
    assert(g[q.0 as int][q.1 as int] == c);
}

/// Decoded from the same integer matrix, the dense and the sparse engine start in the
/// same state. The premises are what `Automaton::from_integer_matrix` and
/// `SparseAutomaton::from_integer_matrix` promise when both succeed.
pub proof fn lemma_same_start(m: Seq<Seq<i32>>, d: AutomatonView, s: SparseView)
    requires
        matrix_error(m) is None,
        m.len() <= usize::MAX,
        m[0].len() <= usize::MAX,
        d.grid == decode_grid(m),
        is_last_cell(d.grid, d.start, CellState::Start),
        is_last_cell(d.grid, d.finish, CellState::Finish),
        s.height == m.len(),
        s.width == m[0].len(),
        forall|p: Position| #[trigger]
            s.live.contains(p) <==> in_grid(m, p.0 as int, p.1 as int) && m[p.0 as int][p.1 as int]
                == 1,
        is_last_cell(d.grid, s.start, CellState::Start),
        is_last_cell(d.grid, s.finish, CellState::Finish),
    ensures
        same_state(d, s),
{
    let g = d.grid;
    assert(g[d.start.0 as int][d.start.1 as int] == CellState::Start);
    assert(g[d.finish.0 as int][d.finish.1 as int] == CellState::Finish);
    lemma_last_cell_unique(g, d.start, s.start, CellState::Start);
    lemma_last_cell_unique(g, d.finish, s.finish, CellState::Finish);
    lemma_single_markers(m, d.start, CellState::Start);
    lemma_single_markers(m, d.finish, CellState::Finish);
    assert(is_rectangular(g)) by {
        assert forall|i: int| 0 <= i < g.len() implies #[trigger] g[i].len() == g[0].len() by {
            assert(m[i].len() == m[0].len());
        }
    }
    assert forall|p: Position| #[trigger] s.live.contains(p) implies p.0 < s.height && p.1 < s.width by {
        assert(m[p.0 as int].len() == m[0].len());
    }
    assert forall|i: int, j: int| in_grid(g, i, j) implies ((#[trigger] g[i][j] == CellState::Alive)
        <==> s.live.contains((i as usize, j as usize))) by {
        assert(m[i].len() == m[0].len());
        assert(in_grid(m, i, j));
    }
}

/// Started from the same state, the dense and the sparse engine agree on the live
/// cells after any number of iterations.
pub proof fn lemma_engines_agree(d: AutomatonView, s: SparseView, k: nat)
    requires
        same_state(d, s),
    ensures
        same_state(view_after(d, k), sparse_after(s, k)),
        forall|i: int, j: int|
            in_grid(view_after(d, k).grid, i, j) ==> ((#[trigger] view_after(d, k).grid[i][j]
                == CellState::Alive) <==> sparse_after(s, k).live.contains((i as usize, j as usize))),
    decreases k,
{
    if k > 0 {
        lemma_engines_agree(d, s, (k - 1) as nat);
        lemma_same_state_step(view_after(d, (k - 1) as nat), sparse_after(s, (k - 1) as nat));
    }
}

} // verus!
