use vstd::prelude::*;

verus! {

/// A grid coordinate: (row, column).
pub type Position = (usize, usize);

#[derive(Clone, Copy, PartialEq, Eq, Debug, Structural)]
pub enum CellState {
    Start,
    Finish,
    Dead,
    Alive,
}

/// Why a grid, an automaton or a generation lookup was refused.
#[derive(Clone, Copy, PartialEq, Eq, Debug, Structural)]
pub enum GridError {
    MissingMarker,
    NonRectangular,
    EmptyGrid,
    GenerationOutOfRange,
    WrongGenerationPrecondition,
}

#[derive(Debug)]
pub struct Automaton {
    pub matrix: Vec<Vec<CellState>>,
    pub generation: u32,
    pub starting_point: Position,
    pub finishing_point: Position,
}

/// The mathematical model of an automaton.
pub struct AutomatonView {
    pub grid: Seq<Seq<CellState>>,
    pub generation: int,
    pub start: Position,
    pub finish: Position,
}

/// A matrix of vectors seen as a sequence of rows.
pub open spec fn grid_view<T>(m: &Vec<Vec<T>>) -> Seq<Seq<T>> {
    m@.map_values(|r: Vec<T>| r@)
}

pub open spec fn in_grid<T>(g: Seq<Seq<T>>, i: int, j: int) -> bool {
    0 <= i < g.len() && 0 <= j < g[i].len()
}

pub open spec fn holds(g: Seq<Seq<CellState>>, p: Position) -> bool {
    in_grid(g, p.0 as int, p.1 as int)
}

pub open spec fn cell(g: Seq<Seq<CellState>>, p: Position) -> CellState {
    g[p.0 as int][p.1 as int]
}

/// At least one row, and a first row that is not empty.
pub open spec fn is_nonempty<T>(g: Seq<Seq<T>>) -> bool {
    g.len() > 0 && g[0].len() > 0
}

/// Every row as long as the first.
pub open spec fn is_rectangular<T>(g: Seq<Seq<T>>) -> bool {
    forall|i: int| 0 <= i < g.len() ==> #[trigger] g[i].len() == g[0].len()
}

pub open spec fn has_cell(g: Seq<Seq<CellState>>, c: CellState) -> bool {
    exists|i: int, j: int| in_grid(g, i, j) && #[trigger] g[i][j] == c
}

/// Row-major order: (i, j) comes after p.
pub open spec fn after(i: int, j: int, p: Position) -> bool {
    i > p.0 || (i == p.0 && j > p.1)
}

/// `p` is the last cell of kind `c` in row-major order.
pub open spec fn is_last_cell(g: Seq<Seq<CellState>>, p: Position, c: CellState) -> bool {
    &&& holds(g, p)
    &&& cell(g, p) == c
    &&& forall|i: int, j: int| in_grid(g, i, j) && after(i, j, p) ==> #[trigger] g[i][j] != c
}

/// What a grid lacks to be the pattern of an automaton, if anything.
pub open spec fn pattern_error(g: Seq<Seq<CellState>>) -> Option<GridError> {
    if !is_nonempty(g) {
        Some(GridError::EmptyGrid)
    } else if !is_rectangular(g) {
        Some(GridError::NonRectangular)
    } else if !has_cell(g, CellState::Start) || !has_cell(g, CellState::Finish) {
        Some(GridError::MissingMarker)
    } else {
        None
    }
}

/// 1 where (i, j) is in the grid and Alive, else 0.
pub open spec fn alive_at(g: Seq<Seq<CellState>>, i: int, j: int) -> int {
    if in_grid(g, i, j) && g[i][j] == CellState::Alive {
        1
    } else {
        0
    }
}

/// The number of Alive cells among the eight neighbours of (i, j), clipped at the edges.
pub open spec fn live_neighbors(g: Seq<Seq<CellState>>, i: int, j: int) -> int {
    alive_at(g, i - 1, j - 1) + alive_at(g, i - 1, j) + alive_at(g, i - 1, j + 1) + alive_at(
        g,
        i,
        j - 1,
    ) + alive_at(g, i, j + 1) + alive_at(g, i + 1, j - 1) + alive_at(g, i + 1, j) + alive_at(
        g,
        i + 1,
        j + 1,
    )
}

pub open spec fn stays_alive(n: int) -> bool {
    4 <= n <= 5
}

pub open spec fn becomes_alive(n: int) -> bool {
    2 <= n <= 4
}

/// The state of cell (i, j) one generation later.
pub open spec fn next_cell(g: Seq<Seq<CellState>>, i: int, j: int) -> CellState {
    match g[i][j] {
        CellState::Alive => if stays_alive(live_neighbors(g, i, j)) {
            CellState::Alive
        } else {
            CellState::Dead
        },
        CellState::Dead => if becomes_alive(live_neighbors(g, i, j)) {
            CellState::Alive
        } else {
            CellState::Dead
        },
        other => other,
    }
}

pub open spec fn step_grid(g: Seq<Seq<CellState>>) -> Seq<Seq<CellState>> {
    Seq::new(g.len(), |i: int| Seq::new(g[i].len(), |j: int| next_cell(g, i, j)))
}

/// The grid after `k` generations.
pub open spec fn evolve(g: Seq<Seq<CellState>>, k: nat) -> Seq<Seq<CellState>>
    decreases k,
{
    if k == 0 {
        g
    } else {
        step_grid(evolve(g, (k - 1) as nat))
    }
}

pub open spec fn next_view(v: AutomatonView) -> AutomatonView {
    AutomatonView {
        grid: step_grid(v.grid),
        generation: v.generation + 1,
        start: v.start,
        finish: v.finish,
    }
}

/// The automaton after `k` calls of `iterate`.
pub open spec fn view_after(v: AutomatonView, k: nat) -> AutomatonView
    decreases k,
{
    if k == 0 {
        v
    } else {
        next_view(view_after(v, (k - 1) as nat))
    }
}

pub open spec fn decode_cell(v: i32) -> CellState {
    if v == 1 {
        CellState::Alive
    } else if v == 2 {
        CellState::Start
    } else if v == 3 {
        CellState::Finish
    } else {
        CellState::Dead
    }
}

pub open spec fn encode_cell(c: CellState) -> i32 {
    match c {
        CellState::Alive => 1,
        CellState::Dead => 0,
        CellState::Start => 2,
        CellState::Finish => 3,
    }
}

pub open spec fn decode_grid(m: Seq<Seq<i32>>) -> Seq<Seq<CellState>> {
    Seq::new(m.len(), |i: int| Seq::new(m[i].len(), |j: int| decode_cell(m[i][j])))
}

pub open spec fn encode_grid(g: Seq<Seq<CellState>>) -> Seq<Seq<i32>> {
    Seq::new(g.len(), |i: int| Seq::new(g[i].len(), |j: int| encode_cell(g[i][j])))
}

pub open spec fn is_marker_code(v: i32) -> bool {
    v == 2 || v == 3
}

pub open spec fn row_marker_count(r: Seq<i32>) -> nat
    decreases r.len(),
{
    if r.len() == 0 {
        0
    } else {
        row_marker_count(r.drop_last()) + if is_marker_code(r.last()) {
            1nat
        } else {
            0nat
        }
    }
}

/// How many cells of the matrix are coded 2 or 3.
pub open spec fn marker_count(m: Seq<Seq<i32>>) -> nat
    decreases m.len(),
{
    if m.len() == 0 {
        0
    } else {
        marker_count(m.drop_last()) + row_marker_count(m.last())
    }
}

/// What an integer matrix lacks to decode into an automaton, if anything.
pub open spec fn matrix_error(m: Seq<Seq<i32>>) -> Option<GridError> {
    if !is_nonempty(m) {
        Some(GridError::EmptyGrid)
    } else if !is_rectangular(m) {
        Some(GridError::NonRectangular)
    } else if marker_count(m) != 2 {
        Some(GridError::MissingMarker)
    } else {
        pattern_error(decode_grid(m))
    }
}

spec fn capped(n: nat) -> nat {
    if n < 3 {
        n
    } else {
        3
    }
}

pub(crate) fn decode(v: i32) -> (c: CellState)
    ensures
        c == decode_cell(v),
{
    if v == 1 {
        CellState::Alive
    } else if v == 2 {
        CellState::Start
    } else if v == 3 {
        CellState::Finish
    } else {
        CellState::Dead
    }
}

/// One generation keeps the grid's shape, and every Start or Finish cell.
pub proof fn lemma_step_keeps_shape(g: Seq<Seq<CellState>>)
    ensures
        step_grid(g).len() == g.len(),
        forall|i: int| 0 <= i < g.len() ==> #[trigger] step_grid(g)[i].len() == g[i].len(),
        forall|i: int, j: int|
            in_grid(g, i, j) && (g[i][j] == CellState::Start || g[i][j] == CellState::Finish)
                ==> #[trigger] step_grid(g)[i][j] == g[i][j],
{
}

/// Any number of generations keeps the grid's shape, and every Start or Finish cell.
pub proof fn lemma_evolve_keeps_shape(g: Seq<Seq<CellState>>, k: nat)
    ensures
        evolve(g, k).len() == g.len(),
        forall|i: int| 0 <= i < g.len() ==> #[trigger] evolve(g, k)[i].len() == g[i].len(),
        forall|i: int, j: int|
            in_grid(g, i, j) && (g[i][j] == CellState::Start || g[i][j] == CellState::Finish)
                ==> #[trigger] evolve(g, k)[i][j] == g[i][j],
    decreases k,
{
    if k > 0 {
        lemma_evolve_keeps_shape(g, (k - 1) as nat);
        lemma_step_keeps_shape(evolve(g, (k - 1) as nat));
    }
}

/// Decoding a matrix whose cells are all coded 0 to 3 and encoding the grid again gives
/// the matrix back: `to_integer_matrix` inverts `from_integer_matrix` on valid input.
pub proof fn lemma_round_trip(m: Seq<Seq<i32>>)
    requires
        forall|i: int, j: int| in_grid(m, i, j) ==> 0 <= #[trigger] m[i][j] <= 3,
    ensures
        encode_grid(decode_grid(m)) == m,
{
    assert forall|i: int| 0 <= i < m.len() implies #[trigger] encode_grid(decode_grid(m))[i] == m[i] by {
        assert(encode_grid(decode_grid(m))[i] =~= m[i]);
    }
    assert(encode_grid(decode_grid(m)) =~= m);
}

/// After k calls of `iterate` the generation has grown by k, the grid has evolved k
/// times, and start and finish have not moved.
pub proof fn lemma_generations(v: AutomatonView, k: nat)
    ensures
        view_after(v, k).generation == v.generation + k,
        view_after(v, k).grid == evolve(v.grid, k),
        view_after(v, k).start == v.start,
        view_after(v, k).finish == v.finish,
    decreases k,
{
    if k > 0 {
        lemma_generations(v, (k - 1) as nat);
    }
}

/// Iteration is deterministic: equal automata stay equal after any number of
/// iterations.
pub proof fn lemma_deterministic(v1: AutomatonView, v2: AutomatonView, k: nat)
    requires
        v1 == v2,
    ensures
        view_after(v1, k) == view_after(v2, k),
{
}

/// The start and finish cells keep their position and their marker through any number
/// of iterations.
pub proof fn lemma_markers_stay(v: AutomatonView, k: nat)
    requires
        holds(v.grid, v.start),
        cell(v.grid, v.start) == CellState::Start,
        holds(v.grid, v.finish),
        cell(v.grid, v.finish) == CellState::Finish,
    ensures
        view_after(v, k).start == v.start,
        view_after(v, k).finish == v.finish,
        holds(view_after(v, k).grid, v.start),
        cell(view_after(v, k).grid, v.start) == CellState::Start,
        holds(view_after(v, k).grid, v.finish),
        cell(view_after(v, k).grid, v.finish) == CellState::Finish,
{
    lemma_generations(v, k);
    lemma_evolve_keeps_shape(v.grid, k);
    assert(evolve(v.grid, k)[v.start.0 as int][v.start.1 as int] == CellState::Start);
    assert(evolve(v.grid, k)[v.finish.0 as int][v.finish.1 as int] == CellState::Finish);
}

/// The evolution rule: an Alive cell survives iff it has 4 or 5 live neighbours, a Dead
/// cell comes alive iff it has 2, 3 or 4, every other Alive or Dead cell ends Dead, and
/// Start and Finish cells stay as they are.
pub proof fn lemma_rule(g: Seq<Seq<CellState>>, i: int, j: int)
    requires
        in_grid(g, i, j),
    ensures
        ({
            let n = live_neighbors(g, i, j);
            let next = step_grid(g)[i][j];
            &&& g[i][j] == CellState::Alive ==> (next == CellState::Alive <==> (n == 4 || n == 5))
            &&& g[i][j] == CellState::Dead ==> (next == CellState::Alive <==> (n == 2 || n == 3 || n
                == 4))
            &&& (g[i][j] == CellState::Alive || g[i][j] == CellState::Dead) ==> (next
                == CellState::Alive || next == CellState::Dead)
            &&& (g[i][j] == CellState::Start || g[i][j] == CellState::Finish) ==> next == g[i][j]
        }),
{
}

/// 1 where (i, j) is in the matrix and coded 2 or 3, else 0.
pub open spec fn marker_at(m: Seq<Seq<i32>>, c: (int, int)) -> nat {
    if in_grid(m, c.0, c.1) && is_marker_code(m[c.0][c.1]) {
        1
    } else {
        0
    }
}

proof fn lemma_row_count_three(r: Seq<i32>, a: int, b: int, c: int)
    requires
        a != b,
        b != c,
        a != c,
    ensures
        row_marker_count(r) >= (if 0 <= a < r.len() && is_marker_code(r[a]) { 1nat } else { 0nat })
            + (if 0 <= b < r.len() && is_marker_code(r[b]) { 1nat } else { 0nat }) + (if 0 <= c
            < r.len() && is_marker_code(r[c]) { 1nat } else { 0nat }),
    decreases r.len(),
{
    if r.len() > 0 {
        lemma_row_count_three(r.drop_last(), a, b, c);
    }
}

proof fn lemma_row_count_two(r: Seq<i32>, a: int, b: int)
    requires
        a != b,
    ensures
        row_marker_count(r) >= (if 0 <= a < r.len() && is_marker_code(r[a]) { 1nat } else { 0nat })
            + (if 0 <= b < r.len() && is_marker_code(r[b]) { 1nat } else { 0nat }),
    decreases r.len(),
{
    if r.len() > 0 {
        lemma_row_count_two(r.drop_last(), a, b);
    }
}

proof fn lemma_row_count_one(r: Seq<i32>, a: int)
    ensures
        row_marker_count(r) >= (if 0 <= a < r.len() && is_marker_code(r[a]) { 1nat } else { 0nat }),
    decreases r.len(),
{
    if r.len() > 0 {
        lemma_row_count_one(r.drop_last(), a);
    }
}

/// Three distinct marked cells are all counted.
proof fn lemma_count_three(m: Seq<Seq<i32>>, a: (int, int), b: (int, int), c: (int, int))
    requires
        a != b,
        b != c,
        a != c,
    ensures
        marker_count(m) >= marker_at(m, a) + marker_at(m, b) + marker_at(m, c),
    decreases m.len(),
{
    if m.len() > 0 {
        let k = m.len() - 1;
        let d = m.drop_last();
        lemma_count_three(d, a, b, c);
        assert forall|x: (int, int)| x.0 != k implies #[trigger] marker_at(m, x) == marker_at(d, x) by {}
        let r = m[k];
        if a.0 == k && b.0 == k && c.0 == k {
            lemma_row_count_three(r, a.1, b.1, c.1);
        } else if a.0 == k && b.0 == k {
            lemma_row_count_two(r, a.1, b.1);
        } else if b.0 == k && c.0 == k {
            lemma_row_count_two(r, b.1, c.1);
        } else if a.0 == k && c.0 == k {
            lemma_row_count_two(r, a.1, c.1);
        } else if a.0 == k {
            lemma_row_count_one(r, a.1);
        } else if b.0 == k {
            lemma_row_count_one(r, b.1);
        } else if c.0 == k {
            lemma_row_count_one(r, c.1);
        }
    }
}

/// A matrix that decodes into an automaton has exactly one cell coded 2 and one coded 3.
pub proof fn lemma_single_markers(m: Seq<Seq<i32>>, p: Position, c: CellState)
    requires
        matrix_error(m) is None,
        c == CellState::Start || c == CellState::Finish,
        is_last_cell(decode_grid(m), p, c),
    ensures
        forall|i: int, j: int|
            in_grid(decode_grid(m), i, j) && #[trigger] decode_grid(m)[i][j] == c ==> i == p.0 && j
                == p.1,
{
    let g = decode_grid(m);
    let other = if c == CellState::Start { CellState::Finish } else { CellState::Start };
    let (oi, oj) = choose|i: int, j: int| in_grid(g, i, j) && #[trigger] g[i][j] == other;
    assert forall|i: int, j: int| in_grid(g, i, j) && #[trigger] g[i][j] == c implies i == p.0 && j
        == p.1 by {
        if i != p.0 || j != p.1 {
            lemma_count_three(m, (i, j), (p.0 as int, p.1 as int), (oi, oj));
            assert(marker_at(m, (i, j)) == 1);
            assert(marker_at(m, (p.0 as int, p.1 as int)) == 1);
            assert(marker_at(m, (oi, oj)) == 1);
        }
    }
}

/// The rule as `iterate` applies it: after one iteration an Alive cell is Alive iff it
/// had 4 or 5 live neighbours, a Dead cell is Alive iff it had 2, 3 or 4, and no other
/// cell becomes Alive.
pub proof fn lemma_iterate_rule(v: AutomatonView, i: int, j: int)
    requires
        in_grid(v.grid, i, j),
    ensures
        ({
            let n = live_neighbors(v.grid, i, j);
            let next = next_view(v).grid[i][j];
            &&& v.grid[i][j] == CellState::Alive ==> (next == (if n == 4 || n == 5 {
                CellState::Alive
            } else {
                CellState::Dead
            }))
            &&& v.grid[i][j] == CellState::Dead ==> (next == (if 2 <= n <= 4 {
                CellState::Alive
            } else {
                CellState::Dead
            }))
            &&& (v.grid[i][j] == CellState::Start || v.grid[i][j] == CellState::Finish) ==> next
                == v.grid[i][j]
        }),
{
}

pub(crate) fn stay_alive_rule(number_of_living_neighbours: u32) -> (r: bool)
    ensures
        r == stays_alive(number_of_living_neighbours as int),
{
    number_of_living_neighbours > 3 && number_of_living_neighbours < 6
}

pub(crate) fn become_alive_rule(number_of_living_neighbours: u32) -> (r: bool)
    ensures
        r == becomes_alive(number_of_living_neighbours as int),
{
    number_of_living_neighbours > 1 && number_of_living_neighbours < 5
}

/// Row-major order: (i, j) comes before the cursor (ci, cj).
pub open spec fn scanned(i: int, j: int, ci: int, cj: int) -> bool {
    i < ci || (i == ci && j < cj)
}

/// `found` is the last cell of kind `c` among the scanned cells, or there is none.
pub open spec fn scan_ok(g: Seq<Seq<CellState>>, found: Option<Position>, c: CellState, ci: int, cj: int) -> bool {
    match found {
        None => forall|i: int, j: int|
            in_grid(g, i, j) && scanned(i, j, ci, cj) ==> #[trigger] g[i][j] != c,
        Some(p) => {
            &&& holds(g, p)
            &&& cell(g, p) == c
            &&& scanned(p.0 as int, p.1 as int, ci, cj)
            &&& forall|i: int, j: int|
                in_grid(g, i, j) && scanned(i, j, ci, cj) && after(i, j, p) ==> #[trigger] g[i][j]
                    != c
        },
    }
}

/// Whether every row has the length of the first.
pub(crate) fn rows_match<T>(m: &Vec<Vec<T>>) -> (r: bool)
    requires
        m@.len() > 0,
    ensures
        r == is_rectangular(grid_view(m)),
{
    let width = m[0].len();
    let mut i: usize = 0;
    while i < m.len()
        invariant
            0 <= i <= m@.len(),
            m@.len() > 0,
            width == m@[0]@.len(),
            forall|k: int| 0 <= k < i ==> #[trigger] m@[k]@.len() == width,
        decreases m@.len() - i,
    {
        if m[i].len() != width {
            assert(grid_view(m)[i as int].len() != grid_view(m)[0].len());
            return false;
        }
        i += 1;
    }
    assert forall|k: int| 0 <= k < grid_view(m).len() implies #[trigger] grid_view(m)[k].len()
        == grid_view(m)[0].len() by {
        assert(m@[k]@.len() == width);
    }
    true
}

/// Whether (r, c) lies in the matrix and holds an Alive cell.
fn cell_is_alive(matrix: &Vec<Vec<CellState>>, r: usize, c: usize) -> (b: bool)
    ensures
        b == (alive_at(grid_view(matrix), r as int, c as int) == 1),
{
    r < matrix.len() && c < matrix[r].len() && matrix[r][c] == CellState::Alive
}

/// The number of Alive cells among the eight neighbours of (i, j).
fn count_alive_neighbours(matrix: &Vec<Vec<CellState>>, i: usize, j: usize) -> (n: u32)
    requires
        i < matrix@.len(),
        j < matrix@[i as int]@.len(),
    ensures
        n as int == live_neighbors(grid_view(matrix), i as int, j as int),
{
    let height = matrix.len();
    let width = matrix[i].len();
    proof {
        // the neighbours below and to the right are addressable
        assert(i + 1 <= height && j + 1 <= width);
    }
    let mut n: u32 = 0;
    if i > 0 {
        if j > 0 && cell_is_alive(matrix, i - 1, j - 1) {
            n += 1;
        }
        if cell_is_alive(matrix, i - 1, j) {
            n += 1;
        }
        if cell_is_alive(matrix, i - 1, j + 1) {
            n += 1;
        }
    }
    if j > 0 && cell_is_alive(matrix, i, j - 1) {
        n += 1;
    }
    if cell_is_alive(matrix, i, j + 1) {
        n += 1;
    }
    if j > 0 && cell_is_alive(matrix, i + 1, j - 1) {
        n += 1;
    }
    if cell_is_alive(matrix, i + 1, j) {
        n += 1;
    }
    if cell_is_alive(matrix, i + 1, j + 1) {
        n += 1;
    }
    n
}

/// The grid one generation later: the evolution rule applied to every cell.
pub fn next_matrix(matrix: &Vec<Vec<CellState>>) -> (r: Vec<Vec<CellState>>)
    ensures
        grid_view(&r) == step_grid(grid_view(matrix)),
{
    let ghost g = grid_view(matrix);
    let mut out: Vec<Vec<CellState>> = Vec::new();
    let mut i: usize = 0;
    while i < matrix.len()
        invariant
            0 <= i <= matrix@.len(),
            g == grid_view(matrix),
            out@.len() == i,
            forall|k: int| 0 <= k < i ==> #[trigger] out@[k]@ == step_grid(g)[k],
        decreases matrix@.len() - i,
    {
        let mut row: Vec<CellState> = Vec::new();
        let mut j: usize = 0;
        while j < matrix[i].len()
            invariant
                0 <= i < matrix@.len(),
                0 <= j <= matrix@[i as int]@.len(),
                g == grid_view(matrix),
                row@ == Seq::new(j as nat, |jj: int| next_cell(g, i as int, jj)),
            decreases matrix@[i as int]@.len() - j,
        {
            let n = count_alive_neighbours(matrix, i, j);
            let c = match matrix[i][j] {
                CellState::Alive => if stay_alive_rule(n) {
                    CellState::Alive
                } else {
                    CellState::Dead
                },
                CellState::Dead => if become_alive_rule(n) {
                    CellState::Alive
                } else {
                    CellState::Dead
                },
                other => other,
            };
            row.push(c);
            proof {
                assert(row@ =~= Seq::new((j + 1) as nat, |jj: int| next_cell(g, i as int, jj)));
            }
            j += 1;
        }
        assert(row@ =~= step_grid(g)[i as int]);
        out.push(row);
        i += 1;
    }
    assert(grid_view(&out) =~= step_grid(g));
    out
}

/// Whether exactly two cells of the matrix are coded 2 or 3.
pub(crate) fn has_two_markers(matrix: &Vec<Vec<i32>>) -> (b: bool)
    ensures
        b == (marker_count(grid_view(matrix)) == 2),
{
    let ghost m = grid_view(matrix);
    let mut count: usize = 0;
    let mut i: usize = 0;
    while i < matrix.len()
        invariant
            0 <= i <= matrix@.len(),
            m == grid_view(&matrix),
            count == capped(marker_count(m.take(i as int))),
        decreases matrix@.len() - i,
    {
        let mut j: usize = 0;
        while j < matrix[i].len()
            invariant
                0 <= i < matrix@.len(),
                0 <= j <= matrix@[i as int]@.len(),
                m == grid_view(&matrix),
                count == capped(
                    marker_count(m.take(i as int)) + row_marker_count(m[i as int].take(j as int)),
                ),
            decreases matrix@[i as int]@.len() - j,
        {
            proof {
                let r = m[i as int];
                assert(r.take(j + 1).drop_last() =~= r.take(j as int));
            }
            let v = matrix[i][j];
            if v == 2 || v == 3 {
                if count < 3 {
                    count += 1;
                }
            }
            j += 1;
        }
        proof {
            assert(m.take(i + 1).drop_last() =~= m.take(i as int));
            assert(m[i as int].take(m[i as int].len() as int) =~= m[i as int]);
        }
        i += 1;
    }
    assert(m.take(m.len() as int) =~= m);
    count == 2
}

/// A copy of the grid.
pub fn copy_matrix(matrix: &Vec<Vec<CellState>>) -> (r: Vec<Vec<CellState>>)
    ensures
        grid_view(&r) == grid_view(matrix),
{
    let ghost g = grid_view(matrix);
    let mut out: Vec<Vec<CellState>> = Vec::new();
    let mut i: usize = 0;
    while i < matrix.len()
        invariant
            0 <= i <= matrix@.len(),
            g == grid_view(matrix),
            out@.len() == i,
            forall|k: int| 0 <= k < i ==> #[trigger] out@[k]@ == g[k],
        decreases matrix@.len() - i,
    {
        let mut row: Vec<CellState> = Vec::new();
        let mut j: usize = 0;
        while j < matrix[i].len()
            invariant
                0 <= i < matrix@.len(),
                0 <= j <= matrix@[i as int]@.len(),
                g == grid_view(matrix),
                row@ == g[i as int].take(j as int),
            decreases matrix@[i as int]@.len() - j,
        {
            row.push(matrix[i][j]);
            assert(row@ =~= g[i as int].take(j + 1));
            j += 1;
        }
        assert(row@ =~= g[i as int]);
        out.push(row);
        i += 1;
    }
    assert(grid_view(&out) =~= g);
    out
}

impl Automaton {
    pub open spec fn view(&self) -> AutomatonView {
        AutomatonView {
            grid: grid_view(&self.matrix),
            generation: self.generation as int,
            start: self.starting_point,
            finish: self.finishing_point,
        }
    }

    /// A rectangular, non-empty grid whose start and finish cells hold their markers
    /// (a start that is also the finish holds the Start marker).
    pub open spec fn wf(&self) -> bool {
        let g = grid_view(&self.matrix);
        &&& is_nonempty(g)
        &&& is_rectangular(g)
        &&& holds(g, self.starting_point)
        &&& cell(g, self.starting_point) == CellState::Start
        &&& holds(g, self.finishing_point)
        &&& (cell(g, self.finishing_point) == CellState::Finish || self.finishing_point
            == self.starting_point)
        &&& self.generation >= 1
    }

    /// An equal automaton with its own grid.
    pub fn duplicate(&self) -> (r: Automaton)
        ensures
            r@ == self@,
    {
        Automaton {
            matrix: copy_matrix(&self.matrix),
            generation: self.generation,
            starting_point: self.starting_point,
            finishing_point: self.finishing_point,
        }
    }

    /// Builds an automaton at generation 1; start and finish are the last cells
    /// of their kind in row-major order.
    pub fn new(pattern: Vec<Vec<CellState>>) -> (r: Result<Automaton, GridError>)
        ensures
            match r {
                Ok(a) => {
                    &&& pattern_error(grid_view(&pattern)) is None
                    &&& grid_view(&a.matrix) == grid_view(&pattern)
                    &&& a.generation == 1
                    &&& is_last_cell(grid_view(&pattern), a.starting_point, CellState::Start)
                    &&& is_last_cell(grid_view(&pattern), a.finishing_point, CellState::Finish)
                    &&& a.wf()
                },
                Err(e) => pattern_error(grid_view(&pattern)) == Some(e),
            },
    {
        let ghost g = grid_view(&pattern);
        if pattern.len() == 0 || pattern[0].len() == 0 {
            return Err(GridError::EmptyGrid);
        }
        if !rows_match(&pattern) {
            return Err(GridError::NonRectangular);
        }
        let mut starting_point: Option<Position> = None;
        let mut finishing_point: Option<Position> = None;
        let mut i: usize = 0;
        while i < pattern.len()
            invariant
                0 <= i <= pattern@.len(),
                g == grid_view(&pattern),
                scan_ok(g, starting_point, CellState::Start, i as int, 0),
                scan_ok(g, finishing_point, CellState::Finish, i as int, 0),
            decreases pattern@.len() - i,
        {
            let mut j: usize = 0;
            while j < pattern[i].len()
                invariant
                    0 <= i < pattern@.len(),
                    0 <= j <= pattern@[i as int]@.len(),
                    g == grid_view(&pattern),
                    scan_ok(g, starting_point, CellState::Start, i as int, j as int),
                    scan_ok(g, finishing_point, CellState::Finish, i as int, j as int),
                decreases pattern@[i as int]@.len() - j,
            {
                if pattern[i][j] == CellState::Start {
                    starting_point = Some((i, j));
                }
                if pattern[i][j] == CellState::Finish {
                    finishing_point = Some((i, j));
                }
                j += 1;
            }
            i += 1;
        }
        match (starting_point, finishing_point) {
            (Some(s), Some(f)) => {
                assert(has_cell(g, CellState::Start) && has_cell(g, CellState::Finish)) by {
                    assert(g[s.0 as int][s.1 as int] == CellState::Start);
                    assert(g[f.0 as int][f.1 as int] == CellState::Finish);
                }
                Ok(Automaton { matrix: pattern, generation: 1, starting_point: s, finishing_point: f })
            },
            _ => Err(GridError::MissingMarker),
        }
    }

    /// Decodes 0 as Dead, 1 as Alive, 2 as Start and 3 as Finish; any other value is
    /// read as Dead. Refused: an empty or non-rectangular matrix, a count of cells
    /// coded 2 or 3 other than two, or a grid that then lacks a start or a finish.
    pub fn from_integer_matrix(matrix: Vec<Vec<i32>>) -> (r: Result<Automaton, GridError>)
        ensures
            match r {
                Ok(a) => {
                    &&& matrix_error(grid_view(&matrix)) is None
                    &&& grid_view(&a.matrix) == decode_grid(grid_view(&matrix))
                    &&& a.generation == 1
                    &&& is_last_cell(
                        decode_grid(grid_view(&matrix)),
                        a.starting_point,
                        CellState::Start,
                    )
                    &&& is_last_cell(
                        decode_grid(grid_view(&matrix)),
                        a.finishing_point,
                        CellState::Finish,
                    )
                    &&& a.wf()
                },
                Err(e) => matrix_error(grid_view(&matrix)) == Some(e),
            },
    {
        let ghost m = grid_view(&matrix);
        if matrix.len() == 0 || matrix[0].len() == 0 {
            return Err(GridError::EmptyGrid);
        }
        if !rows_match(&matrix) {
            return Err(GridError::NonRectangular);
        }
        if !has_two_markers(&matrix) {
            return Err(GridError::MissingMarker);
        }
        let mut pattern: Vec<Vec<CellState>> = Vec::new();
        let mut i: usize = 0;
        while i < matrix.len()
            invariant
                0 <= i <= matrix@.len(),
                m == grid_view(&matrix),
                pattern@.len() == i,
                forall|k: int| 0 <= k < i ==> #[trigger] pattern@[k]@ == decode_grid(m)[k],
            decreases matrix@.len() - i,
        {
            let mut row: Vec<CellState> = Vec::new();
            let mut j: usize = 0;
            while j < matrix[i].len()
                invariant
                    0 <= i < matrix@.len(),
                    0 <= j <= matrix@[i as int]@.len(),
                    m == grid_view(&matrix),
                    row@ == Seq::new(j as nat, |jj: int| decode_cell(m[i as int][jj])),
                decreases matrix@[i as int]@.len() - j,
            {
                let c = decode(matrix[i][j]);
                row.push(c);
                assert(row@ =~= Seq::new((j + 1) as nat, |jj: int| decode_cell(m[i as int][jj])));
                j += 1;
            }
            assert(row@ =~= decode_grid(m)[i as int]);
            pattern.push(row);
            i += 1;
        }
        assert(grid_view(&pattern) =~= decode_grid(m));
        Automaton::new(pattern)
    }

    /// The inverse encoding: Dead 0, Alive 1, Start 2, Finish 3.
    pub fn to_integer_matrix(&self) -> (r: Vec<Vec<i32>>)
        ensures
            grid_view(&r) == encode_grid(grid_view(&self.matrix)),
    {
        let ghost g = grid_view(&self.matrix);
        let mut out: Vec<Vec<i32>> = Vec::new();
        let mut i: usize = 0;
        while i < self.matrix.len()
            invariant
                0 <= i <= self.matrix@.len(),
                g == grid_view(&self.matrix),
                out@.len() == i,
                forall|k: int| 0 <= k < i ==> #[trigger] out@[k]@ == encode_grid(g)[k],
            decreases self.matrix@.len() - i,
        {
            let mut row: Vec<i32> = Vec::new();
            let mut j: usize = 0;
            while j < self.matrix[i].len()
                invariant
                    0 <= i < self.matrix@.len(),
                    0 <= j <= self.matrix@[i as int]@.len(),
                    g == grid_view(&self.matrix),
                    row@ == Seq::new(j as nat, |jj: int| encode_cell(g[i as int][jj])),
                decreases self.matrix@[i as int]@.len() - j,
            {
                let v: i32 = match self.matrix[i][j] {
                    CellState::Alive => 1,
                    CellState::Dead => 0,
                    CellState::Start => 2,
                    CellState::Finish => 3,
                };
                row.push(v);
                assert(row@ =~= Seq::new((j + 1) as nat, |jj: int| encode_cell(g[i as int][jj])));
                j += 1;
            }
            assert(row@ =~= encode_grid(g)[i as int]);
            out.push(row);
            i += 1;
        }
        assert(grid_view(&out) =~= encode_grid(g));
        out
    }

    /// The number of Alive cells among the eight neighbours of a cell of the grid.
    pub fn get_number_of_alive_nighbours(&self, position: Position) -> (n: u32)
        requires
            holds(grid_view(&self.matrix), position),
        ensures
            n as int == live_neighbors(grid_view(&self.matrix), position.0 as int, position.1 as int),
    {
        count_alive_neighbours(&self.matrix, position.0, position.1)
    }

    /// The next generation, as a new automaton; start and finish stay where they are.
    pub fn iterate(&self) -> (r: Automaton)
        requires
            self.generation < u32::MAX,
        ensures
            r@ == next_view(self@),
            self.wf() ==> r.wf(),
    {
        let matrix = next_matrix(&self.matrix);
        let r = Automaton {
            matrix,
            generation: self.generation + 1,
            starting_point: self.starting_point,
            finishing_point: self.finishing_point,
        };
        proof {
            lemma_step_keeps_shape(grid_view(&self.matrix));
        }
        r
    }
}

} // verus!
