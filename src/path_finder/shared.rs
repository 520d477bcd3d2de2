use vstd::prelude::*;

use crate::automaton::{grid_view, holds, in_grid, is_rectangular, CellState, Position};

verus! {

/// Inside the grid and not Alive: a cell the mover may occupy.
pub open spec fn open_at(g: Seq<Seq<CellState>>, i: int, j: int) -> bool {
    in_grid(g, i, j) && g[i][j] != CellState::Alive
}

pub open spec fn seq_if(ok: bool, p: Position) -> Seq<Position> {
    if ok {
        seq![p]
    } else {
        Seq::empty()
    }
}

/// p and q are orthogonal neighbours.
pub open spec fn adjacent(p: Position, q: Position) -> bool {
    (p.0 == q.0 && (p.1 + 1 == q.1 || q.1 + 1 == p.1)) || (p.1 == q.1 && (p.0 + 1 == q.0 || q.0
        + 1 == p.0))
}

/// The legal moves from p, in the order left, right, down, up.
pub open spec fn dense_moves(g: Seq<Seq<CellState>>, p: Position) -> Seq<Position> {
    let i = p.0 as int;
    let j = p.1 as int;
    seq_if(j > 0 && open_at(g, i, j - 1), (p.0, (j - 1) as usize)) + seq_if(
        open_at(g, i, j + 1),
        (p.0, (j + 1) as usize),
    ) + seq_if(open_at(g, i + 1, j), ((i + 1) as usize, p.1)) + seq_if(
        i > 0 && open_at(g, i - 1, j),
        ((i - 1) as usize, p.1),
    )
}

pub open spec fn abs_diff(a: int, b: int) -> int {
    if a >= b {
        a - b
    } else {
        b - a
    }
}

pub open spec fn manhattan(p: Position, q: Position) -> int {
    abs_diff(p.0 as int, q.0 as int) + abs_diff(p.1 as int, q.1 as int)
}

/// Every move is a free orthogonal neighbour.
pub proof fn lemma_moves_are_free_neighbours(g: Seq<Seq<CellState>>, p: Position)
    requires
        is_rectangular(g),
        holds(g, p),
        p.0 < usize::MAX,
        p.1 < usize::MAX,
    ensures
        dense_moves(g, p).len() <= 4,
        forall|k: int|
            0 <= k < dense_moves(g, p).len() ==> {
                &&& open_at(g, dense_moves(g, p)[k].0 as int, dense_moves(g, p)[k].1 as int)
                &&& adjacent(p, #[trigger] dense_moves(g, p)[k])
            },
{
    let i = p.0 as int;
    let j = p.1 as int;
    let s1 = seq_if(j > 0 && open_at(g, i, j - 1), (p.0, (j - 1) as usize));
    let s2 = seq_if(open_at(g, i, j + 1), (p.0, (j + 1) as usize));
    let s3 = seq_if(open_at(g, i + 1, j), ((i + 1) as usize, p.1));
    let s4 = seq_if(i > 0 && open_at(g, i - 1, j), ((i - 1) as usize, p.1));
    let m = dense_moves(g, p);
    assert(m == s1 + s2 + s3 + s4);
    assert forall|k: int| 0 <= k < m.len() implies {
        &&& open_at(g, m[k].0 as int, m[k].1 as int)
        &&& adjacent(p, #[trigger] m[k])
    } by {
        let a = s1.len() as int;
        let b = a + s2.len();
        let c = b + s3.len();
        if k < a {
            assert(m[k] == s1[k]);
        } else if k < b {
            assert(m[k] == s2[k - a]);
        } else if k < c {
            assert(m[k] == s3[k - b]);
        } else {
            assert(m[k] == s4[k - c]);
        }
    }
}

/// Every free orthogonal neighbour of a cell is among its moves.
pub proof fn lemma_free_neighbour_is_move(g: Seq<Seq<CellState>>, p: Position, q: Position)
    requires
        is_rectangular(g),
        holds(g, p),
        adjacent(p, q),
        open_at(g, q.0 as int, q.1 as int),
    ensures
        dense_moves(g, p).contains(q),
{
    let i = p.0 as int;
    let j = p.1 as int;
    let s1 = seq_if(j > 0 && open_at(g, i, j - 1), (p.0, (j - 1) as usize));
    let s2 = seq_if(open_at(g, i, j + 1), (p.0, (j + 1) as usize));
    let s3 = seq_if(open_at(g, i + 1, j), ((i + 1) as usize, p.1));
    let s4 = seq_if(i > 0 && open_at(g, i - 1, j), ((i - 1) as usize, p.1));
    let m = dense_moves(g, p);
    assert(m == s1 + s2 + s3 + s4);
    if q.0 == p.0 && q.1 + 1 == p.1 {
        assert(m[0] == q);
    } else if q.0 == p.0 && p.1 + 1 == q.1 {
        assert(m[s1.len() as int] == q);
    } else if q.1 == p.1 && p.0 + 1 == q.0 {
        assert(m[(s1.len() + s2.len()) as int] == q);
    } else {
        assert(m[(s1.len() + s2.len() + s3.len()) as int] == q);
    }
}

/// The orthogonal neighbours of `position` that lie in the grid and are not Alive.
#[verifier::rlimit(40)]
pub fn get_possible_moves(matrix: &Vec<Vec<CellState>>, position: Position) -> (r: Vec<Position>)
    requires
        is_rectangular(grid_view(matrix)),
        holds(grid_view(matrix), position),
    ensures
        r@ == dense_moves(grid_view(matrix), position),
        r@.len() <= 4,
        forall|k: int|
            0 <= k < r@.len() ==> {
                &&& open_at(grid_view(matrix), r@[k].0 as int, r@[k].1 as int)
                &&& adjacent(position, #[trigger] r@[k])
            },
{
    let ghost g = grid_view(matrix);
    let (i, j) = position;
    let height = matrix.len();
    let width = matrix[i].len();
    proof {
        assert(g[i as int].len() == g[0].len());
        if i + 1 < height {
            assert(g[i + 1].len() == g[0].len());
        }
        if i > 0 {
            assert(g[i - 1].len() == g[0].len());
        }
    }
    let mut moves: Vec<Position> = Vec::new();
    if j > 0 && matrix[i][j - 1] != CellState::Alive {
        moves.push((i, j - 1));
    }
    if j + 1 < width && matrix[i][j + 1] != CellState::Alive {
        moves.push((i, j + 1));
    }
    if i + 1 < height && matrix[i + 1][j] != CellState::Alive {
        moves.push((i + 1, j));
    }
    if i > 0 && matrix[i - 1][j] != CellState::Alive {
        moves.push((i - 1, j));
    }
    proof {
        assert(moves@ =~= dense_moves(g, position));
    }
    moves
}

/// |Δrow| + |Δcol|.
pub fn manhattan_distance(from: Position, to: Position) -> (d: u32)
    requires
        manhattan(from, to) <= u32::MAX,
    ensures
        d as int == manhattan(from, to),
{
    let rows = if from.0 >= to.0 {
        from.0 - to.0
    } else {
        to.0 - from.0
    };
    let columns = if from.1 >= to.1 {
        from.1 - to.1
    } else {
        to.1 - from.1
    };
    (rows + columns) as u32
}

} // verus!
