//! The maze model: a grid of cells, each holding two wall flags, and the
//! connectivity that the walls leave between cells.
//!
//! `mat[i][j]` describes the cell in column `i` and row `j`. Its first flag is
//! the wall between rows `j` and `j + 1` (below the cell on screen), its
//! second flag the wall between columns `i` and `i + 1` (right of the cell).
use vstd::prelude::*;

verus! {

/// The number of columns of the maze (the outer index).
pub open spec fn columns(mat: Seq<Vec<(bool, bool)>>) -> nat {
    mat.len()
}

/// The number of rows of the maze: the length of the first column.
pub open spec fn rows(mat: Seq<Vec<(bool, bool)>>) -> nat {
    if mat.len() > 0 {
        mat[0]@.len()
    } else {
        0
    }
}

/// A maze with at least one cell, whose columns are all at least as long as
/// the first one (only that many rows are read).
pub open spec fn maze_wf(mat: Seq<Vec<(bool, bool)>>) -> bool {
    &&& mat.len() > 0
    &&& mat[0]@.len() > 0
    &&& forall|i: int| 0 <= i < mat.len() ==> #[trigger] mat[i]@.len() >= mat[0]@.len()
}

/// The cell lies in the grid.
pub open spec fn in_grid(mat: Seq<Vec<(bool, bool)>>, c: (usize, usize)) -> bool {
    c.0 < columns(mat) && c.1 < rows(mat)
}

/// The wall below cell `(i, j)`, between rows `j` and `j + 1`.
pub open spec fn wall_below(mat: Seq<Vec<(bool, bool)>>, i: int, j: int) -> bool {
    mat[i]@[j].0
}

/// The wall right of cell `(i, j)`, between columns `i` and `i + 1`.
pub open spec fn wall_right(mat: Seq<Vec<(bool, bool)>>, i: int, j: int) -> bool {
    mat[i]@[j].1
}

/// `a` and `b` are neighbouring cells of the grid with no wall between them.
pub open spec fn open_step(mat: Seq<Vec<(bool, bool)>>, a: (usize, usize), b: (usize, usize)) -> bool {
    &&& in_grid(mat, a)
    &&& in_grid(mat, b)
    &&& {
        ||| (b.0 == a.0 + 1 && b.1 == a.1 && !wall_right(mat, a.0 as int, a.1 as int))
        ||| (a.0 == b.0 + 1 && a.1 == b.1 && !wall_right(mat, b.0 as int, b.1 as int))
        ||| (b.1 == a.1 + 1 && b.0 == a.0 && !wall_below(mat, a.0 as int, a.1 as int))
        ||| (a.1 == b.1 + 1 && a.0 == b.0 && !wall_below(mat, b.0 as int, b.1 as int))
    }
}

/// The step from position `k` to position `k + 1` of `p` is open.
pub open spec fn step_at(mat: Seq<Vec<(bool, bool)>>, p: Seq<(usize, usize)>, k: int) -> bool {
    open_step(mat, p[k], p[k + 1])
}

/// `p` is a walk through the maze: a non-empty sequence of cells of the grid,
/// each an open step away from the one before.
pub open spec fn is_path(mat: Seq<Vec<(bool, bool)>>, p: Seq<(usize, usize)>) -> bool {
    &&& p.len() > 0
    &&& forall|k: int| 0 <= k < p.len() ==> in_grid(mat, #[trigger] p[k])
    &&& forall|k: int| 0 <= k < p.len() - 1 ==> #[trigger] step_at(mat, p, k)
}

/// A walk through the maze leads from `a` to `b`.
pub open spec fn connected(mat: Seq<Vec<(bool, bool)>>, a: (usize, usize), b: (usize, usize)) -> bool {
    exists|p: Seq<(usize, usize)>| #[trigger] is_path(mat, p) && p[0] == a && p.last() == b
}

/// Every cell of the grid reaches itself.
pub proof fn lemma_connected_refl(mat: Seq<Vec<(bool, bool)>>, a: (usize, usize))
    requires
        in_grid(mat, a),
    ensures
        connected(mat, a, a),
{
    let p = seq![a];
    assert(is_path(mat, p));
}

/// A walk to `b` followed by an open step to `c` is a walk to `c`.
pub proof fn lemma_connected_step(
    mat: Seq<Vec<(bool, bool)>>,
    a: (usize, usize),
    b: (usize, usize),
    c: (usize, usize),
)
    requires
        connected(mat, a, b),
        open_step(mat, b, c),
    ensures
        connected(mat, a, c),
{
    let p = choose|p: Seq<(usize, usize)>| #[trigger] is_path(mat, p) && p[0] == a && p.last() == b;
    let q = p.push(c);
    assert forall|k: int| 0 <= k < q.len() implies in_grid(mat, #[trigger] q[k]) by {
        if k < p.len() {
            assert(q[k] == p[k]);
        }
    }
    assert forall|k: int| 0 <= k < q.len() - 1 implies #[trigger] step_at(mat, q, k) by {
        if k < p.len() - 1 {
            assert(step_at(mat, p, k));
        }
    }
    assert(is_path(mat, q));
    assert(q[0] == a && q.last() == c);
}

/// Open steps go both ways.
pub proof fn lemma_open_step_symmetric(mat: Seq<Vec<(bool, bool)>>, a: (usize, usize), b: (usize, usize))
    ensures
        open_step(mat, a, b) == open_step(mat, b, a),
{
}

/// A walk from `a` to `b` read backwards is a walk from `b` to `a`.
pub proof fn lemma_connected_symmetric(mat: Seq<Vec<(bool, bool)>>, a: (usize, usize), b: (usize, usize))
    requires
        connected(mat, a, b),
    ensures
        connected(mat, b, a),
{
    let p = choose|p: Seq<(usize, usize)>| #[trigger] is_path(mat, p) && p[0] == a && p.last() == b;
    let n = p.len() as int;
    let q = Seq::new(p.len(), |k: int| p[n - 1 - k]);
    assert forall|k: int| 0 <= k < q.len() implies in_grid(mat, #[trigger] q[k]) by {
        assert(in_grid(mat, p[n - 1 - k]));
    }
    assert forall|k: int| 0 <= k < q.len() - 1 implies #[trigger] step_at(mat, q, k) by {
        assert(step_at(mat, p, n - 2 - k));
        lemma_open_step_symmetric(mat, p[n - 2 - k], p[n - 1 - k]);
    }
    assert(is_path(mat, q));
    assert(q[0] == b && q.last() == a);
}

/// Walks join: a walk from `a` to `b` and one from `b` to `c` make one from
/// `a` to `c`.
pub proof fn lemma_connected_transitive(
    mat: Seq<Vec<(bool, bool)>>,
    a: (usize, usize),
    b: (usize, usize),
    c: (usize, usize),
)
    requires
        connected(mat, a, b),
        connected(mat, b, c),
    ensures
        connected(mat, a, c),
{
    let p = choose|p: Seq<(usize, usize)>| #[trigger] is_path(mat, p) && p[0] == a && p.last() == b;
    let r = choose|r: Seq<(usize, usize)>| #[trigger] is_path(mat, r) && r[0] == b && r.last() == c;
    let np = p.len() as int;
    let q = p + r.subrange(1, r.len() as int);
    assert forall|k: int| 0 <= k < q.len() implies in_grid(mat, #[trigger] q[k]) by {
        if k < np {
            assert(q[k] == p[k]);
        } else {
            assert(q[k] == r[k - np + 1]);
        }
    }
    assert forall|k: int| 0 <= k < q.len() - 1 implies #[trigger] step_at(mat, q, k) by {
        if k < np - 1 {
            assert(step_at(mat, p, k));
        } else if k == np - 1 {
            assert(q[k] == p[np - 1]);
            assert(q[k + 1] == r[1]);
            assert(step_at(mat, r, 0));
        } else {
            assert(q[k] == r[k - np + 1]);
            assert(q[k + 1] == r[k - np + 2]);
            assert(step_at(mat, r, k - np + 1));
        }
    }
    assert(is_path(mat, q));
    if r.len() == 1 {
        assert(q =~= p);
    }
    assert(q.last() == c);
}

} // verus!
