//! The connected regions of a maze, found by breadth-first search, their
//! sizes, the largest one, and the squares picked from it for the tanks.
use vstd::prelude::*;
use std::collections::VecDeque;
use rand::rngs::ThreadRng;
use crate::rng::random_below;
use crate::maze::{
    columns, connected, in_grid, is_path, lemma_connected_step, lemma_connected_symmetric,
    lemma_connected_transitive, lemma_connected_refl, lemma_open_step_symmetric, maze_wf, open_step, rows, step_at,
};

verus! {

/// The flag stored for cell `c` in a grid of flags.
pub open spec fn vis_at(vis: Seq<Vec<bool>>, c: (usize, usize)) -> bool {
    vis[c.0 as int]@[c.1 as int]
}

/// The region number stored for cell `c`.
pub open spec fn label_at(lab: Seq<Vec<usize>>, c: (usize, usize)) -> usize {
    lab[c.0 as int]@[c.1 as int]
}

/// The order in which the search visits the cells of the grid: by column,
/// then by row.
pub open spec fn scan_before(a: (usize, usize), b: (usize, usize)) -> bool {
    a.0 < b.0 || (a.0 == b.0 && a.1 < b.1)
}

/// A grid of values with one entry per cell of the maze.
pub open spec fn grid_shaped<T>(mat: Seq<Vec<(bool, bool)>>, g: Seq<Vec<T>>) -> bool {
    &&& g.len() == columns(mat)
    &&& forall|i: int| 0 <= i < g.len() ==> #[trigger] g[i]@.len() == rows(mat)
}

/// Every open step joins two cells with the same region number.
pub open spec fn labels_closed(mat: Seq<Vec<(bool, bool)>>, lab: Seq<Vec<usize>>) -> bool {
    forall|c: (usize, usize), d: (usize, usize)| #[trigger]
        open_step(mat, c, d) ==> label_at(lab, c) == label_at(lab, d)
}

/// `lab` numbers the connected regions of the maze and `seeds[k]` is the
/// first cell of region `k` in scan order; the regions are numbered in the
/// order of their first cells.
pub open spec fn regions_spec(
    mat: Seq<Vec<(bool, bool)>>,
    lab: Seq<Vec<usize>>,
    seeds: Seq<(usize, usize)>,
) -> bool {
    &&& grid_shaped(mat, lab)
    &&& forall|c: (usize, usize)| in_grid(mat, c) ==> #[trigger] label_at(lab, c) < seeds.len()
    &&& forall|k: int|
        0 <= k < seeds.len() ==> in_grid(mat, #[trigger] seeds[k]) && label_at(lab, seeds[k]) == k
    &&& forall|c: (usize, usize)|
        in_grid(mat, c) ==> !scan_before(c, seeds[#[trigger] label_at(lab, c) as int])
    &&& forall|k1: int, k2: int|
        0 <= k1 < k2 < seeds.len() ==> scan_before(#[trigger] seeds[k1], #[trigger] seeds[k2])
    &&& forall|a: (usize, usize), b: (usize, usize)|
        in_grid(mat, a) && in_grid(mat, b) ==> (label_at(lab, a) == label_at(lab, b)
            <==> #[trigger] connected(mat, a, b))
}

/// The cells of column `i` among its first `n` rows that carry region number
/// `k`, in row order.
pub open spec fn column_cells(col: Seq<usize>, i: usize, k: usize, n: nat) -> Seq<(usize, usize)>
    decreases n,
{
    if n == 0 {
        seq![]
    } else {
        column_cells(col, i, k, (n - 1) as nat) + if col[n - 1] == k {
            seq![(i, (n - 1) as usize)]
        } else {
            seq![]
        }
    }
}

/// The cells of the first `m` columns (each of `n` rows) that carry region
/// number `k`, in scan order.
pub open spec fn region_cells_upto(lab: Seq<Vec<usize>>, k: usize, m: nat, n: nat) -> Seq<(usize, usize)>
    decreases m,
{
    if m == 0 {
        seq![]
    } else {
        region_cells_upto(lab, k, (m - 1) as nat, n) + column_cells(lab[m - 1]@, (m - 1) as usize, k, n)
    }
}

/// The number of rows of a grid of region numbers.
pub open spec fn label_rows(lab: Seq<Vec<usize>>) -> nat {
    if lab.len() > 0 {
        lab[0]@.len()
    } else {
        0
    }
}

/// The cells of region `k`, in scan order.
pub open spec fn region_cells(lab: Seq<Vec<usize>>, k: usize) -> Seq<(usize, usize)> {
    region_cells_upto(lab, k, lab.len(), label_rows(lab))
}

/// All columns of the grid have the same length.
pub open spec fn labels_rect(lab: Seq<Vec<usize>>) -> bool {
    forall|i: int| 0 <= i < lab.len() ==> #[trigger] lab[i]@.len() == label_rows(lab)
}

/// `b` is the first of the `n` regions with the greatest number of cells.
pub open spec fn first_largest(lab: Seq<Vec<usize>>, n: nat, b: usize) -> bool {
    &&& b < n
    &&& forall|k: usize| k < n ==> #[trigger] region_cells(lab, k).len() <= region_cells(lab, b).len()
    &&& forall|k: usize| k < b ==> #[trigger] region_cells(lab, k).len() < region_cells(lab, b).len()
}

/// The regions of a maze: the region number of each cell, the first cell of
/// each region, the number of cells of each region, and the first largest
/// region.
pub struct Regions {
    pub labels: Vec<Vec<usize>>,
    pub seeds: Vec<(usize, usize)>,
    pub sizes: Vec<usize>,
    pub best: usize,
}

/// `r` describes the regions of `mat`.
pub open spec fn regions_of(mat: Seq<Vec<(bool, bool)>>, r: Regions) -> bool {
    &&& regions_spec(mat, r.labels@, r.seeds@)
    &&& r.sizes@.len() == r.seeds@.len()
    &&& forall|k: int|
        0 <= k < r.sizes@.len() ==> #[trigger] r.sizes@[k] == region_cells(r.labels@, k as usize).len()
    &&& first_largest(r.labels@, r.seeds@.len(), r.best)
}

// ---------------------------------------------------------------------------
// The invariant of the search.
spec fn bfs_inv(
    mat: Seq<Vec<(bool, bool)>>,
    vis: Seq<Vec<bool>>,
    lab: Seq<Vec<usize>>,
    queue: Seq<(usize, usize)>,
    seeds: Seq<(usize, usize)>,
    unvisited: Set<(usize, usize)>,
    scan: (usize, usize),
    pending: Option<(usize, usize)>,
) -> bool {
    &&& grid_shaped(mat, vis)
    &&& grid_shaped(mat, lab)
    &&& unvisited.finite()
    &&& forall|c: (usize, usize)| #[trigger]
        unvisited.contains(c) <==> (in_grid(mat, c) && !vis_at(vis, c))
    &&& forall|c: (usize, usize)|
        in_grid(mat, c) && #[trigger] vis_at(vis, c) ==> {
            &&& label_at(lab, c) < seeds.len()
            &&& connected(mat, seeds[label_at(lab, c) as int], c)
            &&& !scan_before(c, seeds[label_at(lab, c) as int])
        }
    &&& forall|k: int|
        0 <= k < seeds.len() ==> {
            &&& in_grid(mat, #[trigger] seeds[k])
            &&& vis_at(vis, seeds[k])
            &&& label_at(lab, seeds[k]) == k
            &&& !scan_before(scan, seeds[k])
        }
    &&& forall|k1: int, k2: int|
        0 <= k1 < k2 < seeds.len() ==> scan_before(#[trigger] seeds[k1], #[trigger] seeds[k2])
    &&& forall|k: int|
        0 <= k < queue.len() ==> {
            &&& in_grid(mat, #[trigger] queue[k])
            &&& vis_at(vis, queue[k])
            &&& label_at(lab, queue[k]) == seeds.len() - 1
        }
    &&& forall|c: (usize, usize), d: (usize, usize)|
        #[trigger] open_step(mat, c, d) && vis_at(vis, c) && !queue.contains(c) && pending != Some(c)
            ==> vis_at(vis, d) && label_at(lab, d) == label_at(lab, c)
    &&& forall|c: (usize, usize)|
        #![trigger vis_at(vis, c)]
        in_grid(mat, c) && scan_before(c, scan) ==> vis_at(vis, c)
}

/// Marking an unvisited cell of the current region keeps the invariant.
proof fn lemma_visit(
    mat: Seq<Vec<(bool, bool)>>,
    vis: Seq<Vec<bool>>,
    lab: Seq<Vec<usize>>,
    queue: Seq<(usize, usize)>,
    seeds: Seq<(usize, usize)>,
    unvisited: Set<(usize, usize)>,
    scan: (usize, usize),
    pending: Option<(usize, usize)>,
    d: (usize, usize),
    vis2: Seq<Vec<bool>>,
    lab2: Seq<Vec<usize>>,
)
    requires
        bfs_inv(mat, vis, lab, queue, seeds, unvisited, scan, pending),
        seeds.len() > 0,
        seeds.last() == scan,
        in_grid(mat, d),
        !vis_at(vis, d),
        connected(mat, scan, d),
        grid_shaped(mat, vis2),
        grid_shaped(mat, lab2),
        forall|c: (usize, usize)| in_grid(mat, c) ==> #[trigger] vis_at(vis2, c) == (c == d || vis_at(vis, c)),
        forall|c: (usize, usize)|
            in_grid(mat, c) ==> #[trigger] label_at(lab2, c) == if c == d {
                (seeds.len() - 1) as usize
            } else {
                label_at(lab, c)
            },
    ensures
        bfs_inv(mat, vis2, lab2, queue.push(d), seeds, unvisited.remove(d), scan, pending),
        unvisited.contains(d),
        unvisited.remove(d).len() == unvisited.len() - 1,
{
    let q2 = queue.push(d);
    let u2 = unvisited.remove(d);
    assert(unvisited.contains(d));
    assert forall|c: (usize, usize)| #[trigger] u2.contains(c) <==> (in_grid(mat, c) && !vis_at(vis2, c)) by {
        if in_grid(mat, c) {
            assert(vis_at(vis2, c) == (c == d || vis_at(vis, c)));
        }
    }
    assert forall|c: (usize, usize)| in_grid(mat, c) && #[trigger] vis_at(vis2, c) implies {
        &&& label_at(lab2, c) < seeds.len()
        &&& connected(mat, seeds[label_at(lab2, c) as int], c)
        &&& !scan_before(c, seeds[label_at(lab2, c) as int])
    } by {
        if c == d {
            assert(label_at(lab2, c) == seeds.len() - 1);
            assert(!vis_at(vis, d));
            if scan_before(d, scan) {
                assert(vis_at(vis, d));
            }
        } else {
            assert(vis_at(vis, c));
            assert(label_at(lab2, c) == label_at(lab, c));
        }
    }
    assert forall|k: int| 0 <= k < seeds.len() implies {
        &&& in_grid(mat, #[trigger] seeds[k])
        &&& vis_at(vis2, seeds[k])
        &&& label_at(lab2, seeds[k]) == k
        &&& !scan_before(scan, seeds[k])
    } by {
        assert(vis_at(vis, seeds[k]));
        assert(seeds[k] != d);
        assert(vis_at(vis2, seeds[k]));
        assert(label_at(lab2, seeds[k]) == label_at(lab, seeds[k]));
    }
    assert forall|k: int| 0 <= k < q2.len() implies {
        &&& in_grid(mat, #[trigger] q2[k])
        &&& vis_at(vis2, q2[k])
        &&& label_at(lab2, q2[k]) == seeds.len() - 1
    } by {
        if k < queue.len() {
            assert(q2[k] == queue[k]);
            assert(vis_at(vis, queue[k]));
            assert(queue[k] != d);
            assert(vis_at(vis2, queue[k]));
            assert(label_at(lab2, queue[k]) == label_at(lab, queue[k]));
        } else {
            assert(q2[k] == d);
        }
    }
    assert forall|c: (usize, usize), e: (usize, usize)|
        #[trigger] open_step(mat, c, e) && vis_at(vis2, c) && !q2.contains(c) && pending != Some(c)
        implies vis_at(vis2, e) && label_at(lab2, e) == label_at(lab2, c) by {
        assert(c != d) by {
            if c == d {
                assert(q2[q2.len() - 1] == d);
            }
        }
        assert(vis_at(vis, c));
        assert(!queue.contains(c)) by {
            if queue.contains(c) {
                let k = choose|k: int| 0 <= k < queue.len() && queue[k] == c;
                assert(q2[k] == c);
            }
        }
        assert(vis_at(vis, e) && label_at(lab, e) == label_at(lab, c));
        assert(e != d);
    }
    assert forall|c: (usize, usize)| #![trigger vis_at(vis2, c)]
        in_grid(mat, c) && scan_before(c, scan) implies vis_at(vis2, c) by {
        assert(vis_at(vis, c));
    }
}

/// Starting a new region at an unvisited cell keeps the invariant.
proof fn lemma_start(
    mat: Seq<Vec<(bool, bool)>>,
    vis: Seq<Vec<bool>>,
    lab: Seq<Vec<usize>>,
    seeds: Seq<(usize, usize)>,
    unvisited: Set<(usize, usize)>,
    seed: (usize, usize),
    vis2: Seq<Vec<bool>>,
    lab2: Seq<Vec<usize>>,
)
    requires
        bfs_inv(mat, vis, lab, seq![], seeds, unvisited, seed, None),
        seeds.len() <= usize::MAX,
        in_grid(mat, seed),
        !vis_at(vis, seed),
        grid_shaped(mat, vis2),
        grid_shaped(mat, lab2),
        forall|c: (usize, usize)|
            in_grid(mat, c) ==> #[trigger] vis_at(vis2, c) == (c == seed || vis_at(vis, c)),
        forall|c: (usize, usize)|
            in_grid(mat, c) ==> #[trigger] label_at(lab2, c) == if c == seed {
                seeds.len() as usize
            } else {
                label_at(lab, c)
            },
    ensures
        bfs_inv(mat, vis2, lab2, seq![seed], seeds.push(seed), unvisited.remove(seed), seed, None),
        unvisited.contains(seed),
        unvisited.remove(seed).len() == unvisited.len() - 1,
{
    let s2 = seeds.push(seed);
    let q2 = seq![seed];
    let u2 = unvisited.remove(seed);
    assert(unvisited.contains(seed));
    assert forall|c: (usize, usize)| #[trigger] u2.contains(c) <==> (in_grid(mat, c) && !vis_at(vis2, c)) by {
        if in_grid(mat, c) {
            assert(vis_at(vis2, c) == (c == seed || vis_at(vis, c)));
        }
    }
    assert forall|c: (usize, usize)| in_grid(mat, c) && #[trigger] vis_at(vis2, c) implies {
        &&& label_at(lab2, c) < s2.len()
        &&& connected(mat, s2[label_at(lab2, c) as int], c)
        &&& !scan_before(c, s2[label_at(lab2, c) as int])
    } by {
        if c == seed {
            lemma_connected_refl(mat, seed);
        } else {
            assert(vis_at(vis, c));
            assert(label_at(lab2, c) == label_at(lab, c));
            assert(s2[label_at(lab, c) as int] == seeds[label_at(lab, c) as int]);
        }
    }
    assert forall|k: int| 0 <= k < s2.len() implies {
        &&& in_grid(mat, #[trigger] s2[k])
        &&& vis_at(vis2, s2[k])
        &&& label_at(lab2, s2[k]) == k
        &&& !scan_before(seed, s2[k])
    } by {
        if k < seeds.len() {
            assert(s2[k] == seeds[k]);
            assert(vis_at(vis, seeds[k]));
            assert(seeds[k] != seed);
            assert(vis_at(vis2, seeds[k]));
            assert(label_at(lab2, seeds[k]) == label_at(lab, seeds[k]));
        } else {
            assert(s2[k] == seed);
            assert(vis_at(vis2, seed));
        }
    }
    assert forall|k1: int, k2: int| 0 <= k1 < k2 < s2.len() implies scan_before(
        #[trigger] s2[k1],
        #[trigger] s2[k2],
    ) by {
        assert(s2[k1] == seeds[k1]);
        assert(vis_at(vis, seeds[k1]));
        if k2 < seeds.len() {
            assert(s2[k2] == seeds[k2]);
        } else {
            assert(seeds[k1] != seed);
            assert(!scan_before(seed, seeds[k1]));
        }
    }
    assert forall|k: int| 0 <= k < q2.len() implies {
        &&& in_grid(mat, #[trigger] q2[k])
        &&& vis_at(vis2, q2[k])
        &&& label_at(lab2, q2[k]) == s2.len() - 1
    } by {
        assert(q2[k] == seed);
    }
    assert forall|c: (usize, usize), e: (usize, usize)|
        #[trigger] open_step(mat, c, e) && vis_at(vis2, c) && !q2.contains(c) && None::<(usize, usize)> != Some(c)
        implies vis_at(vis2, e) && label_at(lab2, e) == label_at(lab2, c) by {
        assert(c != seed) by {
            if c == seed {
                assert(q2[0] == seed);
            }
        }
        assert(vis_at(vis, c));
        assert(!seq![].contains(c));
        assert(vis_at(vis, e) && label_at(lab, e) == label_at(lab, c));
        assert(e != seed);
    }
    assert forall|c: (usize, usize)| #![trigger vis_at(vis2, c)]
        in_grid(mat, c) && scan_before(c, seed) implies vis_at(vis2, c) by {
        assert(vis_at(vis, c));
    }
}

/// Taking the first cell off the queue keeps the invariant, with that cell
/// awaiting its neighbours.
proof fn lemma_pop(
    mat: Seq<Vec<(bool, bool)>>,
    vis: Seq<Vec<bool>>,
    lab: Seq<Vec<usize>>,
    queue: Seq<(usize, usize)>,
    seeds: Seq<(usize, usize)>,
    unvisited: Set<(usize, usize)>,
    scan: (usize, usize),
)
    requires
        bfs_inv(mat, vis, lab, queue, seeds, unvisited, scan, None),
        queue.len() > 0,
    ensures
        bfs_inv(
            mat,
            vis,
            lab,
            queue.subrange(1, queue.len() as int),
            seeds,
            unvisited,
            scan,
            Some(queue[0]),
        ),
{
    let q2 = queue.subrange(1, queue.len() as int);
    assert forall|k: int| 0 <= k < q2.len() implies {
        &&& in_grid(mat, #[trigger] q2[k])
        &&& vis_at(vis, q2[k])
        &&& label_at(lab, q2[k]) == seeds.len() - 1
    } by {
        assert(q2[k] == queue[k + 1]);
    }
    assert forall|c: (usize, usize), e: (usize, usize)|
        #[trigger] open_step(mat, c, e) && vis_at(vis, c) && !q2.contains(c) && Some(queue[0]) != Some(c)
        implies vis_at(vis, e) && label_at(lab, e) == label_at(lab, c) by {
        assert(!queue.contains(c)) by {
            if queue.contains(c) {
                let k = choose|k: int| 0 <= k < queue.len() && queue[k] == c;
                assert(k != 0);
                assert(q2[k - 1] == c);
            }
        }
    }
}

/// A visited neighbour of the cell being expanded is in the current region.
proof fn lemma_neighbor_label(
    mat: Seq<Vec<(bool, bool)>>,
    vis: Seq<Vec<bool>>,
    lab: Seq<Vec<usize>>,
    queue: Seq<(usize, usize)>,
    seeds: Seq<(usize, usize)>,
    unvisited: Set<(usize, usize)>,
    scan: (usize, usize),
    c: (usize, usize),
    d: (usize, usize),
)
    requires
        bfs_inv(mat, vis, lab, queue, seeds, unvisited, scan, Some(c)),
        vis_at(vis, c),
        label_at(lab, c) == seeds.len() - 1,
        open_step(mat, c, d),
        vis_at(vis, d),
    ensures
        label_at(lab, d) == label_at(lab, c),
{
    if queue.contains(d) {
        let k = choose|k: int| 0 <= k < queue.len() && queue[k] == d;
        assert(label_at(lab, queue[k]) == seeds.len() - 1);
    } else {
        lemma_open_step_symmetric(mat, c, d);
        assert(open_step(mat, d, c));
        assert(d != c);
    }
}

/// Once the queue is empty, the expanded cell is done.
proof fn lemma_close(
    mat: Seq<Vec<(bool, bool)>>,
    vis: Seq<Vec<bool>>,
    lab: Seq<Vec<usize>>,
    queue: Seq<(usize, usize)>,
    seeds: Seq<(usize, usize)>,
    unvisited: Set<(usize, usize)>,
    scan: (usize, usize),
    c: (usize, usize),
)
    requires
        bfs_inv(mat, vis, lab, queue, seeds, unvisited, scan, Some(c)),
        forall|d: (usize, usize)|
            #[trigger] open_step(mat, c, d) ==> vis_at(vis, d) && label_at(lab, d) == label_at(lab, c),
    ensures
        bfs_inv(mat, vis, lab, queue, seeds, unvisited, scan, None),
{
}

/// Along a walk, closed region numbers do not change.
proof fn lemma_path_label(mat: Seq<Vec<(bool, bool)>>, lab: Seq<Vec<usize>>, p: Seq<(usize, usize)>)
    requires
        labels_closed(mat, lab),
        is_path(mat, p),
    ensures
        label_at(lab, p[0]) == label_at(lab, p.last()),
    decreases p.len(),
{
    if p.len() > 1 {
        let q = p.drop_last();
        assert forall|k: int| 0 <= k < q.len() - 1 implies #[trigger] step_at(mat, q, k) by {
            assert(step_at(mat, p, k));
        }
        assert forall|k: int| 0 <= k < q.len() implies in_grid(mat, #[trigger] q[k]) by {
            assert(in_grid(mat, p[k]));
        }
        lemma_path_label(mat, lab, q);
        assert(step_at(mat, p, p.len() - 2));
        assert(open_step(mat, p[p.len() - 2], p[p.len() - 1]));
    }
}

/// When the search is over, the region numbers describe the regions.
proof fn lemma_search_done(
    mat: Seq<Vec<(bool, bool)>>,
    vis: Seq<Vec<bool>>,
    lab: Seq<Vec<usize>>,
    seeds: Seq<(usize, usize)>,
    unvisited: Set<(usize, usize)>,
)
    requires
        maze_wf(mat),
        columns(mat) <= usize::MAX,
        bfs_inv(mat, vis, lab, seq![], seeds, unvisited, (columns(mat) as usize, 0usize), None),
    ensures
        regions_spec(mat, lab, seeds),
{
    let scan = (columns(mat) as usize, 0usize);
    assert forall|c: (usize, usize)| in_grid(mat, c) implies #[trigger] vis_at(vis, c) by {
        assert(scan_before(c, scan));
    }
    assert(labels_closed(mat, lab)) by {
        assert forall|c: (usize, usize), d: (usize, usize)| #[trigger]
            open_step(mat, c, d) implies label_at(lab, c) == label_at(lab, d) by {
            assert(vis_at(vis, c));
            assert(!seq![].contains(c));
        }
    }
    assert forall|c: (usize, usize)| in_grid(mat, c) implies #[trigger] label_at(lab, c) < seeds.len() by {
        assert(vis_at(vis, c));
    }
    assert forall|c: (usize, usize)|
        in_grid(mat, c) implies !scan_before(c, seeds[#[trigger] label_at(lab, c) as int]) by {
        assert(vis_at(vis, c));
    }
    assert forall|a: (usize, usize), b: (usize, usize)| in_grid(mat, a) && in_grid(mat, b) implies (
    label_at(lab, a) == label_at(lab, b) <==> #[trigger] connected(mat, a, b)) by {
        assert(vis_at(vis, a));
        assert(vis_at(vis, b));
        if connected(mat, a, b) {
            let p = choose|p: Seq<(usize, usize)>| #[trigger] is_path(mat, p) && p[0] == a && p.last() == b;
            lemma_path_label(mat, lab, p);
        }
        if label_at(lab, a) == label_at(lab, b) {
            let s = seeds[label_at(lab, a) as int];
            lemma_connected_symmetric(mat, s, a);
            lemma_connected_transitive(mat, a, s, b);
        }
    }
}

// ---------------------------------------------------------------------------
// Executable part.

/// Marks cell `d` as visited with region number `label`.
fn mark(
    visited: &mut Vec<Vec<bool>>,
    labels: &mut Vec<Vec<usize>>,
    d: (usize, usize),
    label: usize,
    Ghost(mat): Ghost<Seq<Vec<(bool, bool)>>>,
)
    requires
        grid_shaped(mat, old(visited)@),
        grid_shaped(mat, old(labels)@),
        in_grid(mat, d),
    ensures
        grid_shaped(mat, final(visited)@),
        grid_shaped(mat, final(labels)@),
        forall|c: (usize, usize)|
            in_grid(mat, c) ==> #[trigger] vis_at(final(visited)@, c) == (c == d || vis_at(old(visited)@, c)),
        forall|c: (usize, usize)|
            in_grid(mat, c) ==> #[trigger] label_at(final(labels)@, c) == if c == d {
                label
            } else {
                label_at(old(labels)@, c)
            },
{
    let ghost v0 = visited@;
    let ghost l0 = labels@;
    assert(visited@[d.0 as int]@.len() == rows(mat));
    assert(labels@[d.0 as int]@.len() == rows(mat));
    visited[d.0][d.1] = true;
    labels[d.0][d.1] = label;
    assert forall|i: int| 0 <= i < visited@.len() implies #[trigger] visited@[i]@.len() == rows(mat) by {
        if i != d.0 {
            assert(visited@[i] == v0[i]);
        }
    }
    assert forall|i: int| 0 <= i < labels@.len() implies #[trigger] labels@[i]@.len() == rows(mat) by {
        if i != d.0 {
            assert(labels@[i] == l0[i]);
        }
    }
    assert forall|c: (usize, usize)| in_grid(mat, c) implies #[trigger] vis_at(visited@, c) == (c == d
        || vis_at(v0, c)) by {
        if c.0 != d.0 {
            assert(visited@[c.0 as int] == v0[c.0 as int]);
        }
    }
    assert forall|c: (usize, usize)| in_grid(mat, c) implies #[trigger] label_at(labels@, c) == if c == d {
        label
    } else {
        label_at(l0, c)
    } by {
        if c.0 != d.0 {
            assert(labels@[c.0 as int] == l0[c.0 as int]);
        }
    }
}

/// Numbers the connected regions of the maze by breadth-first search from
/// each cell not yet reached, in scan order, and gives each region's first
/// cell.
fn label_regions(wall_mat: &Vec<Vec<(bool, bool)>>) -> (res: (Vec<Vec<usize>>, Vec<(usize, usize)>))
    requires
        maze_wf(wall_mat@),
    ensures
        regions_spec(wall_mat@, res.0@, res.1@),
{
    let ghost mat = wall_mat@;
    let ncols = wall_mat.len();
    let nrows = wall_mat[0].len();
    let mut visited: Vec<Vec<bool>> = Vec::new();
    let mut labels: Vec<Vec<usize>> = Vec::new();
    let ghost mut unvisited: Set<(usize, usize)> = Set::empty();
    let mut i: usize = 0;
    while i < ncols
        invariant
            ncols == columns(mat),
            nrows == rows(mat),
            i <= ncols,
            visited@.len() == i,
            labels@.len() == i,
            forall|x: int| 0 <= x < i ==> #[trigger] visited@[x]@.len() == nrows,
            forall|x: int| 0 <= x < i ==> #[trigger] labels@[x]@.len() == nrows,
            forall|c: (usize, usize)| c.0 < i && c.1 < nrows ==> !#[trigger] vis_at(visited@, c),
            unvisited.finite(),
            forall|c: (usize, usize)| #[trigger] unvisited.contains(c) <==> (c.0 < i && c.1 < nrows),
        decreases ncols - i,
    {
        let mut vrow: Vec<bool> = Vec::new();
        let mut lrow: Vec<usize> = Vec::new();
        let mut j: usize = 0;
        while j < nrows
            invariant
                j <= nrows,
                vrow@.len() == j,
                lrow@.len() == j,
                forall|y: int| 0 <= y < j ==> !#[trigger] vrow@[y],
                unvisited.finite(),
                forall|c: (usize, usize)| #[trigger]
                    unvisited.contains(c) <==> (c.0 < i && c.1 < nrows) || (c.0 == i && c.1 < j),
            decreases nrows - j,
        {
            vrow.push(false);
            lrow.push(0);
            proof {
                unvisited = unvisited.insert((i, j));
            }
            j = j + 1;
        }
        let ghost vold = visited@;
        visited.push(vrow);
        labels.push(lrow);
        proof {
            assert forall|c: (usize, usize)| c.0 < i + 1 && c.1 < nrows implies !#[trigger] vis_at(
                visited@,
                c,
            ) by {
                if c.0 == i {
                    assert(visited@[c.0 as int] == vrow);
                } else {
                    assert(visited@[c.0 as int] == vold[c.0 as int]);
                    assert(!vis_at(vold, c));
                }
            }
        }
        i = i + 1;
    }
    let mut queue: VecDeque<(usize, usize)> = VecDeque::new();
    let mut seeds: Vec<(usize, usize)> = Vec::new();
    assert(bfs_inv(mat, visited@, labels@, queue@, seeds@, unvisited, (0usize, 0usize), None));
    let mut i: usize = 0;
    while i < ncols
        invariant
            maze_wf(mat),
            mat == wall_mat@,
            ncols == columns(mat),
            nrows == rows(mat),
            i <= ncols,
            queue@.len() == 0,
            bfs_inv(mat, visited@, labels@, queue@, seeds@, unvisited, (i, 0usize), None),
        decreases ncols - i,
    {
        let mut j: usize = 0;
        while j < nrows
            invariant
                maze_wf(mat),
                mat == wall_mat@,
                ncols == columns(mat),
                nrows == rows(mat),
                i < ncols,
                j <= nrows,
                queue@.len() == 0,
                bfs_inv(mat, visited@, labels@, queue@, seeds@, unvisited, (i, j), None),
            decreases nrows - j,
        {
            if !visited[i][j] {
                let seed = (i, j);
                let cur = seeds.len();
                let ghost v0 = visited@;
                let ghost l0 = labels@;
                let ghost s0 = seeds@;
                proof {
                    assert(vis_at(v0, seed) == visited@[i as int]@[j as int]);
                    assert(queue@ =~= seq![]);
                }
                seeds.push(seed);
                mark(&mut visited, &mut labels, seed, cur, Ghost(mat));
                queue.push_back(seed);
                proof {
                    assert(queue@ =~= seq![seed]);
                    lemma_start(mat, v0, l0, s0, unvisited, seed, visited@, labels@);
                    unvisited = unvisited.remove(seed);
                }
                while queue.len() > 0
                    invariant
                        maze_wf(mat),
                        mat == wall_mat@,
                        ncols == columns(mat),
                        nrows == rows(mat),
                        i < ncols,
                        j < nrows,
                        seed == (i, j),
                        seeds@.len() > 0,
                        seeds@.last() == seed,
                        bfs_inv(mat, visited@, labels@, queue@, seeds@, unvisited, seed, None),
                    decreases 5 * unvisited.len() + queue@.len(),
                {
                    let ghost q_before = queue@;
                    proof {
                        lemma_pop(mat, visited@, labels@, queue@, seeds@, unvisited, seed);
                    }
                    let c = queue.pop_front().unwrap();
                    let ghost u_before = unvisited.len();
                    let (ci, cj) = c;
                    let cur = seeds.len() - 1;
                    proof {
                        assert(c == q_before[0]);
                        assert(vis_at(visited@, c));
                        assert(label_at(labels@, c) == cur);
                        assert(connected(mat, seed, c));
                        assert(in_grid(mat, c));
                        assert(mat[ci as int]@.len() >= mat[0]@.len());
                        if ci > 0 {
                            assert(mat[ci - 1]@.len() >= mat[0]@.len());
                        }
                    }
                    // the cell in the previous column
                    if ci > 0 && !wall_mat[ci - 1][cj].1 && !visited[ci - 1][cj] {
                        let d = (ci - 1, cj);
                        let ghost v0 = visited@;
                        let ghost l0 = labels@;
                        let ghost q0 = queue@;
                        proof {
                            assert(mat[d.0 as int]@.len() >= mat[0]@.len());
                            assert(open_step(mat, c, d));
                            lemma_connected_step(mat, seed, c, d);
                        }
                        mark(&mut visited, &mut labels, d, cur, Ghost(mat));
                        queue.push_back(d);
                        proof {
                            lemma_visit(mat, v0, l0, q0, seeds@, unvisited, seed, Some(c), d, visited@, labels@);
                            unvisited = unvisited.remove(d);
                        }
                    }
                    proof {
                        if ci > 0 {
                            let d = ((ci - 1) as usize, cj);
                            assert(open_step(mat, c, d) ==> vis_at(visited@, d));
                        }
                    }
                    // the cell in the next column
                    if ci < ncols - 1 && !wall_mat[ci][cj].1 && !visited[ci + 1][cj] {
                        let d = (ci + 1, cj);
                        let ghost v0 = visited@;
                        let ghost l0 = labels@;
                        let ghost q0 = queue@;
                        proof {
                            assert(mat[d.0 as int]@.len() >= mat[0]@.len());
                            assert(open_step(mat, c, d));
                            lemma_connected_step(mat, seed, c, d);
                        }
                        mark(&mut visited, &mut labels, d, cur, Ghost(mat));
                        queue.push_back(d);
                        proof {
                            lemma_visit(mat, v0, l0, q0, seeds@, unvisited, seed, Some(c), d, visited@, labels@);
                            unvisited = unvisited.remove(d);
                        }
                    }
                    proof {
                        if ci + 1 < ncols {
                            let d = ((ci + 1) as usize, cj);
                            assert(open_step(mat, c, d) ==> vis_at(visited@, d));
                        }
                        if ci > 0 {
                            let d = ((ci - 1) as usize, cj);
                            assert(open_step(mat, c, d) ==> vis_at(visited@, d));
                        }
                    }
                    // the cell in the previous row
                    if cj > 0 && !wall_mat[ci][cj - 1].0 && !visited[ci][cj - 1] {
                        let d = (ci, cj - 1);
                        let ghost v0 = visited@;
                        let ghost l0 = labels@;
                        let ghost q0 = queue@;
                        proof {
                            assert(open_step(mat, c, d));
                            lemma_connected_step(mat, seed, c, d);
                        }
                        mark(&mut visited, &mut labels, d, cur, Ghost(mat));
                        queue.push_back(d);
                        proof {
                            lemma_visit(mat, v0, l0, q0, seeds@, unvisited, seed, Some(c), d, visited@, labels@);
                            unvisited = unvisited.remove(d);
                        }
                    }
                    proof {
                        if cj > 0 {
                            let d = (ci, (cj - 1) as usize);
                            assert(open_step(mat, c, d) ==> vis_at(visited@, d));
                        }
                        if ci + 1 < ncols {
                            let d = ((ci + 1) as usize, cj);
                            assert(open_step(mat, c, d) ==> vis_at(visited@, d));
                        }
                        if ci > 0 {
                            let d = ((ci - 1) as usize, cj);
                            assert(open_step(mat, c, d) ==> vis_at(visited@, d));
                        }
                    }
                    // the cell in the next row
                    if cj < nrows - 1 && !wall_mat[ci][cj].0 && !visited[ci][cj + 1] {
                        let d = (ci, cj + 1);
                        let ghost v0 = visited@;
                        let ghost l0 = labels@;
                        let ghost q0 = queue@;
                        proof {
                            assert(open_step(mat, c, d));
                            lemma_connected_step(mat, seed, c, d);
                        }
                        mark(&mut visited, &mut labels, d, cur, Ghost(mat));
                        queue.push_back(d);
                        proof {
                            lemma_visit(mat, v0, l0, q0, seeds@, unvisited, seed, Some(c), d, visited@, labels@);
                            unvisited = unvisited.remove(d);
                        }
                    }
                    proof {
                        assert forall|d: (usize, usize)| #[trigger] open_step(mat, c, d) implies vis_at(
                            visited@,
                            d,
                        ) && label_at(labels@, d) == label_at(labels@, c) by {
                            assert(vis_at(visited@, d));
                            lemma_neighbor_label(mat, visited@, labels@, queue@, seeds@, unvisited, seed, c, d);
                        }
                        lemma_close(mat, visited@, labels@, queue@, seeds@, unvisited, seed, c);
                        assert(unvisited.len() <= u_before);
                    }
                }
            }
            proof {
                let next = (i, (j + 1) as usize);
                assert(vis_at(visited@, (i, j)));
                assert forall|k: int| 0 <= k < seeds@.len() implies !scan_before(next, #[trigger] seeds@[k]) by {
                    assert(!scan_before((i, j), seeds@[k]));
                }
            }
            j = j + 1;
        }
        proof {
            let next = ((i + 1) as usize, 0usize);
            assert forall|c: (usize, usize)| #![trigger vis_at(visited@, c)]
                in_grid(mat, c) && scan_before(c, next) implies vis_at(visited@, c) by {
                assert(scan_before(c, (i, nrows)));
            }
        }
        i = i + 1;
    }
    proof {
        lemma_search_done(mat, visited@, labels@, seeds@, unvisited);
    }
    (labels, seeds)
}

// ---------------------------------------------------------------------------
// Facts about the cell lists of the regions.

/// `a` is a prefix of `b`.
pub open spec fn prefix_of(a: Seq<(usize, usize)>, b: Seq<(usize, usize)>) -> bool {
    &&& a.len() <= b.len()
    &&& forall|x: int| 0 <= x < a.len() ==> #[trigger] a[x] == b[x]
}

/// The cells listed for a column lie in that column, below row `n`, and carry
/// the region number.
proof fn lemma_column_cells(col: Seq<usize>, i: usize, k: usize, n: nat)
    requires
        n <= col.len(),
        n <= usize::MAX,
    ensures
        column_cells(col, i, k, n).len() <= n,
        forall|x: int|
            0 <= x < column_cells(col, i, k, n).len() ==> {
                let c = #[trigger] column_cells(col, i, k, n)[x];
                &&& c.0 == i
                &&& c.1 < n
                &&& col[c.1 as int] == k
            },
    decreases n,
{
    if n > 0 {
        lemma_column_cells(col, i, k, (n - 1) as nat);
        let a = column_cells(col, i, k, (n - 1) as nat);
        let r = column_cells(col, i, k, n);
        assert forall|x: int| 0 <= x < r.len() implies {
            let c = #[trigger] r[x];
            &&& c.0 == i
            &&& c.1 < n
            &&& col[c.1 as int] == k
        } by {
            if x < a.len() {
                assert(r[x] == a[x]);
            }
        }
    }
}

/// A cell of the column with the region number is listed.
proof fn lemma_column_cells_contains(col: Seq<usize>, i: usize, k: usize, n: nat, j: usize)
    requires
        j < n,
        n <= usize::MAX + 1,
        n <= col.len(),
        col[j as int] == k,
    ensures
        column_cells(col, i, k, n).contains((i, j)),
    decreases n,
{
    let a = column_cells(col, i, k, (n - 1) as nat);
    let r = column_cells(col, i, k, n);
    if j == n - 1 {
        assert(r[r.len() - 1] == (i, j));
    } else {
        lemma_column_cells_contains(col, i, k, (n - 1) as nat, j);
        let x = choose|x: int| 0 <= x < a.len() && a[x] == (i, j);
        assert(r[x] == a[x]);
    }
}

/// The listed prefix of a column is a prefix of the whole column's list.
proof fn lemma_column_cells_prefix(col: Seq<usize>, i: usize, k: usize, j: nat, n: nat)
    requires
        j <= n,
    ensures
        prefix_of(column_cells(col, i, k, j), column_cells(col, i, k, n)),
    decreases n,
{
    if j < n {
        lemma_column_cells_prefix(col, i, k, j, (n - 1) as nat);
        let a = column_cells(col, i, k, (n - 1) as nat);
        let r = column_cells(col, i, k, n);
        assert forall|x: int| 0 <= x < column_cells(col, i, k, j).len() implies #[trigger] column_cells(
            col,
            i,
            k,
            j,
        )[x] == r[x] by {
            assert(r[x] == a[x]);
        }
    }
}

/// The cells listed for a region lie in the grid and carry its number; there
/// are at most `m * n` of them.
proof fn lemma_region_cells(lab: Seq<Vec<usize>>, k: usize, m: nat, n: nat)
    requires
        m <= lab.len(),
        m <= usize::MAX,
        n <= usize::MAX,
        forall|i: int| 0 <= i < m ==> #[trigger] lab[i]@.len() >= n,
    ensures
        region_cells_upto(lab, k, m, n).len() <= m * n,
        forall|x: int|
            0 <= x < region_cells_upto(lab, k, m, n).len() ==> {
                let c = #[trigger] region_cells_upto(lab, k, m, n)[x];
                &&& c.0 < m
                &&& c.1 < n
                &&& label_at(lab, c) == k
            },
    decreases m,
{
    if m > 0 {
        let m1 = (m - 1) as nat;
        lemma_region_cells(lab, k, m1, n);
        assert(lab[m1 as int]@.len() >= n);
        lemma_column_cells(lab[m1 as int]@, m1 as usize, k, n);
        let a = region_cells_upto(lab, k, m1, n);
        let b = column_cells(lab[m1 as int]@, m1 as usize, k, n);
        let r = region_cells_upto(lab, k, m, n);
        assert(r == a + b);
        assert(m1 * n + n == m * n) by (nonlinear_arith)
            requires
                m1 + 1 == m,
        ;
        assert forall|x: int| 0 <= x < r.len() implies {
            let c = #[trigger] r[x];
            &&& c.0 < m
            &&& c.1 < n
            &&& label_at(lab, c) == k
        } by {
            if x < a.len() {
                assert(r[x] == a[x]);
            } else {
                assert(r[x] == b[x - a.len()]);
            }
        }
    }
}

/// Every cell of the grid with the region number is listed for the region.
proof fn lemma_region_cells_contains(lab: Seq<Vec<usize>>, k: usize, m: nat, n: nat, c: (usize, usize))
    requires
        m <= lab.len(),
        m <= usize::MAX,
        n <= usize::MAX,
        forall|i: int| 0 <= i < m ==> #[trigger] lab[i]@.len() >= n,
        c.0 < m,
        c.1 < n,
        label_at(lab, c) == k,
    ensures
        region_cells_upto(lab, k, m, n).contains(c),
    decreases m,
{
    let m1 = (m - 1) as nat;
    let a = region_cells_upto(lab, k, m1, n);
    let b = column_cells(lab[m1 as int]@, m1 as usize, k, n);
    let r = region_cells_upto(lab, k, m, n);
    assert(r == a + b);
    if c.0 == m1 {
        assert(lab[m1 as int]@.len() >= n);
        lemma_column_cells_contains(lab[m1 as int]@, m1 as usize, k, n, c.1);
        let x = choose|x: int| 0 <= x < b.len() && b[x] == c;
        assert(r[a.len() + x] == c);
    } else {
        lemma_region_cells_contains(lab, k, m1, n, c);
        let x = choose|x: int| 0 <= x < a.len() && a[x] == c;
        assert(r[x] == c);
    }
}

/// The cells listed up to column `i`, row `j` are a prefix of the region's
/// whole list.
proof fn lemma_region_cells_prefix(lab: Seq<Vec<usize>>, k: usize, i: nat, j: nat, m: nat, n: nat)
    requires
        i < m,
        j <= n,
    ensures
        prefix_of(
            region_cells_upto(lab, k, i, n) + column_cells(lab[i as int]@, i as usize, k, j),
            region_cells_upto(lab, k, m, n),
        ),
    decreases m,
{
    let a = region_cells_upto(lab, k, i, n);
    let p = a + column_cells(lab[i as int]@, i as usize, k, j);
    let full_col = a + column_cells(lab[i as int]@, i as usize, k, n);
    lemma_column_cells_prefix(lab[i as int]@, i as usize, k, j, n);
    assert(prefix_of(p, full_col)) by {
        assert forall|x: int| 0 <= x < p.len() implies #[trigger] p[x] == full_col[x] by {
            if x >= a.len() {
                assert(column_cells(lab[i as int]@, i as usize, k, j)[x - a.len()] == column_cells(
                    lab[i as int]@,
                    i as usize,
                    k,
                    n,
                )[x - a.len()]);
            }
        }
    }
    if i + 1 == m {
        assert(full_col == region_cells_upto(lab, k, m, n));
    } else {
        let m1 = (m - 1) as nat;
        lemma_region_cells_prefix(lab, k, i, j, m1, n);
        let r1 = region_cells_upto(lab, k, m1, n);
        let r = region_cells_upto(lab, k, m, n);
        assert(r == r1 + column_cells(lab[m1 as int]@, m1 as usize, k, n));
        assert forall|x: int| 0 <= x < p.len() implies #[trigger] p[x] == r[x] by {
            assert(p[x] == r1[x]);
        }
    }
}

/// The region numbers describe the regions; the sizes vector counts their
/// cells.
fn count_regions(labels: &Vec<Vec<usize>>, nregions: usize, Ghost(mat): Ghost<Seq<Vec<(bool, bool)>>>) -> (sizes: Vec<usize>)
    requires
        maze_wf(mat),
        columns(mat) * rows(mat) <= usize::MAX,
        grid_shaped(mat, labels@),
        forall|c: (usize, usize)| in_grid(mat, c) ==> #[trigger] label_at(labels@, c) < nregions,
    ensures
        sizes@.len() == nregions,
        forall|k: int| 0 <= k < nregions ==> #[trigger] sizes@[k] == region_cells(labels@, k as usize).len(),
{
    let ghost lab = labels@;
    let ncols = labels.len();
    let nrows = labels[0].len();
    let mut sizes: Vec<usize> = Vec::new();
    let mut k: usize = 0;
    while k < nregions
        invariant
            k <= nregions,
            sizes@.len() == k,
            forall|x: int| 0 <= x < k ==> #[trigger] sizes@[x] == 0,
        decreases nregions - k,
    {
        sizes.push(0);
        k = k + 1;
    }
    assert(label_rows(lab) == nrows);
    let mut i: usize = 0;
    while i < ncols
        invariant
            maze_wf(mat),
            columns(mat) * rows(mat) <= usize::MAX,
            grid_shaped(mat, lab),
            lab == labels@,
            ncols == columns(mat),
            nrows == rows(mat),
            i <= ncols,
            forall|c: (usize, usize)| in_grid(mat, c) ==> #[trigger] label_at(lab, c) < nregions,
            sizes@.len() == nregions,
            forall|x: int|
                0 <= x < nregions ==> #[trigger] sizes@[x] == region_cells_upto(lab, x as usize, i as nat, nrows as nat).len(),
        decreases ncols - i,
    {
        let mut j: usize = 0;
        while j < nrows
            invariant
                maze_wf(mat),
                columns(mat) * rows(mat) <= usize::MAX,
                grid_shaped(mat, lab),
                lab == labels@,
                ncols == columns(mat),
                nrows == rows(mat),
                i < ncols,
                j <= nrows,
                forall|c: (usize, usize)| in_grid(mat, c) ==> #[trigger] label_at(lab, c) < nregions,
                sizes@.len() == nregions,
                forall|x: int|
                    0 <= x < nregions ==> #[trigger] sizes@[x] == (region_cells_upto(lab, x as usize, i as nat, nrows as nat)
                        + column_cells(lab[i as int]@, i, x as usize, j as nat)).len(),
            decreases nrows - j,
        {
            assert(lab[i as int]@.len() == nrows);
            let l = labels[i][j];
            proof {
                assert(label_at(lab, (i, j)) == l);
                assert forall|x: int| 0 <= x < i implies #[trigger] lab[x]@.len() >= nrows by {}
                lemma_region_cells(lab, l, i as nat, nrows as nat);
                lemma_column_cells(lab[i as int]@, i, l, j as nat);
                assert((i as nat) * (nrows as nat) + j + 1 <= (ncols as nat) * (nrows as nat)) by (nonlinear_arith)
                    requires
                        i < ncols,
                        j < nrows,
                ;
            }
            let ghost s0 = sizes@;
            sizes[l] = sizes[l] + 1;
            proof {
                assert forall|x: int| 0 <= x < nregions implies #[trigger] sizes@[x] == (region_cells_upto(
                    lab,
                    x as usize,
                    i as nat,
                    nrows as nat,
                ) + column_cells(lab[i as int]@, i, x as usize, (j + 1) as nat)).len() by {
                    assert(s0[x] == (region_cells_upto(lab, x as usize, i as nat, nrows as nat) + column_cells(
                        lab[i as int]@,
                        i,
                        x as usize,
                        j as nat,
                    )).len());
                }
            }
            j = j + 1;
        }
        proof {
            assert forall|x: int| 0 <= x < nregions implies #[trigger] sizes@[x] == region_cells_upto(
                lab,
                x as usize,
                (i + 1) as nat,
                nrows as nat,
            ).len() by {
                assert(region_cells_upto(lab, x as usize, (i + 1) as nat, nrows as nat) == region_cells_upto(
                    lab,
                    x as usize,
                    i as nat,
                    nrows as nat,
                ) + column_cells(lab[i as int]@, i, x as usize, nrows as nat));
            }
        }
        i = i + 1;
    }
    sizes
}

/// The first of the regions with the most cells, as the search keeps it:
/// a region replaces the best one only when it is strictly larger.
fn first_largest_region(sizes: &Vec<usize>) -> (best: usize)
    requires
        sizes@.len() > 0,
    ensures
        best < sizes@.len(),
        forall|k: int| 0 <= k < sizes@.len() ==> #[trigger] sizes@[k] <= sizes@[best as int],
        forall|k: int| 0 <= k < best ==> #[trigger] sizes@[k] < sizes@[best as int],
{
    let mut best: usize = 0;
    let mut best_count: usize = 0;
    let mut k: usize = 0;
    while k < sizes.len()
        invariant
            k <= sizes@.len(),
            sizes@.len() > 0,
            best < sizes@.len(),
            k == 0 ==> best == 0 && best_count == 0,
            k > 0 ==> best < k && best_count == sizes@[best as int],
            forall|x: int| 0 <= x < k ==> #[trigger] sizes@[x] <= best_count,
            forall|x: int| 0 <= x < best ==> #[trigger] sizes@[x] < best_count,
        decreases sizes@.len() - k,
    {
        if sizes[k] > best_count {
            best = k;
            best_count = sizes[k];
        }
        k = k + 1;
    }
    best
}

/// Finds the connected regions of the maze: numbers them in scan order of
/// their first cells, counts their cells, and picks the first largest.
pub fn find_regions(wall_mat: &Vec<Vec<(bool, bool)>>) -> (r: Regions)
    requires
        maze_wf(wall_mat@),
        columns(wall_mat@) * rows(wall_mat@) <= usize::MAX,
    ensures
        regions_of(wall_mat@, r),
{
    let ghost mat = wall_mat@;
    let (labels, seeds) = label_regions(wall_mat);
    proof {
        assert(in_grid(mat, (0usize, 0usize)));
        assert(label_at(labels@, (0usize, 0usize)) < seeds@.len());
    }
    let sizes = count_regions(&labels, seeds.len(), Ghost(mat));
    let best = first_largest_region(&sizes);
    proof {
        let lab = labels@;
        let n = seeds@.len();
        assert forall|k: usize| k < n implies #[trigger] region_cells(lab, k).len() <= region_cells(
            lab,
            best,
        ).len() by {
            assert(sizes@[k as int] <= sizes@[best as int]);
        }
        assert forall|k: usize| k < best implies #[trigger] region_cells(lab, k).len() < region_cells(
            lab,
            best,
        ).len() by {
            assert(sizes@[k as int] < sizes@[best as int]);
        }
    }
    Regions { labels, seeds, sizes, best }
}

/// The number of tanks placed on the maze.
pub const TANK_COUNT: usize = 2;

/// Places one tank per pick: pick `p` names the `p`-th cell of the best
/// region in scan order.
pub fn pick_squares(regions: &Regions, picks: &Vec<usize>) -> (squares: Vec<(usize, usize)>)
    requires
        labels_rect(regions.labels@),
        regions.labels@.len() * label_rows(regions.labels@) <= usize::MAX,
        forall|t: int|
            0 <= t < picks@.len() ==> #[trigger] picks@[t] < region_cells(regions.labels@, regions.best).len(),
    ensures
        squares@.len() == picks@.len(),
        forall|t: int|
            0 <= t < picks@.len() ==> #[trigger] squares@[t] == region_cells(regions.labels@, regions.best)[picks@[t] as int],
{
    let ghost lab = regions.labels@;
    let best = regions.best;
    let ncols = regions.labels.len();
    let nrows = if ncols > 0 {
        regions.labels[0].len()
    } else {
        0
    };
    let ghost full = region_cells(lab, best);
    let mut squares: Vec<(usize, usize)> = Vec::new();
    let mut t: usize = 0;
    while t < picks.len()
        invariant
            t <= picks@.len(),
            squares@.len() == t,
        decreases picks@.len() - t,
    {
        squares.push((0, 0));
        t = t + 1;
    }
    let mut curr_square: usize = 0;
    let mut i: usize = 0;
    proof {
        assert(label_rows(lab) == nrows);
        lemma_region_cells(lab, best, ncols as nat, nrows as nat);
    }
    while i < ncols
        invariant
            lab == regions.labels@,
            best == regions.best,
            labels_rect(lab),
            ncols == lab.len(),
            nrows == label_rows(lab),
            ncols * nrows <= usize::MAX,
            full == region_cells(lab, best),
            full.len() <= ncols * nrows,
            i <= ncols,
            squares@.len() == picks@.len(),
            forall|x: int| 0 <= x < picks@.len() ==> #[trigger] picks@[x] < full.len(),
            curr_square == region_cells_upto(lab, best, i as nat, nrows as nat).len(),
            prefix_of(region_cells_upto(lab, best, i as nat, nrows as nat), full),
            forall|x: int|
                0 <= x < picks@.len() && #[trigger] picks@[x] < curr_square ==> squares@[x] == full[picks@[x] as int],
        decreases ncols - i,
    {
        let mut j: usize = 0;
        proof {
            lemma_region_cells_prefix(lab, best, i as nat, 0, ncols as nat, nrows as nat);
            assert(region_cells_upto(lab, best, i as nat, nrows as nat) + column_cells(lab[i as int]@, i, best, 0)
                =~= region_cells_upto(lab, best, i as nat, nrows as nat));
        }
        while j < nrows
            invariant
                lab == regions.labels@,
                best == regions.best,
                labels_rect(lab),
                ncols == lab.len(),
                nrows == label_rows(lab),
                ncols * nrows <= usize::MAX,
                full == region_cells(lab, best),
                full.len() <= ncols * nrows,
                i < ncols,
                j <= nrows,
                squares@.len() == picks@.len(),
                forall|x: int| 0 <= x < picks@.len() ==> #[trigger] picks@[x] < full.len(),
                curr_square == (region_cells_upto(lab, best, i as nat, nrows as nat) + column_cells(
                    lab[i as int]@,
                    i,
                    best,
                    j as nat,
                )).len(),
                prefix_of(
                    region_cells_upto(lab, best, i as nat, nrows as nat) + column_cells(lab[i as int]@, i, best, j as nat),
                    full,
                ),
                forall|x: int|
                    0 <= x < picks@.len() && #[trigger] picks@[x] < curr_square ==> squares@[x] == full[picks@[x] as int],
            decreases nrows - j,
        {
            assert(lab[i as int]@.len() == nrows);
            if regions.labels[i][j] == best {
                let ghost before = region_cells_upto(lab, best, i as nat, nrows as nat) + column_cells(
                    lab[i as int]@,
                    i,
                    best,
                    j as nat,
                );
                let ghost after = region_cells_upto(lab, best, i as nat, nrows as nat) + column_cells(
                    lab[i as int]@,
                    i,
                    best,
                    (j + 1) as nat,
                );
                proof {
                    assert(after =~= before.push((i, j)));
                    lemma_region_cells_prefix(lab, best, i as nat, (j + 1) as nat, ncols as nat, nrows as nat);
                    assert(after[before.len() as int] == full[before.len() as int]);
                }
                let mut t: usize = 0;
                while t < picks.len()
                    invariant
                        t <= picks@.len(),
                        squares@.len() == picks@.len(),
                        curr_square < full.len(),
                        full[curr_square as int] == (i, j),
                        forall|x: int|
                            0 <= x < picks@.len() && #[trigger] picks@[x] < curr_square ==> squares@[x] == full[picks@[x] as int],
                        forall|x: int|
                            0 <= x < t && #[trigger] picks@[x] == curr_square ==> squares@[x] == full[picks@[x] as int],
                    decreases picks@.len() - t,
                {
                    if picks[t] == curr_square {
                        squares.set(t, (i, j));
                    }
                    t = t + 1;
                }
                curr_square = curr_square + 1;
            } else {
                proof {
                    let before = region_cells_upto(lab, best, i as nat, nrows as nat) + column_cells(
                        lab[i as int]@,
                        i,
                        best,
                        j as nat,
                    );
                    let after = region_cells_upto(lab, best, i as nat, nrows as nat) + column_cells(
                        lab[i as int]@,
                        i,
                        best,
                        (j + 1) as nat,
                    );
                    assert(after =~= before);
                }
            }
            j = j + 1;
        }
        proof {
            assert(region_cells_upto(lab, best, (i + 1) as nat, nrows as nat) == region_cells_upto(
                lab,
                best,
                i as nat,
                nrows as nat,
            ) + column_cells(lab[i as int]@, i, best, nrows as nat));
        }
        i = i + 1;
    }
    proof {
        assert(region_cells_upto(lab, best, ncols as nat, nrows as nat) == full);
    }
    squares
}

/// The starting squares lie in the first largest region of the maze.
pub open spec fn starts_in_largest_region(mat: Seq<Vec<(bool, bool)>>, starts: Seq<(usize, usize)>) -> bool {
    exists|lab: Seq<Vec<usize>>, seeds: Seq<(usize, usize)>, b: usize|
        #![trigger regions_spec(mat, lab, seeds), first_largest(lab, seeds.len(), b)]
        {
            &&& regions_spec(mat, lab, seeds)
            &&& first_largest(lab, seeds.len(), b)
            &&& forall|t: int| 0 <= t < starts.len() ==> region_cells(lab, b).contains(#[trigger] starts[t])
        }
}

/// Picks the tanks' starting squares: the regions of the maze are found,
/// and each tank gets a random cell of the first largest region (two tanks
/// may share a cell).
pub fn generate_tank_starts(wall_mat: &Vec<Vec<(bool, bool)>>, rng: &mut ThreadRng) -> (starts: Vec<(usize, usize)>)
    requires
        maze_wf(wall_mat@),
        columns(wall_mat@) * rows(wall_mat@) <= usize::MAX,
    ensures
        starts@.len() == TANK_COUNT,
        starts_in_largest_region(wall_mat@, starts@),
        forall|t1: int, t2: int|
            0 <= t1 < starts@.len() && 0 <= t2 < starts@.len() ==> connected(
                wall_mat@,
                #[trigger] starts@[t1],
                #[trigger] starts@[t2],
            ),
{
    let ghost mat = wall_mat@;
    let regions = find_regions(wall_mat);
    let ghost lab = regions.labels@;
    let best_cluster_count = regions.sizes[regions.best];
    let ghost ncols = lab.len();
    let ghost nrows = label_rows(lab);
    let ncols_e = regions.labels.len();
    let nrows_e = wall_mat[0].len();
    proof {
        assert(ncols == ncols_e);
        assert(nrows == nrows_e);
        assert(in_grid(mat, regions.seeds@[regions.best as int]));
        assert(label_rows(lab) == rows(mat));
        assert forall|i: int| 0 <= i < lab.len() implies #[trigger] lab[i]@.len() >= nrows by {}
        lemma_region_cells_contains(lab, regions.best, ncols, nrows, regions.seeds@[regions.best as int]);
        assert(best_cluster_count > 0);
    }
    let mut starting_idxs: Vec<usize> = Vec::new();
    let mut t: usize = 0;
    while t < TANK_COUNT
        invariant
            t <= TANK_COUNT,
            starting_idxs@.len() == t,
            best_cluster_count > 0,
            forall|x: int| 0 <= x < t ==> #[trigger] starting_idxs@[x] < best_cluster_count,
        decreases TANK_COUNT - t,
    {
        starting_idxs.push(random_below(rng, best_cluster_count));
        t = t + 1;
    }
    proof {
        assert forall|i: int| 0 <= i < lab.len() implies #[trigger] lab[i]@.len() == label_rows(lab) by {}
    }
    let starts = pick_squares(&regions, &starting_idxs);
    proof {
        let full = region_cells(lab, regions.best);
        lemma_region_cells(lab, regions.best, ncols, nrows);
        assert forall|t: int| 0 <= t < starts@.len() implies full.contains(#[trigger] starts@[t]) by {
            assert(full[starting_idxs@[t] as int] == starts@[t]);
        }
        assert forall|t1: int, t2: int| 0 <= t1 < starts@.len() && 0 <= t2 < starts@.len() implies connected(
            mat,
            #[trigger] starts@[t1],
            #[trigger] starts@[t2],
        ) by {
            let c1 = starts@[t1];
            let c2 = starts@[t2];
            assert(c1 == full[starting_idxs@[t1] as int]);
            assert(c2 == full[starting_idxs@[t2] as int]);
            assert(label_at(lab, c1) == regions.best);
            assert(label_at(lab, c2) == regions.best);
            assert(in_grid(mat, c1) && in_grid(mat, c2));
        }
        assert(regions_spec(mat, lab, regions.seeds@));
        assert(first_largest(lab, regions.seeds@.len(), regions.best));
    }
    starts
}

/// A strictly increasing map from `0..n` to the naturals never goes below
/// its argument.
proof fn lemma_increasing_at_least(f: spec_fn(int) -> int, n: int, k: int)
    requires
        0 <= k < n,
        forall|x: int| 0 <= x < n ==> #[trigger] f(x) >= 0,
        forall|x: int, y: int| 0 <= x < y < n ==> #[trigger] f(x) < #[trigger] f(y),
    ensures
        f(k) >= k,
    decreases k,
{
    if k > 0 {
        lemma_increasing_at_least(f, n, k - 1);
        assert(f(k - 1) < f(k));
    }
}

/// Neither of two cells comes before the other only when they are the same
/// cell.
proof fn lemma_scan_total(a: (usize, usize), b: (usize, usize))
    ensures
        !scan_before(a, b) && !scan_before(b, a) ==> a == b,
        !(scan_before(a, b) && scan_before(b, a)),
        !scan_before(a, a),
{
}

/// Region `k` of the first numbering is region `label_at(lab2, seeds1[k])`
/// of the second, with the same first cell.
proof fn lemma_seed_matches(
    mat: Seq<Vec<(bool, bool)>>,
    lab1: Seq<Vec<usize>>,
    seeds1: Seq<(usize, usize)>,
    lab2: Seq<Vec<usize>>,
    seeds2: Seq<(usize, usize)>,
    k: int,
)
    requires
        regions_spec(mat, lab1, seeds1),
        regions_spec(mat, lab2, seeds2),
        0 <= k < seeds1.len(),
    ensures
        label_at(lab2, seeds1[k]) < seeds2.len(),
        seeds2[label_at(lab2, seeds1[k]) as int] == seeds1[k],
{
    let s = seeds1[k];
    assert(in_grid(mat, s));
    let m = label_at(lab2, s) as int;
    assert(m < seeds2.len());
    let s2 = seeds2[m];
    assert(in_grid(mat, s2) && label_at(lab2, s2) == m);
    assert(connected(mat, s, s2));
    assert(label_at(lab1, s2) == label_at(lab1, s));
    assert(!scan_before(s2, seeds1[label_at(lab1, s2) as int]));
    assert(!scan_before(s, seeds2[label_at(lab2, s) as int]));
    lemma_scan_total(s, s2);
}

/// The region numbering is determined by the maze: two numberings that both
/// describe its regions, numbered in scan order of their first cells, are the
/// same numbering with the same first cells.
pub proof fn lemma_regions_unique(
    mat: Seq<Vec<(bool, bool)>>,
    lab1: Seq<Vec<usize>>,
    seeds1: Seq<(usize, usize)>,
    lab2: Seq<Vec<usize>>,
    seeds2: Seq<(usize, usize)>,
)
    requires
        regions_spec(mat, lab1, seeds1),
        regions_spec(mat, lab2, seeds2),
    ensures
        seeds1 == seeds2,
        forall|c: (usize, usize)| in_grid(mat, c) ==> #[trigger] label_at(lab1, c) == label_at(lab2, c),
{
    let f = |k: int| label_at(lab2, seeds1[k]) as int;
    let g = |m: int| label_at(lab1, seeds2[m]) as int;
    let n1 = seeds1.len() as int;
    let n2 = seeds2.len() as int;
    assert forall|k: int| 0 <= k < n1 implies f(k) < n2 && seeds2[#[trigger] f(k)] == seeds1[k] by {
        lemma_seed_matches(mat, lab1, seeds1, lab2, seeds2, k);
    }
    assert forall|m: int| 0 <= m < n2 implies g(m) < n1 && seeds1[#[trigger] g(m)] == seeds2[m] by {
        lemma_seed_matches(mat, lab2, seeds2, lab1, seeds1, m);
    }
    assert forall|x: int, y: int| 0 <= x < y < n1 implies #[trigger] f(x) < #[trigger] f(y) by {
        assert(scan_before(seeds1[x], seeds1[y]));
        assert(seeds2[f(x)] == seeds1[x]);
        assert(seeds2[f(y)] == seeds1[y]);
        lemma_scan_total(seeds1[x], seeds1[y]);
        if f(x) > f(y) {
            assert(scan_before(seeds2[f(y)], seeds2[f(x)]));
        }
    }
    assert forall|x: int, y: int| 0 <= x < y < n2 implies #[trigger] g(x) < #[trigger] g(y) by {
        assert(scan_before(seeds2[x], seeds2[y]));
        assert(seeds1[g(x)] == seeds2[x]);
        assert(seeds1[g(y)] == seeds2[y]);
        lemma_scan_total(seeds2[x], seeds2[y]);
        if g(x) > g(y) {
            assert(scan_before(seeds1[g(y)], seeds1[g(x)]));
        }
    }
    assert forall|k: int| 0 <= k < n1 implies #[trigger] f(k) == k by {
        lemma_increasing_at_least(f, n1, k);
        lemma_increasing_at_least(g, n2, f(k));
        // g(f(k)) names a region of the first numbering with the same first cell as k
        assert(seeds1[g(f(k))] == seeds2[f(k)]);
        assert(seeds1[g(f(k))] == seeds1[k]);
        if g(f(k)) != k {
            if g(f(k)) < k {
                assert(scan_before(seeds1[g(f(k))], seeds1[k]));
            } else {
                assert(scan_before(seeds1[k], seeds1[g(f(k))]));
            }
            lemma_scan_total(seeds1[k], seeds1[k]);
        }
    }
    assert forall|m: int| 0 <= m < n2 implies #[trigger] g(m) == m by {
        lemma_increasing_at_least(g, n2, m);
        lemma_increasing_at_least(f, n1, g(m));
        assert(seeds2[f(g(m))] == seeds1[g(m)]);
        assert(seeds2[f(g(m))] == seeds2[m]);
        if f(g(m)) != m {
            if f(g(m)) < m {
                assert(scan_before(seeds2[f(g(m))], seeds2[m]));
            } else {
                assert(scan_before(seeds2[m], seeds2[f(g(m))]));
            }
            lemma_scan_total(seeds2[m], seeds2[m]);
        }
    }
    if n1 > 0 {
        assert(f(n1 - 1) == n1 - 1);
    }
    if n2 > 0 {
        assert(g(n2 - 1) == n2 - 1);
    }
    assert(n1 == n2);
    assert forall|k: int| 0 <= k < n1 implies seeds1[k] == seeds2[k] by {
        assert(f(k) == k);
    }
    assert(seeds1 =~= seeds2);
    assert forall|c: (usize, usize)| in_grid(mat, c) implies #[trigger] label_at(lab1, c) == label_at(lab2, c) by {
        let k = label_at(lab1, c) as int;
        assert(k < n1);
        let s = seeds1[k];
        assert(in_grid(mat, s) && label_at(lab1, s) == k);
        assert(connected(mat, c, s));
        assert(label_at(lab2, c) == label_at(lab2, s));
        assert(f(k) == k);
    }
}

} // verus!
