//! The random game board, and the walls drawn from it.
//!
//! Horizontal walls stand at column `i` and height `j` for `j` in
//! `0..=rows`: the top and bottom of the arena always, otherwise the wall
//! below cell `(i, j - 1)`. Vertical walls stand at position `i` in
//! `0..=columns` and row `j`: the left and right of the arena always,
//! otherwise the wall right of cell `(i - 1, j)`.
use vstd::prelude::*;
use rand::rngs::ThreadRng;
use crate::maze::{columns, in_grid, maze_wf, open_step, rows, wall_below, wall_right};
use crate::regions::{generate_tank_starts, starts_in_largest_region, TANK_COUNT};
use crate::rng::random_flag;

verus! {

/// Every column of the maze has exactly `n` rows.
pub open spec fn columns_have_rows(mat: Seq<Vec<(bool, bool)>>, n: nat) -> bool {
    forall|i: int| 0 <= i < mat.len() ==> #[trigger] mat[i]@.len() == n
}

/// A horizontal wall is drawn at column `i`, height `j` of a maze with `n`
/// rows.
pub open spec fn horizontal_wall(mat: Seq<Vec<(bool, bool)>>, n: nat, i: int, j: int) -> bool {
    j == 0 || j == n || wall_below(mat, i, j - 1)
}

/// A vertical wall is drawn at position `i`, row `j` of a maze with `m`
/// columns.
pub open spec fn vertical_wall(mat: Seq<Vec<(bool, bool)>>, m: nat, i: int, j: int) -> bool {
    i == 0 || i == m || wall_right(mat, i - 1, j)
}

/// A random board: its walls and the tanks' starting squares.
pub struct Gameboard {
    pub walls: Vec<Vec<(bool, bool)>>,
    pub tank_starts: Vec<(usize, usize)>,
}

/// The position, among the draws, of the first of the two flags of cell
/// `(i, j)` in a maze of `n` rows: cells are drawn column by column, two
/// draws each.
pub open spec fn draw_index(n: nat, i: int, j: int) -> int {
    2 * (i * n + j)
}

/// Each cell's flags are its own two draws, in order: the first is the wall
/// below it, the second the wall right of it.
pub open spec fn walls_match_draws(walls: Seq<Vec<(bool, bool)>>, draws: Seq<bool>, n: nat) -> bool {
    forall|i: int, j: int|
        0 <= i < walls.len() && 0 <= j < n ==> #[trigger] walls[i]@[j] == (
            draws[draw_index(n, i, j)],
            draws[draw_index(n, i, j) + 1],
        )
}

proof fn lemma_draw_index_bound(m: nat, n: nat, i: int, j: int)
    requires
        0 <= i < m,
        0 <= j < n,
    ensures
        0 <= draw_index(n, i, j),
        draw_index(n, i, j) + 1 < 2 * m * n,
        draw_index(n, i, j) + 2 == draw_index(n, i, j + 1),
{
    assert(0 <= i * n + j < m * n) by (nonlinear_arith)
        requires
            0 <= i < m,
            0 <= j < n,
    ;
    assert(2 * m * n == 2 * (m * n)) by (nonlinear_arith);
}

proof fn lemma_draw_index_next_column(n: nat, i: int)
    ensures
        draw_index(n, i, n as int) == draw_index(n, i + 1, 0),
{
    assert(i * n + n == (i + 1) * n) by (nonlinear_arith);
}

/// Lays out the draws as the walls of a maze of `arena.0` columns and
/// `arena.1` rows: column by column, each cell takes two draws, the first
/// for the wall below it and the second for the wall right of it.
pub fn walls_from_draws(arena: (usize, usize), draws: &Vec<bool>) -> (walls: Vec<Vec<(bool, bool)>>)
    requires
        draws@.len() == 2 * arena.0 * arena.1,
    ensures
        walls@.len() == arena.0,
        columns_have_rows(walls@, arena.1 as nat),
        walls_match_draws(walls@, draws@, arena.1 as nat),
{
    let (arena_x, arena_y) = arena;
    let ghost n = arena_y as nat;
    let draws_len = draws.len();
    let mut wall_mat: Vec<Vec<(bool, bool)>> = Vec::new();
    let mut k: usize = 0;
    let mut i: usize = 0;
    while i < arena_x
        invariant
            i <= arena_x,
            draws@.len() == 2 * arena_x * arena_y,
            draws_len == draws@.len(),
            n == arena_y,
            k == draw_index(n, i as int, 0),
            wall_mat@.len() == i,
            columns_have_rows(wall_mat@, n),
            forall|x: int, y: int|
                0 <= x < i && 0 <= y < n ==> #[trigger] wall_mat@[x]@[y] == (
                    draws@[draw_index(n, x, y)],
                    draws@[draw_index(n, x, y) + 1],
                ),
        decreases arena_x - i,
    {
        let mut wall_vec_temp: Vec<(bool, bool)> = Vec::new();
        let mut j: usize = 0;
        while j < arena_y
            invariant
                i < arena_x,
                j <= arena_y,
                draws@.len() == 2 * arena_x * arena_y,
                draws_len == draws@.len(),
                n == arena_y,
                k == draw_index(n, i as int, j as int),
                wall_vec_temp@.len() == j,
                forall|y: int|
                    0 <= y < j ==> #[trigger] wall_vec_temp@[y] == (
                        draws@[draw_index(n, i as int, y)],
                        draws@[draw_index(n, i as int, y) + 1],
                    ),
            decreases arena_y - j,
        {
            proof {
                lemma_draw_index_bound(arena_x as nat, n, i as int, j as int);
            }
            let below = draws[k];
            let right = draws[k + 1];
            wall_vec_temp.push((below, right));
            k = k + 2;
            j = j + 1;
        }
        proof {
            lemma_draw_index_next_column(n, i as int);
        }
        let ghost before = wall_mat@;
        wall_mat.push(wall_vec_temp);
        proof {
            assert forall|x: int| 0 <= x < wall_mat@.len() implies #[trigger] wall_mat@[x]@.len() == n by {
                if x < i {
                    assert(wall_mat@[x] == before[x]);
                }
            }
            assert forall|x: int, y: int| 0 <= x < i + 1 && 0 <= y < n implies #[trigger] wall_mat@[x]@[y] == (
                draws@[draw_index(n, x, y)],
                draws@[draw_index(n, x, y) + 1],
            ) by {
                if x < i {
                    assert(wall_mat@[x] == before[x]);
                }
            }
        }
        i = i + 1;
    }
    wall_mat
}

/// Generates a board of `arena.0` columns and `arena.1` rows: each cell
/// draws a random wall below it and then a random wall right of it (column
/// by column), then the tanks are placed in the first largest region.
pub fn generate_random_gameboard(arena: (usize, usize), rng: &mut ThreadRng) -> (board: Gameboard)
    requires
        arena.0 > 0,
        arena.1 > 0,
        arena.0 * arena.1 <= usize::MAX,
    ensures
        board.walls@.len() == arena.0,
        columns_have_rows(board.walls@, arena.1 as nat),
        exists|draws: Seq<bool>|
            draws.len() == 2 * arena.0 * arena.1 && #[trigger] walls_match_draws(
                board.walls@,
                draws,
                arena.1 as nat,
            ),
        board.tank_starts@.len() == TANK_COUNT,
        starts_in_largest_region(board.walls@, board.tank_starts@),
        forall|t1: int, t2: int|
            0 <= t1 < board.tank_starts@.len() && 0 <= t2 < board.tank_starts@.len() ==> crate::maze::connected(
                board.walls@,
                #[trigger] board.tank_starts@[t1],
                #[trigger] board.tank_starts@[t2],
            ),
{
    let (arena_x, arena_y) = arena;
    let ghost n = arena_y as nat;
    let mut draws: Vec<bool> = Vec::new();
    let mut i: usize = 0;
    while i < arena_x
        invariant
            i <= arena_x,
            n == arena_y,
            draws@.len() == draw_index(n, i as int, 0),
        decreases arena_x - i,
    {
        let mut j: usize = 0;
        while j < arena_y
            invariant
                i < arena_x,
                j <= arena_y,
                n == arena_y,
                draws@.len() == draw_index(n, i as int, j as int),
            decreases arena_y - j,
        {
            proof {
                lemma_draw_index_bound(arena_x as nat, n, i as int, j as int);
            }
            let below = random_flag(rng);
            draws.push(below);
            let right = random_flag(rng);
            draws.push(right);
            j = j + 1;
        }
        proof {
            lemma_draw_index_next_column(n, i as int);
        }
        i = i + 1;
    }
    proof {
        assert(draw_index(n, arena_x as int, 0) == 2 * arena_x * arena_y) by (nonlinear_arith)
            requires
                n == arena_y,
        ;
    }
    let wall_mat = walls_from_draws(arena, &draws);
    proof {
        assert(wall_mat@[0]@.len() == arena_y);
        assert(maze_wf(wall_mat@));
    }
    let tank_starts = generate_tank_starts(&wall_mat, rng);
    Gameboard { walls: wall_mat, tank_starts }
}

/// The feed of horizontal walls, column by column, each column from the top
/// of the arena to its bottom.
pub struct HorizontalWalls<'a> {
    pub walls: &'a Vec<Vec<(bool, bool)>>,
    pub arena_y: usize,
    pub i: usize,
    pub j: usize,
}

/// The feed of vertical walls, row by row, each row from the left of the
/// arena to its right.
pub struct VerticalWalls<'a> {
    pub walls: &'a Vec<Vec<(bool, bool)>>,
    pub arena_x: usize,
    pub i: usize,
    pub j: usize,
}

/// A maze of exactly `m` columns of `n` rows, with room to count past both.
pub open spec fn feed_shape(mat: Seq<Vec<(bool, bool)>>, m: nat, n: nat) -> bool {
    &&& mat.len() == m
    &&& columns_have_rows(mat, n)
    &&& m < usize::MAX
    &&& n < usize::MAX
}

impl<'a> HorizontalWalls<'a> {
    /// The feed is well formed.
    pub open spec fn wf(&self) -> bool {
        &&& feed_shape(self.walls@, self.walls@.len(), self.arena_y as nat)
        &&& self.j <= self.arena_y
    }

    /// The next call reads inside the maze.
    pub open spec fn can_advance(&self) -> bool {
        &&& self.j == 0 || self.j == self.arena_y || self.i < self.walls@.len()
        &&& self.j == self.arena_y ==> self.i < usize::MAX
    }

    /// A feed over the walls of `board`, at the first wall.
    pub fn new(board: &'a Gameboard) -> (feed: Self)
        requires
            board.walls@.len() < usize::MAX,
            board.walls@.len() > 0,
            board.walls@[0]@.len() < usize::MAX,
            columns_have_rows(board.walls@, board.walls@[0]@.len()),
        ensures
            feed.wf(),
            feed.walls == &board.walls,
            feed.arena_y == board.walls@[0]@.len(),
            feed.i == 0,
            feed.j == 0,
    {
        HorizontalWalls { walls: &board.walls, arena_y: board.walls[0].len(), i: 0, j: 0 }
    }

    /// Says whether the current horizontal position holds a wall, and moves
    /// on: down the column, then to the top of the next column.
    pub fn next(&mut self) -> (wall: bool)
        requires
            old(self).wf(),
            old(self).can_advance(),
        ensures
            final(self).wf(),
            final(self).walls == old(self).walls,
            final(self).arena_y == old(self).arena_y,
            wall == horizontal_wall(
                old(self).walls@,
                old(self).arena_y as nat,
                old(self).i as int,
                old(self).j as int,
            ),
            old(self).j == old(self).arena_y ==> final(self).i == old(self).i + 1 && final(self).j == 0,
            old(self).j < old(self).arena_y ==> final(self).i == old(self).i && final(self).j == old(self).j + 1,
    {
        let ret = if self.j == 0 || self.j == self.arena_y {
            true
        } else {
            proof {
                assert(self.walls@[self.i as int]@.len() == self.arena_y);
            }
            self.walls[self.i][self.j - 1].0
        };
        self.j = self.j + 1;
        if self.j > self.arena_y {
            self.j = 0;
            self.i = self.i + 1;
        }
        ret
    }
}

impl<'a> VerticalWalls<'a> {
    /// The feed is well formed.
    pub open spec fn wf(&self) -> bool {
        &&& feed_shape(self.walls@, self.arena_x as nat, if self.walls@.len() > 0 {
            self.walls@[0]@.len()
        } else {
            0
        })
        &&& self.i <= self.arena_x
    }

    /// The next call reads inside the maze.
    pub open spec fn can_advance(&self) -> bool {
        &&& self.i == 0 || self.i == self.arena_x || self.j < rows(self.walls@)
        &&& self.i == self.arena_x ==> self.j < usize::MAX
    }

    /// A feed over the walls of `board`, at the first wall.
    pub fn new(board: &'a Gameboard) -> (feed: Self)
        requires
            board.walls@.len() < usize::MAX,
            board.walls@.len() > 0,
            board.walls@[0]@.len() < usize::MAX,
            columns_have_rows(board.walls@, board.walls@[0]@.len()),
        ensures
            feed.wf(),
            feed.walls == &board.walls,
            feed.arena_x == board.walls@.len(),
            feed.i == 0,
            feed.j == 0,
    {
        VerticalWalls { walls: &board.walls, arena_x: board.walls.len(), i: 0, j: 0 }
    }

    /// Says whether the current vertical position holds a wall, and moves
    /// on: right along the row, then to the left end of the next row.
    pub fn next(&mut self) -> (wall: bool)
        requires
            old(self).wf(),
            old(self).can_advance(),
        ensures
            final(self).wf(),
            final(self).walls == old(self).walls,
            final(self).arena_x == old(self).arena_x,
            wall == vertical_wall(
                old(self).walls@,
                old(self).arena_x as nat,
                old(self).i as int,
                old(self).j as int,
            ),
            old(self).i == old(self).arena_x ==> final(self).j == old(self).j + 1 && final(self).i == 0,
            old(self).i < old(self).arena_x ==> final(self).j == old(self).j && final(self).i == old(self).i + 1,
    {
        let ret = if self.i == 0 || self.i == self.arena_x {
            true
        } else {
            proof {
                assert(self.walls@[self.i - 1]@.len() == self.walls@[0]@.len());
            }
            self.walls[self.i - 1][self.j].1
        };
        self.i = self.i + 1;
        if self.i > self.arena_x {
            self.i = 0;
            self.j = self.j + 1;
        }
        ret
    }
}

/// The horizontal walls of the board in the order the round builder asks for
/// them: `layout[i][j]` for column `i` and height `j` in `0..=rows`.
pub fn horizontal_wall_layout(board: &Gameboard) -> (layout: Vec<Vec<bool>>)
    requires
        board.walls@.len() > 0,
        board.walls@.len() < usize::MAX,
        board.walls@[0]@.len() < usize::MAX,
        columns_have_rows(board.walls@, board.walls@[0]@.len()),
    ensures
        layout@.len() == board.walls@.len(),
        forall|i: int|
            0 <= i < layout@.len() ==> #[trigger] layout@[i]@.len() == board.walls@[0]@.len() + 1,
        forall|i: int, j: int|
            0 <= i < layout@.len() && 0 <= j <= board.walls@[0]@.len() ==> #[trigger] layout@[i]@[j]
                == horizontal_wall(board.walls@, board.walls@[0]@.len(), i, j),
{
    let ghost mat = board.walls@;
    let ncols = board.walls.len();
    let nrows = board.walls[0].len();
    let mut feed = HorizontalWalls::new(board);
    let mut layout: Vec<Vec<bool>> = Vec::new();
    let mut i: usize = 0;
    while i < ncols
        invariant
            mat == board.walls@,
            ncols == mat.len(),
            nrows == mat[0]@.len(),
            ncols < usize::MAX,
            i <= ncols,
            feed.wf(),
            feed.walls@ == mat,
            feed.arena_y == nrows,
            feed.i == i,
            feed.j == 0,
            layout@.len() == i,
            forall|x: int| 0 <= x < i ==> #[trigger] layout@[x]@.len() == nrows + 1,
            forall|x: int, y: int|
                0 <= x < i && 0 <= y <= nrows ==> #[trigger] layout@[x]@[y] == horizontal_wall(mat, nrows as nat, x, y),
        decreases ncols - i,
    {
        let mut column: Vec<bool> = Vec::new();
        let mut j: usize = 0;
        while j <= nrows
            invariant
                mat == board.walls@,
                ncols == mat.len(),
                nrows == mat[0]@.len(),
                ncols < usize::MAX,
                i < ncols,
                j <= nrows + 1,
                feed.wf(),
                feed.walls@ == mat,
                feed.arena_y == nrows,
                j <= nrows ==> feed.i == i && feed.j == j,
                j == nrows + 1 ==> feed.i == i + 1 && feed.j == 0,
                column@.len() == j,
                forall|y: int| 0 <= y < j ==> #[trigger] column@[y] == horizontal_wall(mat, nrows as nat, i as int, y),
            decreases nrows + 1 - j,
        {
            let wall = feed.next();
            column.push(wall);
            j = j + 1;
        }
        layout.push(column);
        proof {
            assert forall|x: int| 0 <= x < i + 1 implies #[trigger] layout@[x]@.len() == nrows + 1 by {
                if x < i {
                    assert(layout@[x] == layout@.drop_last()[x]);
                }
            }
            assert forall|x: int, y: int| 0 <= x < i + 1 && 0 <= y <= nrows implies #[trigger] layout@[x]@[y]
                == horizontal_wall(mat, nrows as nat, x, y) by {
                if x < i {
                    assert(layout@[x] == layout@.drop_last()[x]);
                }
            }
        }
        i = i + 1;
    }
    layout
}

/// The vertical walls of the board in the order the round builder asks for
/// them: `layout[j][i]` for row `j` and position `i` in `0..=columns`.
pub fn vertical_wall_layout(board: &Gameboard) -> (layout: Vec<Vec<bool>>)
    requires
        board.walls@.len() > 0,
        board.walls@.len() < usize::MAX,
        board.walls@[0]@.len() < usize::MAX,
        columns_have_rows(board.walls@, board.walls@[0]@.len()),
    ensures
        layout@.len() == board.walls@[0]@.len(),
        forall|j: int| 0 <= j < layout@.len() ==> #[trigger] layout@[j]@.len() == board.walls@.len() + 1,
        forall|j: int, i: int|
            0 <= j < layout@.len() && 0 <= i <= board.walls@.len() ==> #[trigger] layout@[j]@[i]
                == vertical_wall(board.walls@, board.walls@.len(), i, j),
{
    let ghost mat = board.walls@;
    let ncols = board.walls.len();
    let nrows = board.walls[0].len();
    let mut feed = VerticalWalls::new(board);
    let mut layout: Vec<Vec<bool>> = Vec::new();
    let mut j: usize = 0;
    while j < nrows
        invariant
            mat == board.walls@,
            ncols == mat.len(),
            nrows == mat[0]@.len(),
            nrows < usize::MAX,
            j <= nrows,
            feed.wf(),
            feed.walls@ == mat,
            feed.arena_x == ncols,
            feed.i == 0,
            feed.j == j,
            layout@.len() == j,
            forall|y: int| 0 <= y < j ==> #[trigger] layout@[y]@.len() == ncols + 1,
            forall|y: int, x: int|
                0 <= y < j && 0 <= x <= ncols ==> #[trigger] layout@[y]@[x] == vertical_wall(mat, ncols as nat, x, y),
        decreases nrows - j,
    {
        let mut row: Vec<bool> = Vec::new();
        let mut i: usize = 0;
        while i <= ncols
            invariant
                mat == board.walls@,
                ncols == mat.len(),
                nrows == mat[0]@.len(),
                nrows < usize::MAX,
                j < nrows,
                i <= ncols + 1,
                feed.wf(),
                feed.walls@ == mat,
                feed.arena_x == ncols,
                i <= ncols ==> feed.j == j && feed.i == i,
                i == ncols + 1 ==> feed.j == j + 1 && feed.i == 0,
                row@.len() == i,
                forall|x: int| 0 <= x < i ==> #[trigger] row@[x] == vertical_wall(mat, ncols as nat, x, j as int),
            decreases ncols + 1 - i,
        {
            let wall = feed.next();
            row.push(wall);
            i = i + 1;
        }
        layout.push(row);
        proof {
            assert forall|y: int| 0 <= y < j + 1 implies #[trigger] layout@[y]@.len() == ncols + 1 by {
                if y < j {
                    assert(layout@[y] == layout@.drop_last()[y]);
                }
            }
            assert forall|y: int, x: int| 0 <= y < j + 1 && 0 <= x <= ncols implies #[trigger] layout@[y]@[x]
                == vertical_wall(mat, ncols as nat, x, y) by {
                if y < j {
                    assert(layout@[y] == layout@.drop_last()[y]);
                }
            }
        }
        j = j + 1;
    }
    layout
}

/// The drawn walls close the arena: every column has a wall at the top and
/// at the bottom, every row one at the left and at the right.
pub proof fn lemma_arena_enclosed(mat: Seq<Vec<(bool, bool)>>, i: int, j: int)
    ensures
        horizontal_wall(mat, rows(mat), i, 0),
        horizontal_wall(mat, rows(mat), i, rows(mat) as int),
        vertical_wall(mat, columns(mat), 0, j),
        vertical_wall(mat, columns(mat), columns(mat) as int, j),
{
}

/// The drawn walls are the maze the tanks are placed in: two cells one above
/// the other are joined by an open step exactly when no horizontal wall is
/// drawn between them, and two cells side by side exactly when no vertical
/// wall is.
pub proof fn lemma_drawn_walls_match_steps(mat: Seq<Vec<(bool, bool)>>, i: usize, j: usize)
    requires
        maze_wf(mat),
        columns_have_rows(mat, rows(mat)),
        columns(mat) <= usize::MAX,
        rows(mat) <= usize::MAX,
        in_grid(mat, (i, j)),
    ensures
        j + 1 < rows(mat) ==> (open_step(mat, (i, j), (i, (j + 1) as usize))
            <==> !horizontal_wall(mat, rows(mat), i as int, j + 1)),
        i + 1 < columns(mat) ==> (open_step(mat, (i, j), ((i + 1) as usize, j))
            <==> !vertical_wall(mat, columns(mat), i + 1, j as int)),
{
}

} // verus!
