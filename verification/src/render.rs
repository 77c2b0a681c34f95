//! A text picture of the maze, one line of text per line of the picture.
//!
//! The picture has a border line, then for each row but the last a line of
//! cells with the walls right of them and a line of the walls below them,
//! then the line of cells of the last row and the border line again. The
//! last column's walls right of cells and the last row's walls below cells
//! are not drawn; the border stands in their place.
use vstd::prelude::*;
use crate::maze::{columns, rows, wall_below, wall_right};

verus! {

/// What drawing the picture reads: at least one column and one row (the
/// length of the first column), every column but the last at least that
/// long, and the last column at most one cell shorter (its cell in the last
/// row is never read).
pub open spec fn picture_wf(mat: Seq<Vec<(bool, bool)>>) -> bool {
    &&& mat.len() > 0
    &&& mat[0]@.len() > 0
    &&& forall|i: int| 0 <= i < mat.len() - 1 ==> #[trigger] mat[i]@.len() >= mat[0]@.len()
    &&& mat[mat.len() - 1]@.len() + 1 >= mat[0]@.len()
}

/// `seg` written `n` times.
pub open spec fn repeat_seg(seg: Seq<char>, n: nat) -> Seq<char>
    decreases n,
{
    if n == 0 {
        seq![]
    } else {
        repeat_seg(seg, (n - 1) as nat) + seg
    }
}

/// A border line of `m` segments and its end mark.
pub open spec fn border_line(m: nat, seg: Seq<char>, end: Seq<char>) -> Seq<char> {
    repeat_seg(seg, m) + end + "\n"@
}

/// For the first `k` columns, the wall right of the cell in row `j`: `"| "`
/// where there is one, two spaces where there is none.
pub open spec fn right_segments(mat: Seq<Vec<(bool, bool)>>, j: int, k: nat) -> Seq<char>
    decreases k,
{
    if k == 0 {
        seq![]
    } else {
        right_segments(mat, j, (k - 1) as nat) + if wall_right(mat, k - 1, j) {
            "| "@
        } else {
            "  "@
        }
    }
}

/// For the first `k` columns, the wall below the cell in row `j`: `wall`
/// where there is one, `open` where there is none.
pub open spec fn below_segments(
    mat: Seq<Vec<(bool, bool)>>,
    j: int,
    k: nat,
    wall: Seq<char>,
    open: Seq<char>,
) -> Seq<char>
    decreases k,
{
    if k == 0 {
        seq![]
    } else {
        below_segments(mat, j, (k - 1) as nat, wall, open) + if wall_below(mat, k - 1, j) {
            wall
        } else {
            open
        }
    }
}

/// The line of cells of row `j`.
pub open spec fn cell_line(mat: Seq<Vec<(bool, bool)>>, j: int) -> Seq<char> {
    "| "@ + right_segments(mat, j, (columns(mat) - 1) as nat) + "|\n"@
}

/// The line of walls below row `j`.
pub open spec fn floor_line(mat: Seq<Vec<(bool, bool)>>, j: int, wall: Seq<char>, open: Seq<char>) -> Seq<char> {
    below_segments(mat, j, columns(mat), wall, open) + "+\n"@
}

/// The lines of the first `k` rows, each a line of cells and a line of walls
/// below.
pub open spec fn body_lines(mat: Seq<Vec<(bool, bool)>>, k: nat, wall: Seq<char>, open: Seq<char>) -> Seq<char>
    decreases k,
{
    if k == 0 {
        seq![]
    } else {
        body_lines(mat, (k - 1) as nat, wall, open) + cell_line(mat, k - 1) + floor_line(mat, k - 1, wall, open)
    }
}

/// The whole picture, with `seg` for a wall below a cell and for a border
/// segment, `open` for no wall below a cell, and `end` closing the border
/// lines.
pub open spec fn maze_picture(mat: Seq<Vec<(bool, bool)>>, seg: Seq<char>, open: Seq<char>, end: Seq<char>) -> Seq<char> {
    border_line(columns(mat), seg, end) + body_lines(mat, (rows(mat) - 1) as nat, seg, open) + cell_line(
        mat,
        rows(mat) - 1,
    ) + border_line(columns(mat), seg, end)
}

/// Appends a border line.
fn push_border(out: &mut String, m: usize, seg: &str, end: &str)
    ensures
        final(out)@ == old(out)@ + border_line(m as nat, seg@, end@),
{
    let ghost start = out@;
    let mut k: usize = 0;
    while k < m
        invariant
            k <= m,
            out@ == start + repeat_seg(seg@, k as nat),
        decreases m - k,
    {
        out.append(seg);
        k = k + 1;
    }
    out.append(end);
    out.append("\n");
}

/// Appends the line of cells of row `j`.
fn push_cell_line(out: &mut String, wall_mat: &Vec<Vec<(bool, bool)>>, j: usize)
    requires
        picture_wf(wall_mat@),
        j < rows(wall_mat@),
    ensures
        final(out)@ == old(out)@ + cell_line(wall_mat@, j as int),
{
    let ghost mat = wall_mat@;
    let ghost start = out@;
    out.append("| ");
    let m = wall_mat.len() - 1;
    let mut i: usize = 0;
    while i < m
        invariant
            picture_wf(mat),
            mat == wall_mat@,
            m == columns(mat) - 1,
            j < rows(mat),
            i <= m,
            out@ == start + "| "@ + right_segments(mat, j as int, i as nat),
        decreases m - i,
    {
        assert(mat[i as int]@.len() >= mat[0]@.len());
        if wall_mat[i][j].1 {
            out.append("| ");
        } else {
            out.append("  ");
        }
        i = i + 1;
    }
    out.append("|\n");
}

/// Appends the line of walls below row `j`.
fn push_floor_line(out: &mut String, wall_mat: &Vec<Vec<(bool, bool)>>, j: usize, wall: &str, open: &str)
    requires
        picture_wf(wall_mat@),
        j + 1 < rows(wall_mat@),
    ensures
        final(out)@ == old(out)@ + floor_line(wall_mat@, j as int, wall@, open@),
{
    let ghost mat = wall_mat@;
    let ghost start = out@;
    let m = wall_mat.len();
    let mut i: usize = 0;
    while i < m
        invariant
            picture_wf(mat),
            mat == wall_mat@,
            m == columns(mat),
            j + 1 < rows(mat),
            i <= m,
            out@ == start + below_segments(mat, j as int, i as nat, wall@, open@),
        decreases m - i,
    {
        if i + 1 < m {
            assert(mat[i as int]@.len() >= mat[0]@.len());
        }
        if wall_mat[i][j].0 {
            out.append(wall);
        } else {
            out.append(open);
        }
        i = i + 1;
    }
    out.append("+\n");
}

/// Draws the maze with its border and the walls below cells as `seg`.
fn render_with(wall_mat: &Vec<Vec<(bool, bool)>>, seg: &str, open: &str, end: &str) -> (picture: String)
    requires
        picture_wf(wall_mat@),
    ensures
        picture@ == maze_picture(wall_mat@, seg@, open@, end@),
{
    let ghost mat = wall_mat@;
    let m = wall_mat.len();
    let n = wall_mat[0].len();
    let mut out = String::new();
    push_border(&mut out, m, seg, end);
    let ghost top = out@;
    let mut j: usize = 0;
    while j < n - 1
        invariant
            picture_wf(mat),
            mat == wall_mat@,
            m == columns(mat),
            n == rows(mat),
            j <= n - 1,
            out@ == top + body_lines(mat, j as nat, seg@, open@),
        decreases n - 1 - j,
    {
        push_cell_line(&mut out, wall_mat, j);
        push_floor_line(&mut out, wall_mat, j, seg, open);
        j = j + 1;
    }
    push_cell_line(&mut out, wall_mat, n - 1);
    push_border(&mut out, m, seg, end);
    out
}

/// The picture the game prints of a fresh maze: dashes for walls below cells,
/// bars for walls right of cells.
pub fn render_wall_mat(wall_mat: &Vec<Vec<(bool, bool)>>) -> (picture: String)
    requires
        picture_wf(wall_mat@),
    ensures
        picture@ == maze_picture(wall_mat@, " -"@, "  "@, " "@),
{
    render_with(wall_mat, " -", "  ", " ")
}

/// The same picture with a `+` at every corner.
pub fn render_wall_mat_plus(wall_mat: &Vec<Vec<(bool, bool)>>) -> (picture: String)
    requires
        picture_wf(wall_mat@),
    ensures
        picture@ == maze_picture(wall_mat@, "+-"@, "+ "@, "+"@),
{
    render_with(wall_mat, "+-", "+ ", "+")
}

/// The lines of the first `k` rows: a line of cells and a line of walls
/// below for each.
pub open spec fn body_line_list(mat: Seq<Vec<(bool, bool)>>, k: nat, wall: Seq<char>, open: Seq<char>) -> Seq<Seq<char>>
    decreases k,
{
    if k == 0 {
        seq![]
    } else {
        body_line_list(mat, (k - 1) as nat, wall, open) + seq![cell_line(mat, k - 1), floor_line(mat, k - 1, wall, open)]
    }
}

/// The picture as a list of lines, each ending in a newline.
pub open spec fn picture_lines(mat: Seq<Vec<(bool, bool)>>, seg: Seq<char>, open: Seq<char>, end: Seq<char>) -> Seq<Seq<char>> {
    seq![border_line(columns(mat), seg, end)] + body_line_list(mat, (rows(mat) - 1) as nat, seg, open) + seq![
        cell_line(mat, rows(mat) - 1),
        border_line(columns(mat), seg, end),
    ]
}

/// Lines written one after the other.
pub open spec fn join_lines(lines: Seq<Seq<char>>) -> Seq<char>
    decreases lines.len(),
{
    if lines.len() == 0 {
        seq![]
    } else {
        join_lines(lines.drop_last()) + lines.last()
    }
}

/// `line` with every `+` turned into a space, except the one at position
/// `keep` (no position is kept when `keep` is negative).
pub open spec fn unplus_line(line: Seq<char>, keep: int) -> Seq<char> {
    Seq::new(line.len(), |x: int| if line[x] == '+' && x != keep { ' ' } else { line[x] })
}

/// Every `+` turned into a space.
pub open spec fn unplus(s: Seq<char>) -> Seq<char> {
    unplus_line(s, -1)
}

proof fn lemma_unplus_concat(a: Seq<char>, b: Seq<char>)
    ensures
        unplus(a + b) == unplus(a) + unplus(b),
{
    assert(unplus(a + b) =~= unplus(a) + unplus(b));
}

proof fn lemma_join_concat(a: Seq<Seq<char>>, b: Seq<Seq<char>>)
    ensures
        join_lines(a + b) == join_lines(a) + join_lines(b),
    decreases b.len(),
{
    if b.len() == 0 {
        assert(a + b =~= a);
        assert(join_lines(a) + join_lines(b) =~= join_lines(a));
    } else {
        lemma_join_concat(a, b.drop_last());
        assert((a + b).drop_last() =~= a + b.drop_last());
        assert(join_lines(a) + join_lines(b) =~= join_lines(a) + join_lines(b.drop_last()) + b.last());
    }
}

proof fn lemma_join_two(x: Seq<char>, y: Seq<char>)
    ensures
        join_lines(seq![x, y]) == x + y,
{
    lemma_join_one(x);
    assert(seq![x, y].drop_last() =~= seq![x]);
}

proof fn lemma_join_one(x: Seq<char>)
    ensures
        join_lines(seq![x]) == x,
{
    assert(seq![x].drop_last() =~= Seq::<Seq<char>>::empty());
    assert(join_lines(seq![x].drop_last()) =~= Seq::<char>::empty());
    assert(join_lines(Seq::<Seq<char>>::empty()) + x =~= x);
}

proof fn lemma_body_join(mat: Seq<Vec<(bool, bool)>>, k: nat, wall: Seq<char>, open: Seq<char>)
    ensures
        join_lines(body_line_list(mat, k, wall, open)) == body_lines(mat, k, wall, open),
        body_line_list(mat, k, wall, open).len() == 2 * k,
        forall|j: int| 0 <= j < k ==> #[trigger] body_line_list(mat, k, wall, open)[2 * j] == cell_line(mat, j),
        forall|j: int|
            0 <= j < k ==> #[trigger] body_line_list(mat, k, wall, open)[2 * j + 1] == floor_line(mat, j, wall, open),
    decreases k,
{
    if k > 0 {
        let k1 = (k - 1) as nat;
        lemma_body_join(mat, k1, wall, open);
        let a = body_line_list(mat, k1, wall, open);
        let b = seq![cell_line(mat, k - 1), floor_line(mat, k - 1, wall, open)];
        lemma_join_concat(a, b);
        lemma_join_two(b[0], b[1]);
        let l = body_line_list(mat, k, wall, open);
        assert(l == a + b);
        assert forall|j: int| 0 <= j < k implies #[trigger] l[2 * j] == cell_line(mat, j) by {
            if j < k1 {
                assert(l[2 * j] == a[2 * j]);
            } else {
                assert(l[2 * j] == b[0]);
            }
        }
        assert forall|j: int| 0 <= j < k implies #[trigger] l[2 * j + 1] == floor_line(mat, j, wall, open) by {
            if j < k1 {
                assert(l[2 * j + 1] == a[2 * j + 1]);
            } else {
                assert(l[2 * j + 1] == b[1]);
            }
        }
    }
}

/// The picture is its lines written one after the other.
proof fn lemma_picture_join(mat: Seq<Vec<(bool, bool)>>, seg: Seq<char>, open: Seq<char>, end: Seq<char>)
    ensures
        maze_picture(mat, seg, open, end) == join_lines(picture_lines(mat, seg, open, end)),
{
    let border = border_line(columns(mat), seg, end);
    let body = body_line_list(mat, (rows(mat) - 1) as nat, seg, open);
    let tail = seq![cell_line(mat, rows(mat) - 1), border];
    lemma_body_join(mat, (rows(mat) - 1) as nat, seg, open);
    lemma_join_concat(seq![border] + body, tail);
    lemma_join_concat(seq![border], body);
    lemma_join_two(tail[0], tail[1]);
    lemma_join_one(border);
}

proof fn lemma_unplus_repeat(m: nat)
    ensures
        unplus(repeat_seg("+-"@, m)) == repeat_seg(" -"@, m),
    decreases m,
{
    reveal_strlit("+-");
    reveal_strlit(" -");
    if m > 0 {
        lemma_unplus_repeat((m - 1) as nat);
        lemma_unplus_concat(repeat_seg("+-"@, (m - 1) as nat), "+-"@);
        assert(unplus("+-"@) =~= " -"@);
    }
}

proof fn lemma_unplus_below(mat: Seq<Vec<(bool, bool)>>, j: int, k: nat)
    ensures
        unplus(below_segments(mat, j, k, "+-"@, "+ "@)) == below_segments(mat, j, k, " -"@, "  "@),
    decreases k,
{
    reveal_strlit("+-");
    reveal_strlit(" -");
    reveal_strlit("+ ");
    reveal_strlit("  ");
    if k > 0 {
        lemma_unplus_below(mat, j, (k - 1) as nat);
        let seg = if wall_below(mat, k - 1, j) { "+-"@ } else { "+ "@ };
        lemma_unplus_concat(below_segments(mat, j, (k - 1) as nat, "+-"@, "+ "@), seg);
        assert(unplus("+-"@) =~= " -"@);
        assert(unplus("+ "@) =~= "  "@);
    }
}

proof fn lemma_unplus_right(mat: Seq<Vec<(bool, bool)>>, j: int, k: nat)
    ensures
        unplus(right_segments(mat, j, k)) == right_segments(mat, j, k),
    decreases k,
{
    reveal_strlit("| ");
    reveal_strlit("  ");
    if k > 0 {
        lemma_unplus_right(mat, j, (k - 1) as nat);
        let seg = if wall_right(mat, k - 1, j) { "| "@ } else { "  "@ };
        lemma_unplus_concat(right_segments(mat, j, (k - 1) as nat), seg);
        assert(unplus("| "@) =~= "| "@);
        assert(unplus("  "@) =~= "  "@);
    }
}

proof fn lemma_unplus_cell_line(mat: Seq<Vec<(bool, bool)>>, j: int)
    ensures
        unplus(cell_line(mat, j)) == cell_line(mat, j),
{
    reveal_strlit("| ");
    reveal_strlit("|\n");
    let r = right_segments(mat, j, (columns(mat) - 1) as nat);
    lemma_unplus_right(mat, j, (columns(mat) - 1) as nat);
    lemma_unplus_concat("| "@, r);
    lemma_unplus_concat("| "@ + r, "|\n"@);
    assert(unplus("| "@) =~= "| "@);
    assert(unplus("|\n"@) =~= "|\n"@);
}

/// The plain picture is the `+` picture with every `+` turned into a space,
/// except the `+` that ends each line of walls below a row (lines 2, 4, ...
/// up to the line before the last): both pictures have the same lines, of
/// the same lengths.
pub proof fn lemma_plain_picture_from_plus(mat: Seq<Vec<(bool, bool)>>)
    requires
        picture_wf(mat),
    ensures
        maze_picture(mat, " -"@, "  "@, " "@) == join_lines(picture_lines(mat, " -"@, "  "@, " "@)),
        maze_picture(mat, "+-"@, "+ "@, "+"@) == join_lines(picture_lines(mat, "+-"@, "+ "@, "+"@)),
        picture_lines(mat, " -"@, "  "@, " "@).len() == picture_lines(mat, "+-"@, "+ "@, "+"@).len(),
        forall|l: int|
            0 <= l < picture_lines(mat, "+-"@, "+ "@, "+"@).len() ==> #[trigger] picture_lines(
                mat,
                " -"@,
                "  "@,
                " "@,
            )[l] == unplus_line(
                picture_lines(mat, "+-"@, "+ "@, "+"@)[l],
                if 0 < l < picture_lines(mat, "+-"@, "+ "@, "+"@).len() - 1 && l % 2 == 0 {
                    picture_lines(mat, "+-"@, "+ "@, "+"@)[l].len() - 2
                } else {
                    -1
                },
            ),
{
    reveal_strlit("+");
    reveal_strlit(" ");
    reveal_strlit("\n");
    reveal_strlit("+\n");
    lemma_picture_join(mat, " -"@, "  "@, " "@);
    lemma_picture_join(mat, "+-"@, "+ "@, "+"@);
    let m = columns(mat);
    let n = rows(mat);
    let k = (n - 1) as nat;
    let q = picture_lines(mat, " -"@, "  "@, " "@);
    let p = picture_lines(mat, "+-"@, "+ "@, "+"@);
    lemma_body_join(mat, k, " -"@, "  "@);
    lemma_body_join(mat, k, "+-"@, "+ "@);
    let qb = body_line_list(mat, k, " -"@, "  "@);
    let pb = body_line_list(mat, k, "+-"@, "+ "@);
    // the border lines
    let qborder = border_line(m, " -"@, " "@);
    let pborder = border_line(m, "+-"@, "+"@);
    assert(unplus(pborder) == qborder) by {
        lemma_unplus_repeat(m);
        lemma_unplus_concat(repeat_seg("+-"@, m), "+"@);
        lemma_unplus_concat(repeat_seg("+-"@, m) + "+"@, "\n"@);
        assert(unplus("+"@) =~= " "@);
        assert(unplus("\n"@) =~= "\n"@);
    }
    assert forall|l: int| 0 <= l < p.len() implies #[trigger] q[l] == unplus_line(
        p[l],
        if 0 < l < p.len() - 1 && l % 2 == 0 {
            p[l].len() - 2
        } else {
            -1
        },
    ) by {
        if l == 0 || l == p.len() - 1 {
            assert(q[l] == qborder);
            assert(p[l] == pborder);
        } else if l == p.len() - 2 {
            assert(q[l] == cell_line(mat, n - 1));
            assert(p[l] == cell_line(mat, n - 1));
            lemma_unplus_cell_line(mat, n - 1);
        } else if l % 2 == 1 {
            let j = (l - 1) / 2;
            assert(q[l] == qb[2 * j]);
            assert(p[l] == pb[2 * j]);
            lemma_unplus_cell_line(mat, j);
        } else {
            let j = (l - 2) / 2;
            assert(q[l] == qb[2 * j + 1]);
            assert(p[l] == pb[2 * j + 1]);
            let pbel = below_segments(mat, j, m, "+-"@, "+ "@);
            let qbel = below_segments(mat, j, m, " -"@, "  "@);
            lemma_unplus_below(mat, j, m);
            assert(p[l] == pbel + "+\n"@);
            assert(q[l] == qbel + "+\n"@);
            assert(unplus_line(pbel + "+\n"@, (pbel + "+\n"@).len() - 2) =~= unplus(pbel) + "+\n"@);
        }
    }
}

/// The segments of the first `k` columns take two characters each, and the
/// segment at column `i` reads the wall right of cell `(i, j)`.
proof fn lemma_right_segments_read(mat: Seq<Vec<(bool, bool)>>, j: int, k: nat)
    ensures
        right_segments(mat, j, k).len() == 2 * k,
        forall|i: int|
            0 <= i < k ==> #[trigger] right_segments(mat, j, k).subrange(2 * i, 2 * i + 2) == if wall_right(
                mat,
                i,
                j,
            ) {
                "| "@
            } else {
                "  "@
            },
    decreases k,
{
    reveal_strlit("| ");
    reveal_strlit("  ");
    if k > 0 {
        let k1 = (k - 1) as nat;
        lemma_right_segments_read(mat, j, k1);
        let a = right_segments(mat, j, k1);
        let r = right_segments(mat, j, k);
        assert forall|i: int| 0 <= i < k implies #[trigger] r.subrange(2 * i, 2 * i + 2) == if wall_right(mat, i, j) {
            "| "@
        } else {
            "  "@
        } by {
            if i < k1 {
                assert(r.subrange(2 * i, 2 * i + 2) =~= a.subrange(2 * i, 2 * i + 2));
            } else {
                let seg = if wall_right(mat, i, j) { "| "@ } else { "  "@ };
                assert(r.subrange(2 * i, 2 * i + 2) =~= seg);
            }
        }
    }
}

/// The segments of the first `k` columns take two characters each, and the
/// segment at column `i` reads the wall below cell `(i, j)`.
proof fn lemma_below_segments_read(mat: Seq<Vec<(bool, bool)>>, j: int, k: nat, wall: Seq<char>, open: Seq<char>)
    requires
        wall.len() == 2,
        open.len() == 2,
    ensures
        below_segments(mat, j, k, wall, open).len() == 2 * k,
        forall|i: int|
            0 <= i < k ==> #[trigger] below_segments(mat, j, k, wall, open).subrange(2 * i, 2 * i + 2) == if wall_below(
                mat,
                i,
                j,
            ) {
                wall
            } else {
                open
            },
    decreases k,
{
    if k > 0 {
        let k1 = (k - 1) as nat;
        lemma_below_segments_read(mat, j, k1, wall, open);
        let a = below_segments(mat, j, k1, wall, open);
        let r = below_segments(mat, j, k, wall, open);
        assert forall|i: int| 0 <= i < k implies #[trigger] r.subrange(2 * i, 2 * i + 2) == if wall_below(mat, i, j) {
            wall
        } else {
            open
        } by {
            if i < k1 {
                assert(r.subrange(2 * i, 2 * i + 2) =~= a.subrange(2 * i, 2 * i + 2));
            } else {
                let seg = if wall_below(mat, i, j) { wall } else { open };
                assert(r.subrange(2 * i, 2 * i + 2) =~= seg);
            }
        }
    }
}

/// The picture shows the maze's walls where they are. Its lines are, in
/// order, a border line, then for each row `j` a line of cells (line
/// `2j + 1`) and, for every row but the last, a line of walls below it (line
/// `2j + 2`), then the border line again; every line is `2 * columns + 2`
/// characters long with its newline. In the line of cells of row `j`, the two
/// characters after the leading `"| "` for column `i` (every column but the
/// last) are `"| "` exactly when there is a wall right of cell `(i, j)`, two
/// spaces otherwise; in the line of walls below row `j`, the two characters
/// for column `i` are `seg` exactly when there is a wall below cell
/// `(i, j)`, `open` otherwise.
pub proof fn lemma_picture_shows_walls(mat: Seq<Vec<(bool, bool)>>, seg: Seq<char>, open: Seq<char>, end: Seq<char>)
    requires
        picture_wf(mat),
        seg.len() == 2,
        open.len() == 2,
        end.len() == 1,
    ensures
        maze_picture(mat, seg, open, end) == join_lines(picture_lines(mat, seg, open, end)),
        picture_lines(mat, seg, open, end).len() == 2 * rows(mat) + 1,
        forall|l: int|
            0 <= l < picture_lines(mat, seg, open, end).len() ==> #[trigger] picture_lines(mat, seg, open, end)[l].len()
                == 2 * columns(mat) + 2,
        picture_lines(mat, seg, open, end)[0] == border_line(columns(mat), seg, end),
        picture_lines(mat, seg, open, end)[2 * rows(mat) as int] == border_line(columns(mat), seg, end),
        forall|j: int, i: int|
            0 <= j < rows(mat) && 0 <= i < columns(mat) - 1 ==> #[trigger] picture_lines(mat, seg, open, end)[2 * j
                + 1].subrange(2 * i + 2, 2 * i + 4) == if wall_right(mat, i, j) {
                "| "@
            } else {
                "  "@
            },
        forall|j: int, i: int|
            0 <= j < rows(mat) - 1 && 0 <= i < columns(mat) ==> #[trigger] picture_lines(mat, seg, open, end)[2 * j
                + 2].subrange(2 * i, 2 * i + 2) == if wall_below(mat, i, j) {
                seg
            } else {
                open
            },
{
    reveal_strlit("| ");
    reveal_strlit("|\n");
    reveal_strlit("+\n");
    reveal_strlit("\n");
    lemma_picture_join(mat, seg, open, end);
    let m = columns(mat);
    let n = rows(mat);
    let k = (n - 1) as nat;
    let lines = picture_lines(mat, seg, open, end);
    let body = body_line_list(mat, k, seg, open);
    lemma_body_join(mat, k, seg, open);
    assert(lines.len() == 2 * n + 1);
    assert(lines[0] == border_line(m, seg, end));
    assert(lines[2 * n as int] == border_line(m, seg, end));
    assert forall|j: int| 0 <= j < n implies #[trigger] lines[2 * j + 1] == cell_line(mat, j) by {
        if j < k {
            assert(lines[2 * j + 1] == body[2 * j]);
        }
    }
    assert forall|j: int| 0 <= j < n - 1 implies #[trigger] lines[2 * j + 2] == floor_line(mat, j, seg, open) by {
        assert(lines[2 * j + 2] == body[2 * j + 1]);
    }
    assert(repeat_seg(seg, m).len() == 2 * m) by {
        lemma_repeat_len(seg, m);
    }
    assert forall|l: int| 0 <= l < lines.len() implies #[trigger] lines[l].len() == 2 * m + 2 by {
        if l == 0 || l == 2 * n {
        } else if l % 2 == 1 {
            let j = (l - 1) / 2;
            assert(lines[2 * j + 1] == cell_line(mat, j));
            lemma_right_segments_read(mat, j, (m - 1) as nat);
        } else {
            let j = (l - 2) / 2;
            assert(lines[2 * j + 2] == floor_line(mat, j, seg, open));
            lemma_below_segments_read(mat, j, m, seg, open);
        }
    }
    assert forall|j: int, i: int| 0 <= j < n && 0 <= i < m - 1 implies #[trigger] lines[2 * j + 1].subrange(
        2 * i + 2,
        2 * i + 4,
    ) == if wall_right(mat, i, j) {
        "| "@
    } else {
        "  "@
    } by {
        assert(lines[2 * j + 1] == cell_line(mat, j));
        lemma_right_segments_read(mat, j, (m - 1) as nat);
        let r = right_segments(mat, j, (m - 1) as nat);
        assert(cell_line(mat, j).subrange(2 * i + 2, 2 * i + 4) =~= r.subrange(2 * i, 2 * i + 2));
    }
    assert forall|j: int, i: int| 0 <= j < n - 1 && 0 <= i < m implies #[trigger] lines[2 * j + 2].subrange(
        2 * i,
        2 * i + 2,
    ) == if wall_below(mat, i, j) {
        seg
    } else {
        open
    } by {
        assert(lines[2 * j + 2] == floor_line(mat, j, seg, open));
        lemma_below_segments_read(mat, j, m, seg, open);
        let r = below_segments(mat, j, m, seg, open);
        assert(floor_line(mat, j, seg, open).subrange(2 * i, 2 * i + 2) =~= r.subrange(2 * i, 2 * i + 2));
    }
}

proof fn lemma_repeat_len(seg: Seq<char>, m: nat)
    ensures
        repeat_seg(seg, m).len() == seg.len() * m,
    decreases m,
{
    if m > 0 {
        let m1 = (m - 1) as nat;
        lemma_repeat_len(seg, m1);
        let l = seg.len();
        assert(l * m1 + l == l * m) by (nonlinear_arith)
            requires
                m1 + 1 == m,
        ;
        assert(repeat_seg(seg, m) == repeat_seg(seg, m1) + seg);
    } else {
        let l = seg.len();
        assert(l * 0 == 0) by (nonlinear_arith);
    }
}

/// The two pictures the game prints show the maze's walls where they are
/// (see `lemma_picture_shows_walls`).
pub proof fn lemma_printed_pictures_show_walls(mat: Seq<Vec<(bool, bool)>>)
    requires
        picture_wf(mat),
    ensures
        forall|j: int, i: int|
            0 <= j < rows(mat) && 0 <= i < columns(mat) - 1 ==> #[trigger] picture_lines(mat, " -"@, "  "@, " "@)[2
                * j + 1].subrange(2 * i + 2, 2 * i + 4) == if wall_right(mat, i, j) {
                "| "@
            } else {
                "  "@
            },
        forall|j: int, i: int|
            0 <= j < rows(mat) && 0 <= i < columns(mat) - 1 ==> #[trigger] picture_lines(mat, "+-"@, "+ "@, "+"@)[2
                * j + 1].subrange(2 * i + 2, 2 * i + 4) == if wall_right(mat, i, j) {
                "| "@
            } else {
                "  "@
            },
        forall|j: int, i: int|
            0 <= j < rows(mat) - 1 && 0 <= i < columns(mat) ==> #[trigger] picture_lines(mat, " -"@, "  "@, " "@)[2
                * j + 2].subrange(2 * i, 2 * i + 2) == if wall_below(mat, i, j) {
                " -"@
            } else {
                "  "@
            },
        forall|j: int, i: int|
            0 <= j < rows(mat) - 1 && 0 <= i < columns(mat) ==> #[trigger] picture_lines(mat, "+-"@, "+ "@, "+"@)[2
                * j + 2].subrange(2 * i, 2 * i + 2) == if wall_below(mat, i, j) {
                "+-"@
            } else {
                "+ "@
            },
        maze_picture(mat, " -"@, "  "@, " "@) == join_lines(picture_lines(mat, " -"@, "  "@, " "@)),
        maze_picture(mat, "+-"@, "+ "@, "+"@) == join_lines(picture_lines(mat, "+-"@, "+ "@, "+"@)),
{
    reveal_strlit(" -");
    reveal_strlit("  ");
    reveal_strlit(" ");
    reveal_strlit("+-");
    reveal_strlit("+ ");
    reveal_strlit("+");
    lemma_picture_shows_walls(mat, " -"@, "  "@, " "@);
    lemma_picture_shows_walls(mat, "+-"@, "+ "@, "+"@);
}

} // verus!
