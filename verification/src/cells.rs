//! The cell graph of a maze: cells addressed by index, adjacency, carved
//! passages, and connectivity through them.
//!
//! A maze of `w` by `h` cells numbers its cells row-major: cell `c` sits at
//! column `c % w`, row `c / w`, and its interior is the rendered tile
//! `(2·col + 1, 2·row + 1)`. Two adjacent cells are joined by a passage
//! when the tile exactly between their interiors is walkable.

use vstd::prelude::*;

use crate::maze::{in_grid, tile_walk, Tile};

verus! {

/// A valid cell index of a `w` by `h` maze.
pub open spec fn valid_cell(w: int, h: int, c: int) -> bool {
    0 <= c < w * h
}

/// The column of cell `c`.
pub open spec fn cell_col(w: int, c: int) -> int {
    c % w
}

/// The row of cell `c`.
pub open spec fn cell_row(w: int, c: int) -> int {
    c / w
}

/// Cells `a` and `b` are distinct neighbours: side by side in one row, or
/// one above the other in one column.
pub open spec fn cell_adjacent(w: int, h: int, a: int, b: int) -> bool {
    &&& valid_cell(w, h, a)
    &&& valid_cell(w, h, b)
    &&& {
        ||| (cell_row(w, a) == cell_row(w, b) && (cell_col(w, a) + 1 == cell_col(w, b)
            || cell_col(w, b) + 1 == cell_col(w, a)))
        ||| (cell_col(w, a) == cell_col(w, b) && (cell_row(w, a) + 1 == cell_row(w, b)
            || cell_row(w, b) + 1 == cell_row(w, a)))
    }
}

/// The x coordinate of the tile between the interiors of adjacent cells
/// `a` and `b`: the average of `2·col(a)+1` and `2·col(b)+1`.
pub open spec fn mid_x(w: int, a: int, b: int) -> int {
    cell_col(w, a) + cell_col(w, b) + 1
}

/// The y coordinate of the tile between the interiors of adjacent cells.
pub open spec fn mid_y(w: int, a: int, b: int) -> int {
    cell_row(w, a) + cell_row(w, b) + 1
}

/// A carved passage joins `a` and `b`: they are adjacent and the tile
/// between them is walkable.
pub open spec fn passage(g: Seq<Vec<Tile>>, w: int, h: int, a: int, b: int) -> bool {
    cell_adjacent(w, h, a, b) && tile_walk(g, mid_x(w, a, b), mid_y(w, a, b))
}

/// A walk through the cell graph: a nonempty run of cells, each joined to
/// the next by a carved passage.
pub open spec fn is_path(g: Seq<Vec<Tile>>, w: int, h: int, p: Seq<int>) -> bool
    decreases p.len(),
{
    if p.len() == 0 {
        false
    } else if p.len() == 1 {
        valid_cell(w, h, p[0])
    } else {
        passage(g, w, h, p[0], p[1]) && is_path(g, w, h, p.drop_first())
    }
}

/// Cells `a` and `b` are joined by some run of carved passages.
pub open spec fn connected(g: Seq<Vec<Tile>>, w: int, h: int, a: int, b: int) -> bool {
    exists|p: Seq<int>| #[trigger] is_path(g, w, h, p) && p.first() == a && p.last() == b
}

/// A cell's column and row lie inside the maze.
pub proof fn lemma_cell_bounds(w: int, h: int, c: int)
    requires
        1 <= w,
        1 <= h,
        valid_cell(w, h, c),
    ensures
        0 <= cell_col(w, c) < w,
        0 <= cell_row(w, c) < h,
        c == cell_row(w, c) * w + cell_col(w, c),
{
    assert(0 <= c % w < w) by (nonlinear_arith)
        requires 1 <= w && 0 <= c;
    assert(c == (c / w) * w + c % w) by (nonlinear_arith)
        requires 1 <= w;
    assert(0 <= c / w) by (nonlinear_arith)
        requires 1 <= w && 0 <= c;
    assert(c / w < h) by (nonlinear_arith)
        requires 1 <= w && 1 <= h && c < w * h;
}

/// A column and a row name one cell: its index is back in range and has
/// that column and that row.
pub proof fn lemma_cell_id(w: int, h: int, col: int, row: int)
    requires
        1 <= w,
        1 <= h,
        0 <= col < w,
        0 <= row < h,
    ensures
        valid_cell(w, h, row * w + col),
        cell_col(w, row * w + col) == col,
        cell_row(w, row * w + col) == row,
{
    assert((row * w + col) % w == col) by (nonlinear_arith)
        requires 1 <= w && 0 <= col < w && 0 <= row;
    assert((row * w + col) / w == row) by (nonlinear_arith)
        requires 1 <= w && 0 <= col < w && 0 <= row;
    assert(0 <= row * w + col < w * h) by (nonlinear_arith)
        requires 1 <= w && 0 <= col < w && 0 <= row < h;
}

/// The tile between two adjacent cells lies strictly inside the rendered
/// grid, and at a slot with exactly one odd coordinate.
pub proof fn lemma_mid_in_grid(w: int, h: int, a: int, b: int)
    requires
        1 <= w,
        1 <= h,
        cell_adjacent(w, h, a, b),
    ensures
        in_grid(2 * w + 1, 2 * h + 1, mid_x(w, a, b), mid_y(w, a, b)),
        0 < mid_x(w, a, b) < 2 * w,
        0 < mid_y(w, a, b) < 2 * h,
        (mid_x(w, a, b) % 2 == 0) != (mid_y(w, a, b) % 2 == 0),
{
    lemma_cell_bounds(w, h, a);
    lemma_cell_bounds(w, h, b);
}

/// The tile between two adjacent cells determines the pair: two adjacent
/// pairs with the same between-tile are the same two cells.
pub proof fn lemma_mid_injective(w: int, h: int, a: int, b: int, a2: int, b2: int)
    requires
        1 <= w,
        1 <= h,
        cell_adjacent(w, h, a, b),
        cell_adjacent(w, h, a2, b2),
        mid_x(w, a, b) == mid_x(w, a2, b2),
        mid_y(w, a, b) == mid_y(w, a2, b2),
    ensures
        (a2 == a && b2 == b) || (a2 == b && b2 == a),
{
    lemma_cell_bounds(w, h, a);
    lemma_cell_bounds(w, h, b);
    lemma_cell_bounds(w, h, a2);
    lemma_cell_bounds(w, h, b2);
}

/// A one-cell path: every valid cell is connected to itself.
pub proof fn lemma_connected_refl(g: Seq<Vec<Tile>>, w: int, h: int, a: int)
    requires
        valid_cell(w, h, a),
    ensures
        connected(g, w, h, a, a),
{
    let p = seq![a];
    assert(is_path(g, w, h, p));
}

/// A two-cell path: a carved passage connects its two cells.
pub proof fn lemma_connected_step(g: Seq<Vec<Tile>>, w: int, h: int, a: int, b: int)
    requires
        passage(g, w, h, a, b),
    ensures
        connected(g, w, h, a, b),
{
    let p = seq![a, b];
    assert(is_path(g, w, h, seq![b]));
    assert(p.drop_first() =~= seq![b]);
    assert(is_path(g, w, h, p));
}

/// Two walks that meet end to start join into one walk.
pub proof fn lemma_path_concat(g: Seq<Vec<Tile>>, w: int, h: int, p1: Seq<int>, p2: Seq<int>)
    requires
        is_path(g, w, h, p1),
        is_path(g, w, h, p2),
        p1.last() == p2.first(),
    ensures
        is_path(g, w, h, p1 + p2.drop_first()),
        (p1 + p2.drop_first()).first() == p1.first(),
        (p1 + p2.drop_first()).last() == p2.last(),
    decreases p1.len(),
{
    if p1.len() == 1 {
        assert(p1 + p2.drop_first() =~= p2);
    } else {
        lemma_path_concat(g, w, h, p1.drop_first(), p2);
        assert((p1 + p2.drop_first()).drop_first() =~= p1.drop_first() + p2.drop_first());
        assert((p1 + p2.drop_first())[0] == p1[0]);
        assert((p1 + p2.drop_first())[1] == (if p1.len() == 1 {
            p2.drop_first()[0]
        } else {
            p1[1]
        }));
    }
}

/// Connectivity runs through intermediate cells.
pub proof fn lemma_connected_trans(g: Seq<Vec<Tile>>, w: int, h: int, a: int, b: int, c: int)
    requires
        connected(g, w, h, a, b),
        connected(g, w, h, b, c),
    ensures
        connected(g, w, h, a, c),
{
    let p1 = choose|p: Seq<int>| #[trigger] is_path(g, w, h, p) && p.first() == a && p.last() == b;
    let p2 = choose|p: Seq<int>| #[trigger] is_path(g, w, h, p) && p.first() == b && p.last() == c;
    lemma_path_concat(g, w, h, p1, p2);
}

/// A walk read backwards is a walk: connectivity is symmetric.
pub proof fn lemma_path_reverse(g: Seq<Vec<Tile>>, w: int, h: int, p: Seq<int>)
    requires
        is_path(g, w, h, p),
    ensures
        connected(g, w, h, p.last(), p.first()),
    decreases p.len(),
{
    if p.len() == 1 {
        lemma_connected_refl(g, w, h, p.first());
    } else {
        lemma_path_reverse(g, w, h, p.drop_first());
        assert(p.drop_first().last() == p.last());
        assert(passage(g, w, h, p[1], p[0]));
        lemma_connected_step(g, w, h, p[1], p[0]);
        lemma_connected_trans(g, w, h, p.last(), p[1], p[0]);
    }
}

/// Connectivity is symmetric.
pub proof fn lemma_connected_sym(g: Seq<Vec<Tile>>, w: int, h: int, a: int, b: int)
    requires
        connected(g, w, h, a, b),
    ensures
        connected(g, w, h, b, a),
{
    let p = choose|p: Seq<int>| #[trigger] is_path(g, w, h, p) && p.first() == a && p.last() == b;
    lemma_path_reverse(g, w, h, p);
}

/// A walk stays a walk on any grid that keeps every walkable interior
/// tile walkable.
pub proof fn lemma_path_mono(
    g1: Seq<Vec<Tile>>,
    g2: Seq<Vec<Tile>>,
    w: int,
    h: int,
    p: Seq<int>,
)
    requires
        1 <= w,
        1 <= h,
        is_path(g1, w, h, p),
        forall|x: int, y: int|
            in_grid(2 * w + 1, 2 * h + 1, x, y) && tile_walk(g1, x, y) ==> #[trigger] tile_walk(
                g2,
                x,
                y,
            ),
    ensures
        is_path(g2, w, h, p),
    decreases p.len(),
{
    if p.len() > 1 {
        lemma_mid_in_grid(w, h, p[0], p[1]);
        lemma_path_mono(g1, g2, w, h, p.drop_first());
    }
}

/// A passage slot of the rendered grid: exactly one coordinate odd. Every
/// walkable tile at such a slot is a carved passage between two cells.
pub open spec fn is_passage_pos(x: int, y: int) -> bool {
    (x % 2 == 0) != (y % 2 == 0)
}

/// How many walkable passage-slot tiles row `y` of the grid holds.
pub open spec fn row_passages(row: Seq<Tile>, y: int) -> int
    decreases row.len(),
{
    if row.len() == 0 {
        0
    } else {
        row_passages(row.drop_last(), y) + if is_passage_pos(row.len() - 1, y)
            && row.last().walkable {
            1int
        } else {
            0int
        }
    }
}

/// How many walkable passage-slot tiles the grid holds: the number of
/// carved passages.
pub open spec fn grid_passages(g: Seq<Vec<Tile>>) -> int
    decreases g.len(),
{
    if g.len() == 0 {
        0
    } else {
        grid_passages(g.drop_last()) + row_passages(g.last()@, g.len() - 1)
    }
}

/// Replacing one tile of a row changes its passage count by the one
/// tile's contribution.
pub proof fn lemma_row_passages_update(row: Seq<Tile>, y: int, x: int, t: Tile)
    requires
        0 <= x < row.len(),
    ensures
        row_passages(row.update(x, t), y) == row_passages(row, y) + (if is_passage_pos(x, y) {
            (if t.walkable {
                1int
            } else {
                0int
            }) - (if row[x].walkable {
                1int
            } else {
                0int
            })
        } else {
            0int
        }),
    decreases row.len(),
{
    let r2 = row.update(x, t);
    assert(r2.len() == row.len());
    if x == row.len() - 1 {
        assert(r2.drop_last() =~= row.drop_last());
        assert(r2.last() == t);
    } else {
        lemma_row_passages_update(row.drop_last(), y, x, t);
        assert(r2.drop_last() =~= row.drop_last().update(x, t));
        assert(r2.last() == row.last());
    }
}

/// Replacing one row of the grid swaps its contribution to the passage
/// count.
pub proof fn lemma_grid_passages_update(g: Seq<Vec<Tile>>, y: int, r: Vec<Tile>)
    requires
        0 <= y < g.len(),
    ensures
        grid_passages(g.update(y, r)) == grid_passages(g) - row_passages(g[y]@, y) + row_passages(
            r@,
            y,
        ),
    decreases g.len(),
{
    let g2 = g.update(y, r);
    assert(g2.len() == g.len());
    if y == g.len() - 1 {
        assert(g2.drop_last() =~= g.drop_last());
        assert(g2.last() == r);
    } else {
        lemma_grid_passages_update(g.drop_last(), y, r);
        assert(g2.drop_last() =~= g.drop_last().update(y, r));
        assert(g2.last() == g.last());
    }
}

/// Two rows with the same walkability everywhere hold the same number of
/// passages.
pub proof fn lemma_row_passages_same_walk(r1: Seq<Tile>, r2: Seq<Tile>, y: int)
    requires
        r1.len() == r2.len(),
        forall|x: int| 0 <= x < r1.len() ==> (#[trigger] r1[x]).walkable == r2[x].walkable,
    ensures
        row_passages(r1, y) == row_passages(r2, y),
    decreases r1.len(),
{
    if r1.len() > 0 {
        assert forall|x: int| 0 <= x < r1.len() - 1 implies (#[trigger] r1.drop_last()[x]).walkable
            == r2.drop_last()[x].walkable by {
            assert(r1[x].walkable == r2[x].walkable);
        }
        lemma_row_passages_same_walk(r1.drop_last(), r2.drop_last(), y);
        assert(r1[r1.len() - 1].walkable == r2[r1.len() - 1].walkable);
    }
}

/// Two grids with the same walkability everywhere hold the same number of
/// passages.
pub proof fn lemma_grid_passages_same_walk(g1: Seq<Vec<Tile>>, g2: Seq<Vec<Tile>>)
    requires
        g1.len() == g2.len(),
        forall|y: int| 0 <= y < g1.len() ==> (#[trigger] g1[y])@.len() == g2[y]@.len(),
        forall|x: int, y: int|
            0 <= y < g1.len() && 0 <= x < g1[y]@.len() ==> #[trigger] tile_walk(g1, x, y)
                == tile_walk(g2, x, y),
    ensures
        grid_passages(g1) == grid_passages(g2),
    decreases g1.len(),
{
    if g1.len() > 0 {
        let m = g1.len() - 1;
        assert forall|x: int, y: int|
            0 <= y < m && 0 <= x < g1.drop_last()[y]@.len() implies #[trigger] tile_walk(
            g1.drop_last(),
            x,
            y,
        ) == tile_walk(g2.drop_last(), x, y) by {
            assert(tile_walk(g1, x, y) == tile_walk(g2, x, y));
        }
        lemma_grid_passages_same_walk(g1.drop_last(), g2.drop_last());
        assert forall|x: int| 0 <= x < g1[m]@.len() implies (#[trigger] g1[m]@[x]).walkable
            == g2[m]@[x].walkable by {
            assert(tile_walk(g1, x, m) == tile_walk(g2, x, m));
        }
        lemma_row_passages_same_walk(g1.last()@, g2.last()@, m);
    }
}

/// A row none of whose passage slots is walkable holds no passage.
pub proof fn lemma_row_passages_zero(row: Seq<Tile>, y: int)
    requires
        forall|x: int|
            0 <= x < row.len() && is_passage_pos(x, y) ==> !(#[trigger] row[x]).walkable,
    ensures
        row_passages(row, y) == 0,
    decreases row.len(),
{
    if row.len() > 0 {
        lemma_row_passages_zero(row.drop_last(), y);
    }
}

/// A grid none of whose passage slots is walkable holds no passage.
pub proof fn lemma_grid_passages_zero(g: Seq<Vec<Tile>>)
    requires
        forall|x: int, y: int|
            0 <= y < g.len() && 0 <= x < g[y]@.len() && is_passage_pos(x, y) ==> !#[trigger]
            tile_walk(g, x, y),
    ensures
        grid_passages(g) == 0,
    decreases g.len(),
{
    if g.len() > 0 {
        let m = g.len() - 1;
        assert forall|x: int, y: int|
            0 <= y < m && 0 <= x < g.drop_last()[y]@.len() && is_passage_pos(x, y)
            implies !#[trigger] tile_walk(g.drop_last(), x, y) by {
            assert(!tile_walk(g, x, y));
        }
        lemma_grid_passages_zero(g.drop_last());
        assert forall|x: int|
            0 <= x < g[m]@.len() && is_passage_pos(x, m) implies !(#[trigger] g[m]@[x]).walkable by {
            assert(!tile_walk(g, x, m));
        }
        lemma_row_passages_zero(g.last()@, m);
    }
}

/// Making one wall tile at a passage slot walkable raises the passage
/// count by exactly one.
pub proof fn lemma_grid_carve_count(
    g0: Seq<Vec<Tile>>,
    g1: Seq<Vec<Tile>>,
    mx: int,
    my: int,
    t: Tile,
)
    requires
        0 <= my < g0.len(),
        0 <= mx < g0[my]@.len(),
        g1.len() == g0.len(),
        g1[my]@ =~= g0[my]@.update(mx, t),
        forall|y: int| 0 <= y < g0.len() && y != my ==> g1[y] == g0[y],
        is_passage_pos(mx, my),
        !g0[my]@[mx].walkable,
        t.walkable,
    ensures
        grid_passages(g1) == grid_passages(g0) + 1,
{
    lemma_row_passages_update(g0[my]@, my, mx, t);
    lemma_row_passages_same_walk(g1[my]@, g0[my]@.update(mx, t), my);
    assert(g1 =~= g0.update(my, g1[my]));
    lemma_grid_passages_update(g0, my, g1[my]);
}


/// The unordered step `{c, d}` is the unordered edge `{a, b}`.
pub open spec fn step_is_edge(a: int, b: int, c: int, d: int) -> bool {
    (c == a && d == b) || (c == b && d == a)
}

/// A walk that never crosses the passage between `a` and `b`, in either
/// direction.
pub open spec fn is_path_avoiding(
    g: Seq<Vec<Tile>>,
    w: int,
    h: int,
    p: Seq<int>,
    a: int,
    b: int,
) -> bool
    decreases p.len(),
{
    if p.len() == 0 {
        false
    } else if p.len() == 1 {
        valid_cell(w, h, p[0])
    } else {
        &&& passage(g, w, h, p[0], p[1])
        &&& !step_is_edge(a, b, p[0], p[1])
        &&& is_path_avoiding(g, w, h, p.drop_first(), a, b)
    }
}

/// Cells `x` and `y` are joined by carved passages without ever crossing
/// the passage between `a` and `b`.
pub open spec fn connected_avoiding(
    g: Seq<Vec<Tile>>,
    w: int,
    h: int,
    a: int,
    b: int,
    x: int,
    y: int,
) -> bool {
    exists|p: Seq<int>|
        #[trigger] is_path_avoiding(g, w, h, p, a, b) && p.first() == x && p.last() == y
}

/// The carved passages are acyclic: the two ends of any passage have no
/// second, passage-avoiding route between them. Together with
/// connectivity this makes the carved passages a spanning tree.
pub open spec fn acyclic(g: Seq<Vec<Tile>>, w: int, h: int) -> bool {
    forall|a: int, b: int|
        #[trigger] passage(g, w, h, a, b) ==> !connected_avoiding(g, w, h, a, b, a, b)
}

/// A walk avoiding an edge is a walk.
pub proof fn lemma_avoiding_is_path(
    g: Seq<Vec<Tile>>,
    w: int,
    h: int,
    p: Seq<int>,
    a: int,
    b: int,
)
    requires
        is_path_avoiding(g, w, h, p, a, b),
    ensures
        is_path(g, w, h, p),
    decreases p.len(),
{
    if p.len() > 1 {
        lemma_avoiding_is_path(g, w, h, p.drop_first(), a, b);
    }
}

/// One cell, avoiding anything: every valid cell reaches itself.
pub proof fn lemma_avoiding_refl(g: Seq<Vec<Tile>>, w: int, h: int, a: int, b: int, x: int)
    requires
        valid_cell(w, h, x),
    ensures
        connected_avoiding(g, w, h, a, b, x, x),
{
    let p = seq![x];
    assert(is_path_avoiding(g, w, h, p, a, b));
}

/// A passage other than the avoided one joins its cells, avoiding it.
pub proof fn lemma_avoiding_step(g: Seq<Vec<Tile>>, w: int, h: int, a: int, b: int, x: int, y: int)
    requires
        passage(g, w, h, x, y),
        !step_is_edge(a, b, x, y),
    ensures
        connected_avoiding(g, w, h, a, b, x, y),
{
    let p = seq![x, y];
    assert(is_path_avoiding(g, w, h, seq![y], a, b));
    assert(p.drop_first() =~= seq![y]);
    assert(is_path_avoiding(g, w, h, p, a, b));
}

/// Avoiding walks that meet end to start join into one avoiding walk.
pub proof fn lemma_avoiding_concat(
    g: Seq<Vec<Tile>>,
    w: int,
    h: int,
    a: int,
    b: int,
    p1: Seq<int>,
    p2: Seq<int>,
)
    requires
        is_path_avoiding(g, w, h, p1, a, b),
        is_path_avoiding(g, w, h, p2, a, b),
        p1.last() == p2.first(),
    ensures
        is_path_avoiding(g, w, h, p1 + p2.drop_first(), a, b),
        (p1 + p2.drop_first()).first() == p1.first(),
        (p1 + p2.drop_first()).last() == p2.last(),
    decreases p1.len(),
{
    if p1.len() == 1 {
        assert(p1 + p2.drop_first() =~= p2);
    } else {
        lemma_avoiding_concat(g, w, h, a, b, p1.drop_first(), p2);
        assert((p1 + p2.drop_first()).drop_first() =~= p1.drop_first() + p2.drop_first());
        assert((p1 + p2.drop_first())[0] == p1[0]);
        assert((p1 + p2.drop_first())[1] == p1[1]);
    }
}

/// Avoiding connectivity runs through intermediate cells.
pub proof fn lemma_avoiding_trans(
    g: Seq<Vec<Tile>>,
    w: int,
    h: int,
    a: int,
    b: int,
    x: int,
    y: int,
    z: int,
)
    requires
        connected_avoiding(g, w, h, a, b, x, y),
        connected_avoiding(g, w, h, a, b, y, z),
    ensures
        connected_avoiding(g, w, h, a, b, x, z),
{
    let p1 = choose|p: Seq<int>|
        #[trigger] is_path_avoiding(g, w, h, p, a, b) && p.first() == x && p.last() == y;
    let p2 = choose|p: Seq<int>|
        #[trigger] is_path_avoiding(g, w, h, p, a, b) && p.first() == y && p.last() == z;
    lemma_avoiding_concat(g, w, h, a, b, p1, p2);
}

/// An avoiding walk stays one on any grid that keeps every walkable
/// interior tile walkable.
pub proof fn lemma_avoiding_mono(
    g1: Seq<Vec<Tile>>,
    g2: Seq<Vec<Tile>>,
    w: int,
    h: int,
    a: int,
    b: int,
    p: Seq<int>,
)
    requires
        1 <= w,
        1 <= h,
        is_path_avoiding(g1, w, h, p, a, b),
        forall|x: int, y: int|
            in_grid(2 * w + 1, 2 * h + 1, x, y) && tile_walk(g1, x, y) ==> #[trigger] tile_walk(
                g2,
                x,
                y,
            ),
    ensures
        is_path_avoiding(g2, w, h, p, a, b),
    decreases p.len(),
{
    if p.len() > 1 {
        lemma_mid_in_grid(w, h, p[0], p[1]);
        lemma_avoiding_mono(g1, g2, w, h, a, b, p.drop_first());
    }
}


/// Any two cells of different partition labels have no carved route at
/// all: with `labels_connected`, the partitions are exactly the
/// connected components.
pub open spec fn labels_separate(g: Seq<Vec<Tile>>, w: int, h: int, lab: Seq<usize>) -> bool {
    forall|x: int, y: int|
        #![trigger lab[x], lab[y]]
        valid_cell(w, h, x) && valid_cell(w, h, y) && lab[x] != lab[y] ==> !connected(g, w, h, x, y)
}

/// A walk avoids an edge no walk can cross.
pub proof fn lemma_path_avoids_nothing(g: Seq<Vec<Tile>>, w: int, h: int, p: Seq<int>)
    requires
        is_path(g, w, h, p),
    ensures
        is_path_avoiding(g, w, h, p, -1, -2),
    decreases p.len(),
{
    if p.len() > 1 {
        lemma_path_avoids_nothing(g, w, h, p.drop_first());
    }
}

/// Avoiding connectivity is connectivity.
pub proof fn lemma_avoiding_connected(
    g: Seq<Vec<Tile>>,
    w: int,
    h: int,
    a: int,
    b: int,
    x: int,
    y: int,
)
    requires
        connected_avoiding(g, w, h, a, b, x, y),
    ensures
        connected(g, w, h, x, y),
{
    let p = choose|p: Seq<int>|
        #[trigger] is_path_avoiding(g, w, h, p, a, b) && p.first() == x && p.last() == y;
    lemma_avoiding_is_path(g, w, h, p, a, b);
}

/// In a grid with no carved passage at all, no walk leaves its cell.
pub proof fn lemma_no_passage_path(g: Seq<Vec<Tile>>, w: int, h: int, p: Seq<int>)
    requires
        is_path(g, w, h, p),
        forall|a: int, b: int| !#[trigger] passage(g, w, h, a, b),
    ensures
        p.first() == p.last(),
    decreases p.len(),
{
    if p.len() > 1 {
        assert(passage(g, w, h, p[0], p[1]));
        assert(false);
    }
}

/// A walk of the grid with one passage newly carved — between `a` and
/// `b` — that itself avoids that passage was a walk before the carve.
pub proof fn lemma_avoiding_new_edge_in_old(
    g0: Seq<Vec<Tile>>,
    g1: Seq<Vec<Tile>>,
    w: int,
    h: int,
    a: int,
    b: int,
    p: Seq<int>,
)
    requires
        1 <= w,
        1 <= h,
        cell_adjacent(w, h, a, b),
        g1.len() == g0.len(),
        forall|x: int, y: int|
            #![trigger g1[y]@[x]]
            in_grid(2 * w + 1, 2 * h + 1, x, y) && !(x == mid_x(w, a, b) && y == mid_y(w, a, b))
                ==> g1[y]@[x] == g0[y]@[x],
        is_path_avoiding(g1, w, h, p, a, b),
    ensures
        is_path_avoiding(g0, w, h, p, a, b),
    decreases p.len(),
{
    if p.len() > 1 {
        lemma_avoiding_new_edge_in_old(g0, g1, w, h, a, b, p.drop_first());
        lemma_mid_in_grid(w, h, p[0], p[1]);
        if mid_x(w, p[0], p[1]) == mid_x(w, a, b) && mid_y(w, p[0], p[1]) == mid_y(w, a, b) {
            lemma_mid_injective(w, h, a, b, p[0], p[1]);
            assert(false);
        } else {
            assert(g1[mid_y(w, p[0], p[1])]@[mid_x(w, p[0], p[1])] == g0[mid_y(w, p[0], p[1])]@[
                mid_x(w, p[0], p[1])]);
        }
    }
}

/// Where a walk of the carved-plus-one grid leads, the old grid leads
/// too, except that it may need the new passage: then it reaches one end
/// of the new passage from the walk's start and the walk's end from the
/// other. All of it still avoiding whatever the walk avoided.
pub proof fn lemma_avoiding_split(
    g0: Seq<Vec<Tile>>,
    g1: Seq<Vec<Tile>>,
    w: int,
    h: int,
    a: int,
    b: int,
    c: int,
    d: int,
    p: Seq<int>,
)
    requires
        1 <= w,
        1 <= h,
        cell_adjacent(w, h, a, b),
        !tile_walk(g0, mid_x(w, a, b), mid_y(w, a, b)),
        g1.len() == g0.len(),
        forall|x: int, y: int|
            #![trigger g1[y]@[x]]
            in_grid(2 * w + 1, 2 * h + 1, x, y) && !(x == mid_x(w, a, b) && y == mid_y(w, a, b))
                ==> g1[y]@[x] == g0[y]@[x],
        is_path_avoiding(g1, w, h, p, c, d),
    ensures
        connected_avoiding(g0, w, h, c, d, p.first(), p.last()) || (connected_avoiding(
            g0,
            w,
            h,
            c,
            d,
            p.first(),
            a,
        ) && connected_avoiding(g0, w, h, c, d, b, p.last())) || (connected_avoiding(
            g0,
            w,
            h,
            c,
            d,
            p.first(),
            b,
        ) && connected_avoiding(g0, w, h, c, d, a, p.last())),
    decreases p.len(),
{
    if p.len() == 1 {
        lemma_avoiding_refl(g0, w, h, c, d, p[0]);
    } else {
        lemma_avoiding_split(g0, g1, w, h, a, b, c, d, p.drop_first());
        let x0 = p[0];
        let x1 = p[1];
        let last = p.last();
        assert(p.drop_first().first() == x1);
        assert(p.drop_first().last() == last);
        lemma_mid_in_grid(w, h, x0, x1);
        if mid_x(w, x0, x1) == mid_x(w, a, b) && mid_y(w, x0, x1) == mid_y(w, a, b) {
            lemma_mid_injective(w, h, a, b, x0, x1);
            if x0 == a && x1 == b {
                if connected_avoiding(g0, w, h, c, d, b, last) {
                    lemma_avoiding_refl(g0, w, h, c, d, a);
                } else {
                    assert(connected_avoiding(g0, w, h, c, d, a, last));
                }
            } else {
                assert(x0 == b && x1 == a);
                if connected_avoiding(g0, w, h, c, d, a, last) {
                    lemma_avoiding_refl(g0, w, h, c, d, b);
                } else {
                    assert(connected_avoiding(g0, w, h, c, d, b, last));
                }
            }
        } else {
            assert(g1[mid_y(w, x0, x1)]@[mid_x(w, x0, x1)] == g0[mid_y(w, x0, x1)]@[mid_x(
                w,
                x0,
                x1,
            )]);
            assert(passage(g0, w, h, x0, x1));
            lemma_avoiding_step(g0, w, h, c, d, x0, x1);
            if connected_avoiding(g0, w, h, c, d, x1, last) {
                lemma_avoiding_trans(g0, w, h, c, d, x0, x1, last);
            } else if connected_avoiding(g0, w, h, c, d, x1, a) && connected_avoiding(
                g0,
                w,
                h,
                c,
                d,
                b,
                last,
            ) {
                lemma_avoiding_trans(g0, w, h, c, d, x0, x1, a);
            } else {
                assert(connected_avoiding(g0, w, h, c, d, x1, b) && connected_avoiding(
                    g0,
                    w,
                    h,
                    c,
                    d,
                    a,
                    last,
                ));
                lemma_avoiding_trans(g0, w, h, c, d, x0, x1, b);
            }
        }
    }
}



/// Avoiding an edge is avoiding it written the other way round.
pub proof fn lemma_avoiding_swap(
    g: Seq<Vec<Tile>>,
    w: int,
    h: int,
    p: Seq<int>,
    a: int,
    b: int,
    c: int,
    d: int,
)
    requires
        is_path_avoiding(g, w, h, p, c, d),
        step_is_edge(a, b, c, d),
    ensures
        is_path_avoiding(g, w, h, p, a, b),
    decreases p.len(),
{
    if p.len() > 1 {
        lemma_avoiding_swap(g, w, h, p.drop_first(), a, b, c, d);
    }
}

/// After carving the passage between `a` and `b`, cells of different new
/// labels still have no route: a route either lived in the old grid,
/// where the old labels separate it, or it runs through the new passage,
/// forcing both its ends into the merged partition.
pub proof fn lemma_carve_separates(
    g0: Seq<Vec<Tile>>,
    g1: Seq<Vec<Tile>>,
    lab0: Seq<usize>,
    lab1: Seq<usize>,
    w: int,
    h: int,
    a: int,
    b: int,
)
    requires
        1 <= w,
        1 <= h,
        cell_adjacent(w, h, a, b),
        !tile_walk(g0, mid_x(w, a, b), mid_y(w, a, b)),
        g1.len() == g0.len(),
        forall|x: int, y: int|
            #![trigger g1[y]@[x]]
            in_grid(2 * w + 1, 2 * h + 1, x, y) && !(x == mid_x(w, a, b) && y == mid_y(w, a, b))
                ==> g1[y]@[x] == g0[y]@[x],
        lab0.len() == w * h,
        lab1.len() == w * h,
        labels_separate(g0, w, h, lab0),
        forall|c: int|
            0 <= c < lab0.len() ==> lab1[c] == (if lab0[c] == lab0[b] {
                lab0[a]
            } else {
                lab0[c]
            }),
    ensures
        labels_separate(g1, w, h, lab1),
{
    assert forall|x: int, y: int|
        #![trigger lab1[x], lab1[y]]
        valid_cell(w, h, x) && valid_cell(w, h, y) && lab1[x] != lab1[y] implies !connected(
        g1,
        w,
        h,
        x,
        y,
    ) by {
        if connected(g1, w, h, x, y) {
            let p = choose|p: Seq<int>|
                #[trigger] is_path(g1, w, h, p) && p.first() == x && p.last() == y;
            lemma_path_avoids_nothing(g1, w, h, p);
            lemma_avoiding_split(g0, g1, w, h, a, b, -1, -2, p);
            if connected_avoiding(g0, w, h, -1, -2, x, y) {
                lemma_avoiding_connected(g0, w, h, -1, -2, x, y);
                assert(lab0[x] == lab0[y]);
            } else if connected_avoiding(g0, w, h, -1, -2, x, a) && connected_avoiding(
                g0,
                w,
                h,
                -1,
                -2,
                b,
                y,
            ) {
                lemma_avoiding_connected(g0, w, h, -1, -2, x, a);
                lemma_avoiding_connected(g0, w, h, -1, -2, b, y);
                assert(lab0[x] == lab0[a]);
                assert(lab0[b] == lab0[y]);
            } else {
                lemma_avoiding_connected(g0, w, h, -1, -2, x, b);
                lemma_avoiding_connected(g0, w, h, -1, -2, a, y);
                assert(lab0[x] == lab0[b]);
                assert(lab0[a] == lab0[y]);
            }
            assert(false);
        }
    }
}

/// Carving a passage between two partitions closes no cycle: the new
/// passage has no other route between its ends, and an old passage with
/// a route not crossing itself would either have had one before or give
/// the two merged partitions a second join.
pub proof fn lemma_carve_acyclic(
    g0: Seq<Vec<Tile>>,
    g1: Seq<Vec<Tile>>,
    lab0: Seq<usize>,
    w: int,
    h: int,
    a: int,
    b: int,
)
    requires
        1 <= w,
        1 <= h,
        cell_adjacent(w, h, a, b),
        !tile_walk(g0, mid_x(w, a, b), mid_y(w, a, b)),
        g1.len() == g0.len(),
        forall|x: int, y: int|
            #![trigger g1[y]@[x]]
            in_grid(2 * w + 1, 2 * h + 1, x, y) && !(x == mid_x(w, a, b) && y == mid_y(w, a, b))
                ==> g1[y]@[x] == g0[y]@[x],
        lab0.len() == w * h,
        lab0[a] != lab0[b],
        acyclic(g0, w, h),
        labels_separate(g0, w, h, lab0),
        edges_respect_labels(g0, w, h, lab0),
    ensures
        acyclic(g1, w, h),
{
    assert forall|c: int, d: int| #[trigger] passage(g1, w, h, c, d) implies !connected_avoiding(
        g1,
        w,
        h,
        c,
        d,
        c,
        d,
    ) by {
        if connected_avoiding(g1, w, h, c, d, c, d) {
            let p = choose|p: Seq<int>|
                #[trigger] is_path_avoiding(g1, w, h, p, c, d) && p.first() == c && p.last() == d;
            if step_is_edge(a, b, c, d) {
                lemma_avoiding_swap(g1, w, h, p, a, b, c, d);
                lemma_avoiding_new_edge_in_old(g0, g1, w, h, a, b, p);
                assert(is_path_avoiding(g0, w, h, p, a, b) && p.first() == c && p.last() == d);
                lemma_avoiding_connected(g0, w, h, a, b, c, d);
                assert(lab0[c] == lab0[d]);
                assert(false);
            } else {
                lemma_mid_in_grid(w, h, c, d);
                if mid_x(w, c, d) == mid_x(w, a, b) && mid_y(w, c, d) == mid_y(w, a, b) {
                    lemma_mid_injective(w, h, a, b, c, d);
                    assert(false);
                }
                assert(g1[mid_y(w, c, d)]@[mid_x(w, c, d)] == g0[mid_y(w, c, d)]@[mid_x(
                    w,
                    c,
                    d,
                )]);
                assert(passage(g0, w, h, c, d));
                assert(lab0[c] == lab0[d]);
                lemma_avoiding_split(g0, g1, w, h, a, b, c, d, p);
                if connected_avoiding(g0, w, h, c, d, c, d) {
                    assert(false);
                } else if connected_avoiding(g0, w, h, c, d, c, a) && connected_avoiding(
                    g0,
                    w,
                    h,
                    c,
                    d,
                    b,
                    d,
                ) {
                    lemma_avoiding_connected(g0, w, h, c, d, c, a);
                    lemma_avoiding_connected(g0, w, h, c, d, b, d);
                    assert(lab0[c] == lab0[a]);
                    assert(lab0[b] == lab0[d]);
                    assert(false);
                } else {
                    lemma_avoiding_connected(g0, w, h, c, d, c, b);
                    lemma_avoiding_connected(g0, w, h, c, d, a, d);
                    assert(lab0[c] == lab0[b]);
                    assert(lab0[a] == lab0[d]);
                    assert(false);
                }
            }
        }
    }
}

/// Acyclicity depends on walkability alone, so it carries over to any
/// grid walkable alike.
pub proof fn lemma_acyclic_same_walk(g1: Seq<Vec<Tile>>, g2: Seq<Vec<Tile>>, w: int, h: int)
    requires
        1 <= w,
        1 <= h,
        acyclic(g1, w, h),
        g1.len() == g2.len(),
        forall|x: int, y: int|
            in_grid(2 * w + 1, 2 * h + 1, x, y) ==> #[trigger] tile_walk(g1, x, y) == tile_walk(
                g2,
                x,
                y,
            ),
    ensures
        acyclic(g2, w, h),
{
    assert forall|c: int, d: int| #[trigger] passage(g2, w, h, c, d) implies !connected_avoiding(
        g2,
        w,
        h,
        c,
        d,
        c,
        d,
    ) by {
        lemma_mid_in_grid(w, h, c, d);
        assert(passage(g1, w, h, c, d));
        if connected_avoiding(g2, w, h, c, d, c, d) {
            let p = choose|p: Seq<int>|
                #[trigger] is_path_avoiding(g2, w, h, p, c, d) && p.first() == c && p.last() == d;
            lemma_avoiding_mono(g2, g1, w, h, c, d, p);
            assert(connected_avoiding(g1, w, h, c, d, c, d));
            assert(false);
        }
    }
}

/// Every carved passage joins two cells of the same partition label.
pub open spec fn edges_respect_labels(
    g: Seq<Vec<Tile>>,
    w: int,
    h: int,
    lab: Seq<usize>,
) -> bool {
    forall|a: int, b: int| #[trigger] passage(g, w, h, a, b) ==> lab[a] == lab[b]
}

/// Any two cells of the same partition label are joined by carved
/// passages.
pub open spec fn labels_connected(g: Seq<Vec<Tile>>, w: int, h: int, lab: Seq<usize>) -> bool {
    forall|a: int, b: int|
        #![trigger lab[a], lab[b]]
        valid_cell(w, h, a) && valid_cell(w, h, b) && lab[a] == lab[b] ==> connected(g, w, h, a, b)
}

/// Cells `0..c` all carry cell 0's partition label.
#[verifier::opaque]
pub open spec fn prefix_merged(lab: Seq<usize>, c: int) -> bool {
    forall|k: int| 0 <= k < c ==> #[trigger] lab[k] == lab[0]
}

/// One cell is always merged with itself.
pub proof fn lemma_prefix_merged_one(lab: Seq<usize>)
    ensures
        prefix_merged(lab, 1),
{
    reveal(prefix_merged);
}

/// Folding the partition of cell `c` into that of an earlier cell `b`
/// extends the run of cells labelled like cell 0 past `c`.
pub proof fn lemma_prefix_after_merge(labp: Seq<usize>, lab1: Seq<usize>, b: int, c: int)
    requires
        0 <= b < c < labp.len(),
        lab1.len() == labp.len(),
        prefix_merged(labp, c),
        labp[b] != labp[c],
        forall|k: int|
            0 <= k < labp.len() ==> lab1[k] == (if labp[k] == labp[c] {
                labp[b]
            } else {
                labp[k]
            }),
    ensures
        prefix_merged(lab1, c + 1),
{
    reveal(prefix_merged);
    assert(labp[b] == labp[0]);
    assert forall|k: int| 0 <= k < c + 1 implies #[trigger] lab1[k] == lab1[0] by {
        assert(labp[0] != labp[c]);
        if k < c {
            assert(labp[k] == labp[0]);
        }
    }
}

/// A cell already merged with its predecessor extends the merged run by
/// itself.
pub proof fn lemma_prefix_extend(lab: Seq<usize>, b: int, c: int)
    requires
        0 <= b < c < lab.len(),
        prefix_merged(lab, c),
        lab[b] == lab[c],
    ensures
        prefix_merged(lab, c + 1),
{
    reveal(prefix_merged);
}

/// Once the run of merged cells spans the whole sequence, every cell
/// carries cell 0's label.
pub proof fn lemma_prefix_all(lab: Seq<usize>)
    requires
        lab.len() >= 1,
        prefix_merged(lab, lab.len() as int),
    ensures
        forall|k: int| 0 <= k < lab.len() ==> #[trigger] lab[k] == lab[0],
{
    reveal(prefix_merged);
}

/// A sequence holding two different values has at least two values.
pub proof fn lemma_distinct_card_ge_two(s: Seq<usize>, i: int, j: int)
    requires
        0 <= i < s.len(),
        0 <= j < s.len(),
        s[i] != s[j],
    ensures
        s.to_set().len() >= 2,
{
    broadcast use vstd::seq_lib::seq_to_set_is_finite;
    broadcast use vstd::set::group_set_axioms;

    let t = s.to_set();
    assert(t.contains(s[i]));
    assert(t.contains(s[j]));
    assert(t.remove(s[i]).contains(s[j]));
    vstd::set::axiom_set_remove_len(t, s[i]);
    vstd::set::axiom_set_remove_len(t.remove(s[i]), s[j]);
}

/// A nonempty sequence all of whose entries are its first holds exactly
/// one value.
pub proof fn lemma_constant_card_one(s: Seq<usize>)
    requires
        s.len() >= 1,
        forall|i: int| 0 <= i < s.len() ==> #[trigger] s[i] == s[0],
    ensures
        s.to_set().len() == 1,
{
    broadcast use vstd::seq_lib::seq_to_set_is_finite;
    broadcast use vstd::set::group_set_axioms;

    assert(s.contains(s[0]));
    assert(s.to_set() =~= vstd::set::Set::empty().insert(s[0]));
}

/// A sequence that lists each index as its own value holds as many
/// values as entries.
pub proof fn lemma_identity_card(s: Seq<usize>)
    requires
        forall|i: int| 0 <= i < s.len() ==> (#[trigger] s[i]) as int == i,
    ensures
        s.to_set().len() == s.len(),
{
    assert(s.no_duplicates());
    s.unique_seq_to_set();
}

/// Relabelling every `lb` entry to `la`, a value already present, removes
/// exactly the value `lb`: one partition fewer.
pub proof fn lemma_relabel_card(s1: Seq<usize>, s2: Seq<usize>, la: usize, lb: usize, ia: int)
    requires
        s1.len() == s2.len(),
        la != lb,
        0 <= ia < s1.len(),
        s1[ia] == la,
        s1.contains(lb),
        forall|c: int|
            0 <= c < s1.len() ==> s2[c] == (if s1[c] == lb {
                la
            } else {
                s1[c]
            }),
    ensures
        s2.to_set() =~= s1.to_set().remove(lb),
        s2.to_set().len() == s1.to_set().len() - 1,
{
    broadcast use vstd::seq_lib::seq_to_set_is_finite;
    broadcast use vstd::set::group_set_axioms;

    assert forall|v: usize| s2.to_set().contains(v) implies s1.to_set().remove(lb).contains(
        v,
    ) by {
        let c = choose|c: int| 0 <= c < s2.len() && s2[c] == v;
        assert(s1.contains(s1[c]));
    }
    assert forall|v: usize| s1.to_set().remove(lb).contains(v) implies s2.to_set().contains(
        v,
    ) by {
        let c = choose|c: int| 0 <= c < s1.len() && s1[c] == v;
        assert(s2[c] == v);
        assert(s2.contains(s2[c]));
    }
    assert(s1.to_set().contains(lb));
    vstd::set::axiom_set_remove_len(s1.to_set(), lb);
}

/// After carving the passage between `a` and `b` — the only changed tile
/// — and folding partition `lab0[b]` into `lab0[a]`, every passage still
/// joins cells of one partition: old passages joined old partitions, and
/// the new tile carries exactly the passage between `a` and `b`.
pub proof fn lemma_carve_keeps_edges(
    g0: Seq<Vec<Tile>>,
    g1: Seq<Vec<Tile>>,
    lab0: Seq<usize>,
    lab1: Seq<usize>,
    w: int,
    h: int,
    a: int,
    b: int,
)
    requires
        1 <= w,
        1 <= h,
        cell_adjacent(w, h, a, b),
        lab0.len() == w * h,
        lab1.len() == w * h,
        edges_respect_labels(g0, w, h, lab0),
        forall|c: int|
            0 <= c < lab0.len() ==> lab1[c] == (if lab0[c] == lab0[b] {
                lab0[a]
            } else {
                lab0[c]
            }),
        forall|x: int, y: int|
            #![trigger g1[y]@[x]]
            in_grid(2 * w + 1, 2 * h + 1, x, y) && !(x == mid_x(w, a, b) && y == mid_y(w, a, b))
                ==> g1[y]@[x] == g0[y]@[x],
    ensures
        edges_respect_labels(g1, w, h, lab1),
{
    assert forall|a2: int, b2: int| #[trigger] passage(g1, w, h, a2, b2) implies lab1[a2]
        == lab1[b2] by {
        lemma_mid_in_grid(w, h, a2, b2);
        if mid_x(w, a2, b2) == mid_x(w, a, b) && mid_y(w, a2, b2) == mid_y(w, a, b) {
            lemma_mid_injective(w, h, a, b, a2, b2);
        } else {
            assert(g1[mid_y(w, a2, b2)]@[mid_x(w, a2, b2)] == g0[mid_y(w, a2, b2)]@[mid_x(
                w,
                a2,
                b2,
            )]);
            assert(passage(g0, w, h, a2, b2));
        }
    }
}

/// After carving the passage between `a` and `b` and folding partition
/// `lab0[b]` into `lab0[a]`, cells labelled alike are still connected:
/// old partitions carry over, and the two merged ones are bridged by the
/// new passage.
pub proof fn lemma_carve_connects(
    g0: Seq<Vec<Tile>>,
    g1: Seq<Vec<Tile>>,
    lab0: Seq<usize>,
    lab1: Seq<usize>,
    w: int,
    h: int,
    a: int,
    b: int,
)
    requires
        1 <= w,
        1 <= h,
        valid_cell(w, h, a),
        valid_cell(w, h, b),
        lab0.len() == w * h,
        lab1.len() == w * h,
        labels_connected(g0, w, h, lab0),
        forall|c: int|
            0 <= c < lab0.len() ==> lab1[c] == (if lab0[c] == lab0[b] {
                lab0[a]
            } else {
                lab0[c]
            }),
        forall|x: int, y: int|
            in_grid(2 * w + 1, 2 * h + 1, x, y) && tile_walk(g0, x, y) ==> #[trigger] tile_walk(
                g1,
                x,
                y,
            ),
        passage(g1, w, h, a, b),
    ensures
        labels_connected(g1, w, h, lab1),
{
    let la = lab0[a];
    let lb = lab0[b];
    lemma_connected_step(g1, w, h, a, b);
    assert(passage(g1, w, h, b, a));
    lemma_connected_step(g1, w, h, b, a);
    assert forall|a2: int, b2: int|
        #![trigger lab1[a2], lab1[b2]]
        valid_cell(w, h, a2) && valid_cell(w, h, b2) && lab1[a2] == lab1[b2] implies connected(
        g1,
        w,
        h,
        a2,
        b2,
    ) by {
        if lab0[a2] == lab0[b2] {
            assert(connected(g0, w, h, a2, b2));
            lemma_connected_mono(g0, g1, w, h, a2, b2);
        } else {
            let ta: int = if lab0[a2] == la {
                a
            } else {
                b
            };
            let tb: int = if lab0[b2] == la {
                a
            } else {
                b
            };
            assert(lab0[a2] == la || lab0[a2] == lb);
            assert(lab0[b2] == la || lab0[b2] == lb);
            assert(lab0[a2] == lab0[ta]);
            assert(lab0[b2] == lab0[tb]);
            assert(connected(g0, w, h, a2, ta));
            assert(connected(g0, w, h, b2, tb));
            lemma_connected_mono(g0, g1, w, h, a2, ta);
            lemma_connected_mono(g0, g1, w, h, b2, tb);
            lemma_connected_sym(g1, w, h, b2, tb);
            if ta == tb {
                lemma_connected_trans(g1, w, h, a2, ta, b2);
            } else {
                assert(connected(g1, w, h, ta, tb));
                lemma_connected_trans(g1, w, h, a2, ta, tb);
                lemma_connected_trans(g1, w, h, a2, tb, b2);
            }
        }
    }
}

/// Connectivity carries over to any grid that keeps every walkable
/// interior tile walkable.
pub proof fn lemma_connected_mono(
    g1: Seq<Vec<Tile>>,
    g2: Seq<Vec<Tile>>,
    w: int,
    h: int,
    a: int,
    b: int,
)
    requires
        1 <= w,
        1 <= h,
        connected(g1, w, h, a, b),
        forall|x: int, y: int|
            in_grid(2 * w + 1, 2 * h + 1, x, y) && tile_walk(g1, x, y) ==> #[trigger] tile_walk(
                g2,
                x,
                y,
            ),
    ensures
        connected(g2, w, h, a, b),
{
    let p = choose|p: Seq<int>| #[trigger] is_path(g1, w, h, p) && p.first() == a && p.last() == b;
    lemma_path_mono(g1, g2, w, h, p);
}

} // verus!
