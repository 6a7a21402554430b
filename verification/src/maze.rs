//! The maze grid model: tiles, the rendered grid, and the walk engine.
//!
//! A maze of `w` by `h` cells is rendered as a grid of `(2w+1)` by `(2h+1)`
//! tiles. A grid coordinate with both components odd is a cell interior and
//! is always walkable; every other coordinate is a wall slot, walkable only
//! when the passage between the two neighbouring cells has been carved.

use vstd::prelude::*;

use crate::cells::{
    acyclic, cell_adjacent, connected, edges_respect_labels, grid_passages, is_passage_pos,
    labels_connected, labels_separate, lemma_acyclic_same_walk, lemma_carve_acyclic,
    lemma_carve_connects, lemma_carve_keeps_edges, lemma_carve_separates, lemma_cell_bounds,
    lemma_cell_id, lemma_connected_mono, lemma_connected_refl, lemma_constant_card_one,
    lemma_distinct_card_ge_two, lemma_grid_passages_same_walk, lemma_grid_passages_zero,
    lemma_identity_card, lemma_mid_in_grid, lemma_no_passage_path, lemma_relabel_card, mid_x,
    mid_y, passage, valid_cell,
};
use crate::direction::{diff_spec, rand_below, Direction};

verus! {

/// A grid coordinate: `Point(x, y)` with `x` the column and `y` the row.
#[derive(Copy, Clone, PartialEq, Eq, Structural, Debug)]
pub struct Point(pub i32, pub i32);

/// The coordinate one step from `p` in direction `d`, as unbounded integers.
pub open spec fn point_add_spec(p: Point, d: Direction) -> (int, int) {
    (p.0 + diff_spec(d).0, p.1 + diff_spec(d).1)
}

impl Point {
    /// The point one step from `self` in direction `direction`.
    pub fn add(&self, direction: Direction) -> (r: Point)
        requires
            -0x7fff_fffe <= self.0 <= 0x7fff_fffe,
            -0x7fff_fffe <= self.1 <= 0x7fff_fffe,
        ensures
            (r.0 as int, r.1 as int) == point_add_spec(*self, direction),
    {
        let diff = direction.diff();
        Point(self.0 + diff.0, self.1 + diff.1)
    }
}

/// One tile of the rendered grid: a display glyph and a walkability flag.
/// The glyph is derived for display only; walkability is the source of truth.
pub struct Tile {
    pub tile: char,
    pub walkable: bool,
}

impl Tile {
    /// Whether this tile can be stepped on.
    pub fn walkable(&self) -> (b: bool)
        ensures
            b == self.walkable,
    {
        self.walkable
    }
}

/// Rows of the rendered grid are `gh` in number, each `gw` tiles wide.
pub open spec fn grid_dims(g: Seq<Vec<Tile>>, gw: int, gh: int) -> bool {
    &&& g.len() == gh
    &&& forall|y: int| 0 <= y < gh ==> (#[trigger] g[y])@.len() == gw
}

/// Whether `(x, y)` lies inside a `gw` by `gh` grid.
pub open spec fn in_grid(gw: int, gh: int, x: int, y: int) -> bool {
    0 <= x < gw && 0 <= y < gh
}

/// The walkability of the tile at `(x, y)`.
pub open spec fn tile_walk(g: Seq<Vec<Tile>>, x: int, y: int) -> bool {
    g[y]@[x].walkable
}

/// In bounds and walkable.
pub open spec fn walkable_at(g: Seq<Vec<Tile>>, gw: int, gh: int, x: int, y: int) -> bool {
    in_grid(gw, gh, x, y) && tile_walk(g, x, y)
}

/// In bounds and not walkable: a wall tile. Out-of-bounds coordinates are
/// not walls.
pub open spec fn wall_at_spec(g: Seq<Vec<Tile>>, gw: int, gh: int, x: int, y: int) -> bool {
    in_grid(gw, gh, x, y) && !tile_walk(g, x, y)
}

/// A maze: the rendered tile grid, its dimensions, and the three marked
/// positions. `player_pos` starts at `start_pos` and is moved only by the
/// walk engine; the grid itself never changes after generation.
pub struct Maze {
    pub tiles: Vec<Vec<Tile>>,
    pub height: i32,
    pub width: i32,
    pub player_pos: Point,
    pub start_pos: Point,
    pub goal_pos: Point,
}

impl Maze {
    /// The rendered grid width, in tiles.
    pub open spec fn grid_width(&self) -> int {
        self.width as int
    }

    /// The rendered grid height, in tiles.
    pub open spec fn grid_height(&self) -> int {
        self.height as int
    }

    /// The maze width, in cells.
    pub open spec fn cells_w(&self) -> int {
        (self.grid_width() - 1) / 2
    }

    /// The maze height, in cells.
    pub open spec fn cells_h(&self) -> int {
        (self.grid_height() - 1) / 2
    }

    /// In bounds of the rendered grid and walkable.
    pub open spec fn walk_at(&self, x: int, y: int) -> bool {
        walkable_at(self.tiles@, self.grid_width(), self.grid_height(), x, y)
    }

    /// A position with both coordinates odd: a cell interior.
    pub open spec fn is_cell_pos(&self, p: Point) -> bool {
        &&& in_grid(self.grid_width(), self.grid_height(), p.0 as int, p.1 as int)
        &&& p.0 % 2 == 1
        &&& p.1 % 2 == 1
    }

    /// Well-formedness of a generated maze: the dimensions are odd and
    /// consistent with the tile rows, cell interiors are walkable, wall
    /// intersections and the border are not, and the three marked positions
    /// sit on walkable tiles, the start and the goal on cell interiors.
    pub open spec fn wf(&self) -> bool {
        &&& 3 <= self.grid_width() < 0x4000_0000
        &&& 3 <= self.grid_height() < 0x4000_0000
        &&& self.grid_width() % 2 == 1
        &&& self.grid_height() % 2 == 1
        &&& grid_dims(self.tiles@, self.grid_width(), self.grid_height())
        &&& maze_structure(self.tiles@, self.cells_w(), self.cells_h())
        &&& self.is_cell_pos(self.start_pos)
        &&& self.is_cell_pos(self.goal_pos)
        &&& self.walk_at(self.player_pos.0 as int, self.player_pos.1 as int)
    }

    /// Whether `point` is a wall tile: in bounds and not walkable.
    pub fn wall_at(&self, point: Point) -> (b: bool)
        requires
            self.wf(),
        ensures
            b == wall_at_spec(
                self.tiles@,
                self.grid_width(),
                self.grid_height(),
                point.0 as int,
                point.1 as int,
            ),
    {
        point.0 >= 0 && point.1 >= 0 && point.0 < self.width && point.1 < self.height
            && !self.tiles[point.1 as usize][point.0 as usize].walkable()
    }

    /// The position `attempt_move` yields: the neighbouring tile in
    /// direction `d` when that tile is inside the grid and walkable,
    /// otherwise `pos` unchanged.
    pub open spec fn attempt_move_spec(&self, pos: Point, d: Direction) -> Point {
        let (cx, cy) = point_add_spec(pos, d);
        if self.walk_at(cx, cy) {
            Point(cx as i32, cy as i32)
        } else {
            pos
        }
    }

    /// Applies one move request: steps to the neighbouring tile in
    /// direction `d` if it is inside the grid and walkable, and otherwise
    /// silently keeps the current position. The result is always a
    /// walkable in-bounds position.
    pub fn attempt_move(&self, pos: Point, d: Direction) -> (r: Point)
        requires
            self.wf(),
            self.walk_at(pos.0 as int, pos.1 as int),
        ensures
            r == self.attempt_move_spec(pos, d),
            self.walk_at(r.0 as int, r.1 as int),
    {
        let candidate = pos.add(d);
        if candidate.0 >= 0 && candidate.1 >= 0 && candidate.0 < self.width && candidate.1
            < self.height && self.tiles[candidate.1 as usize][candidate.0 as usize].walkable() {
            candidate
        } else {
            pos
        }
    }

    /// Moves the player one step in direction `d`, subject to the walls:
    /// the grid and the marked start and goal are unchanged, and the player
    /// position becomes what `attempt_move` yields for it.
    pub fn walk(&mut self, d: Direction)
        requires
            old(self).wf(),
        ensures
            final(self).tiles == old(self).tiles,
            final(self).width == old(self).width,
            final(self).height == old(self).height,
            final(self).start_pos == old(self).start_pos,
            final(self).goal_pos == old(self).goal_pos,
            final(self).player_pos == old(self).attempt_move_spec(old(self).player_pos, d),
            final(self).wf(),
    {
        let p = self.attempt_move(self.player_pos, d);
        self.player_pos = p;
    }
}

/// The result of `k` successive `attempt_move` requests in direction `d`
/// from position `pos`.
pub open spec fn repeat_attempt_move(m: Maze, pos: Point, d: Direction, k: nat) -> Point
    decreases k,
{
    if k == 0 {
        pos
    } else {
        m.attempt_move_spec(repeat_attempt_move(m, pos, d, (k - 1) as nat), d)
    }
}

/// A move that is blocked — its target tile is outside the grid or not
/// walkable — leaves the position exactly unchanged, and so does any
/// number of repetitions of it.
pub proof fn lemma_blocked_move_stays(m: Maze, pos: Point, d: Direction, k: nat)
    requires
        !m.walk_at(point_add_spec(pos, d).0, point_add_spec(pos, d).1),
    ensures
        repeat_attempt_move(m, pos, d, k) == pos,
    decreases k,
{
    if k > 0 {
        lemma_blocked_move_stays(m, pos, d, (k - 1) as nat);
    }
}

/// The display glyph of the tile at `(x, y)`.
pub open spec fn tile_char(g: Seq<Vec<Tile>>, x: int, y: int) -> char {
    g[y]@[x].tile
}

/// The box-drawing glyph for a wall tile whose four neighbours are walls
/// as given: each `true` side is a side the glyph connects to. No wall on
/// any side yields an isolated-wall marker.
pub open spec fn glyph_for(n: bool, s: bool, e: bool, w: bool) -> char {
    match (n, s, e, w) {
        (false, false, false, false) => 'E',
        (false, false, false, true) => '\u{2578}',
        (false, false, true, false) => '\u{257a}',
        (false, false, true, true) => '\u{2501}',
        (false, true, false, false) => '\u{257b}',
        (false, true, false, true) => '\u{2513}',
        (false, true, true, false) => '\u{250f}',
        (false, true, true, true) => '\u{2533}',
        (true, false, false, false) => '\u{2579}',
        (true, false, false, true) => '\u{251b}',
        (true, false, true, false) => '\u{2517}',
        (true, false, true, true) => '\u{253b}',
        (true, true, false, false) => '\u{2503}',
        (true, true, false, true) => '\u{252b}',
        (true, true, true, false) => '\u{2523}',
        (true, true, true, true) => '\u{254b}',
    }
}

/// The glyph the derivation pass owes the wall tile at `(x, y)`: decided
/// by whether its north, south, east and west neighbours are walls
/// (out-of-bounds neighbours count as not walls).
pub open spec fn glyph_target(g: Seq<Vec<Tile>>, gw: int, gh: int, x: int, y: int) -> char {
    glyph_for(
        wall_at_spec(g, gw, gh, x, y - 1),
        wall_at_spec(g, gw, gh, x, y + 1),
        wall_at_spec(g, gw, gh, x + 1, y),
        wall_at_spec(g, gw, gh, x - 1, y),
    )
}

/// The box-drawing glyph for a wall tile with the given wall neighbours,
/// in the order north, south, east, west.
pub fn glyph_of_walls(n: bool, s: bool, e: bool, w: bool) -> (c: char)
    ensures
        c == glyph_for(n, s, e, w),
{
    match (n, s, e, w) {
        (false, false, false, false) => 'E',
        (false, false, false, true) => '\u{2578}',
        (false, false, true, false) => '\u{257a}',
        (false, false, true, true) => '\u{2501}',
        (false, true, false, false) => '\u{257b}',
        (false, true, false, true) => '\u{2513}',
        (false, true, true, false) => '\u{250f}',
        (false, true, true, true) => '\u{2533}',
        (true, false, false, false) => '\u{2579}',
        (true, false, false, true) => '\u{251b}',
        (true, false, true, false) => '\u{2517}',
        (true, false, true, true) => '\u{253b}',
        (true, true, false, false) => '\u{2503}',
        (true, true, false, true) => '\u{252b}',
        (true, true, true, false) => '\u{2523}',
        (true, true, true, true) => '\u{254b}',
    }
}

/// Whether `(x, y)` is a wall tile of the grid: in bounds and not
/// walkable. Out-of-bounds coordinates are not walls.
fn grid_wall_at(tiles: &Vec<Vec<Tile>>, gw: i32, gh: i32, x: i32, y: i32) -> (b: bool)
    requires
        0 < gw,
        0 < gh,
        grid_dims(tiles@, gw as int, gh as int),
    ensures
        b == wall_at_spec(tiles@, gw as int, gh as int, x as int, y as int),
{
    x >= 0 && y >= 0 && x < gw && y < gh && !tiles[y as usize][x as usize].walkable()
}

/// Builds the initial rendered grid for a maze of `width` by `height`
/// cells: every cell interior (both coordinates odd) is a walkable blank
/// tile, everything else an uncarved wall tile.
fn init_tiles(width: i32, height: i32) -> (t: Vec<Vec<Tile>>)
    requires
        1 <= width < 0x2000_0000,
        1 <= height < 0x2000_0000,
    ensures
        grid_dims(t@, 2 * width + 1, 2 * height + 1),
        forall|x: int, y: int|
            in_grid(2 * width + 1, 2 * height + 1, x, y) ==> #[trigger] tile_walk(t@, x, y) == (x
                % 2 == 1 && y % 2 == 1),
        forall|x: int, y: int|
            in_grid(2 * width + 1, 2 * height + 1, x, y) ==> #[trigger] tile_char(t@, x, y) == (
            if x % 2 == 1 && y % 2 == 1 {
                ' '
            } else {
                '#'
            }),
{
    let gw: usize = (2 * width + 1) as usize;
    let gh: usize = (2 * height + 1) as usize;
    let mut t: Vec<Vec<Tile>> = Vec::new();
    let mut y: usize = 0;
    while y < gh
        invariant
            gw == 2 * width + 1,
            gh == 2 * height + 1,
            1 <= width < 0x2000_0000,
            1 <= height < 0x2000_0000,
            y <= gh,
            t@.len() == y,
            forall|yy: int| 0 <= yy < y ==> (#[trigger] t@[yy])@.len() == gw,
            forall|x: int, yy: int|
                in_grid(gw as int, y as int, x, yy) ==> #[trigger] tile_walk(t@, x, yy) == (x % 2
                    == 1 && yy % 2 == 1),
            forall|x: int, yy: int|
                in_grid(gw as int, y as int, x, yy) ==> #[trigger] tile_char(t@, x, yy) == (
                if x % 2 == 1 && yy % 2 == 1 {
                    ' '
                } else {
                    '#'
                }),
        decreases gh - y,
    {
        let mut row: Vec<Tile> = Vec::new();
        let mut x: usize = 0;
        while x < gw
            invariant
                x <= gw,
                row@.len() == x,
                forall|xx: int|
                    0 <= xx < x ==> (#[trigger] row@[xx]).walkable == (xx % 2 == 1 && y % 2
                        == 1),
                forall|xx: int|
                    0 <= xx < x ==> (#[trigger] row@[xx]).tile == (if xx % 2 == 1 && y % 2 == 1 {
                        ' '
                    } else {
                        '#'
                    }),
            decreases gw - x,
        {
            if x % 2 == 1 && y % 2 == 1 {
                row.push(Tile { tile: ' ', walkable: true });
            } else {
                row.push(Tile { tile: '#', walkable: false });
            }
            x = x + 1;
        }
        let ghost tprev = t@;
        t.push(row);
        proof {
            assert forall|xx: int, yy: int|
                in_grid(gw as int, y as int + 1, xx, yy) implies #[trigger] tile_walk(t@, xx, yy)
                == (xx % 2 == 1 && yy % 2 == 1) by {
                if yy < y as int {
                    assert(t@[yy] == tprev[yy]);
                    assert(tile_walk(tprev, xx, yy) == (xx % 2 == 1 && yy % 2 == 1));
                } else {
                    assert(t@[yy] == row);
                }
            }
            assert forall|xx: int, yy: int|
                in_grid(gw as int, y as int + 1, xx, yy) implies #[trigger] tile_char(t@, xx, yy)
                == (if xx % 2 == 1 && yy % 2 == 1 {
                ' '
            } else {
                '#'
            }) by {
                if yy < y as int {
                    assert(t@[yy] == tprev[yy]);
                    assert(tile_char(tprev, xx, yy) == (if xx % 2 == 1 && yy % 2 == 1 {
                        ' '
                    } else {
                        '#'
                    }));
                } else {
                    assert(t@[yy] == row);
                }
            }
        }
        y = y + 1;
    }
    t
}

/// Walkability is pointwise equal on two grids of the same dimensions.
pub open spec fn same_walkability(g1: Seq<Vec<Tile>>, g2: Seq<Vec<Tile>>) -> bool {
    &&& g1.len() == g2.len()
    &&& forall|y: int| 0 <= y < g1.len() ==> (#[trigger] g1[y])@.len() == g2[y]@.len()
    &&& forall|x: int, y: int|
        0 <= y < g1.len() && 0 <= x < g1[y]@.len() ==> #[trigger] tile_walk(g1, x, y) == tile_walk(
            g2,
            x,
            y,
        )
}

/// Builds the grid with every wall tile's glyph rewritten from its
/// four-neighbour wall pattern: in the result each wall tile carries
/// exactly the glyph the 16-entry table assigns to its neighbourhood,
/// while every tile's walkability and every walkable tile's glyph are
/// those of the input.
fn derive_glyphs(tiles: &Vec<Vec<Tile>>, gw: i32, gh: i32) -> (out: Vec<Vec<Tile>>)
    requires
        0 < gw < 0x4000_0000,
        0 < gh < 0x4000_0000,
        grid_dims(tiles@, gw as int, gh as int),
    ensures
        grid_dims(out@, gw as int, gh as int),
        same_walkability(tiles@, out@),
        forall|x: int, y: int|
            in_grid(gw as int, gh as int, x, y) && tile_walk(tiles@, x, y)
                ==> #[trigger] tile_char(out@, x, y) == tile_char(tiles@, x, y),
        forall|x: int, y: int|
            in_grid(gw as int, gh as int, x, y) && !tile_walk(tiles@, x, y)
                ==> #[trigger] tile_char(out@, x, y) == glyph_target(
                tiles@,
                gw as int,
                gh as int,
                x,
                y,
            ),
{
    let mut out: Vec<Vec<Tile>> = Vec::new();
    let mut y: i32 = 0;
    while y < gh
        invariant
            0 < gw < 0x4000_0000,
            0 < gh < 0x4000_0000,
            0 <= y <= gh,
            grid_dims(tiles@, gw as int, gh as int),
            out@.len() == y,
            forall|yy: int| 0 <= yy < y ==> (#[trigger] out@[yy])@.len() == gw,
            forall|xx: int, yy: int|
                in_grid(gw as int, y as int, xx, yy) ==> #[trigger] tile_walk(out@, xx, yy)
                    == tile_walk(tiles@, xx, yy),
            forall|xx: int, yy: int|
                in_grid(gw as int, y as int, xx, yy) && tile_walk(tiles@, xx, yy)
                    ==> #[trigger] tile_char(out@, xx, yy) == tile_char(tiles@, xx, yy),
            forall|xx: int, yy: int|
                in_grid(gw as int, y as int, xx, yy) && !tile_walk(tiles@, xx, yy)
                    ==> #[trigger] tile_char(out@, xx, yy) == glyph_target(
                    tiles@,
                    gw as int,
                    gh as int,
                    xx,
                    yy,
                ),
        decreases gh - y,
    {
        let mut row: Vec<Tile> = Vec::new();
        let mut x: i32 = 0;
        while x < gw
            invariant
                0 < gw < 0x4000_0000,
                0 < gh < 0x4000_0000,
                0 <= y < gh,
                0 <= x <= gw,
                grid_dims(tiles@, gw as int, gh as int),
                row@.len() == x,
                forall|xx: int|
                    0 <= xx < x ==> (#[trigger] row@[xx]).walkable == tile_walk(tiles@, xx, y as int),
                forall|xx: int|
                    0 <= xx < x && tile_walk(tiles@, xx, y as int) ==> (#[trigger] row@[xx]).tile
                        == tile_char(tiles@, xx, y as int),
                forall|xx: int|
                    0 <= xx < x && !tile_walk(tiles@, xx, y as int) ==> (#[trigger] row@[xx]).tile
                        == glyph_target(tiles@, gw as int, gh as int, xx, y as int),
            decreases gw - x,
        {
            let t = &tiles[y as usize][x as usize];
            if t.walkable() {
                row.push(Tile { tile: t.tile, walkable: true });
            } else {
                let n = grid_wall_at(tiles, gw, gh, x, y - 1);
                let s = grid_wall_at(tiles, gw, gh, x, y + 1);
                let e = grid_wall_at(tiles, gw, gh, x + 1, y);
                let w = grid_wall_at(tiles, gw, gh, x - 1, y);
                let c = glyph_of_walls(n, s, e, w);
                row.push(Tile { tile: c, walkable: false });
            }
            x = x + 1;
        }
        let ghost oprev = out@;
        out.push(row);
        proof {
            assert forall|xx: int, yy: int|
                in_grid(gw as int, y as int + 1, xx, yy) implies #[trigger] tile_walk(out@, xx, yy)
                == tile_walk(tiles@, xx, yy) by {
                if yy < y as int {
                    assert(out@[yy] == oprev[yy]);
                    assert(tile_walk(oprev, xx, yy) == tile_walk(tiles@, xx, yy));
                } else {
                    assert(out@[yy] == row);
                }
            }
            assert forall|xx: int, yy: int|
                in_grid(gw as int, y as int + 1, xx, yy) && tile_walk(tiles@, xx, yy)
                implies #[trigger] tile_char(out@, xx, yy) == tile_char(tiles@, xx, yy) by {
                if yy < y as int {
                    assert(out@[yy] == oprev[yy]);
                    assert(tile_char(oprev, xx, yy) == tile_char(tiles@, xx, yy));
                } else {
                    assert(out@[yy] == row);
                }
            }
            assert forall|xx: int, yy: int|
                in_grid(gw as int, y as int + 1, xx, yy) && !tile_walk(tiles@, xx, yy)
                implies #[trigger] tile_char(out@, xx, yy) == glyph_target(
                tiles@,
                gw as int,
                gh as int,
                xx,
                yy,
            ) by {
                if yy < y as int {
                    assert(out@[yy] == oprev[yy]);
                    assert(tile_char(oprev, xx, yy) == glyph_target(
                        tiles@,
                        gw as int,
                        gh as int,
                        xx,
                        yy,
                    ));
                } else {
                    assert(out@[yy] == row);
                }
            }
        }
        y = y + 1;
    }
    out
}

/// The glyph owed to a wall tile depends only on walkability, so any two
/// grids with pointwise equal walkability owe every wall tile the same
/// glyph.
pub proof fn lemma_glyph_target_same_walk(
    g1: Seq<Vec<Tile>>,
    g2: Seq<Vec<Tile>>,
    gw: int,
    gh: int,
    x: int,
    y: int,
)
    requires
        grid_dims(g1, gw, gh),
        grid_dims(g2, gw, gh),
        same_walkability(g1, g2),
    ensures
        glyph_target(g1, gw, gh, x, y) == glyph_target(g2, gw, gh, x, y),
{
}

/// A maze structure: cell interiors (both coordinates odd) are walkable,
/// wall intersections (both even) are not, and neither is any tile on the
/// outer border.
pub open spec fn maze_structure(g: Seq<Vec<Tile>>, w: int, h: int) -> bool {
    forall|x: int, y: int|
        in_grid(2 * w + 1, 2 * h + 1, x, y) ==> {
            &&& (x % 2 == 1 && y % 2 == 1) ==> #[trigger] tile_walk(g, x, y)
            &&& (x % 2 == 0 && y % 2 == 0) ==> !tile_walk(g, x, y)
            &&& (x == 0 || y == 0 || x == 2 * w || y == 2 * h) ==> !tile_walk(g, x, y)
        }
}

/// The grid as generation keeps it: a maze structure whose walkable tiles
/// are all still blank (markers and wall glyphs come later).
pub open spec fn carve_structure(g: Seq<Vec<Tile>>, w: int, h: int) -> bool {
    &&& maze_structure(g, w, h)
    &&& forall|x: int, y: int|
        in_grid(2 * w + 1, 2 * h + 1, x, y) && #[trigger] tile_walk(g, x, y) ==> tile_char(g, x, y)
            == ' '
}

/// The generation invariant, tying the grid under construction to the
/// partition labels: `lab` labels every cell; carved passages stay inside
/// one partition (so no carve ever closes a cycle); cells of one
/// partition are connected through carved passages; `count` is the number
/// of partitions; and every carve, cutting partitions by one, has added
/// one passage.
pub open spec fn gen_inv(
    g: Seq<Vec<Tile>>,
    lab: Seq<usize>,
    count: int,
    w: int,
    h: int,
) -> bool {
    &&& 1 <= w
    &&& 1 <= h
    &&& w * h < 0x1000_0000
    &&& grid_dims(g, 2 * w + 1, 2 * h + 1)
    &&& carve_structure(g, w, h)
    &&& lab.len() == w * h
    &&& edges_respect_labels(g, w, h, lab)
    &&& labels_connected(g, w, h, lab)
    &&& labels_separate(g, w, h, lab)
    &&& acyclic(g, w, h)
    &&& count == lab.to_set().len()
    &&& grid_passages(g) + count == w * h
}

/// One label per cell, each cell its own partition at first.
fn init_labels(n: usize) -> (lab: Vec<usize>)
    ensures
        lab@.len() == n,
        forall|i: int| 0 <= i < n ==> (#[trigger] lab@[i]) as int == i,
{
    let mut lab: Vec<usize> = Vec::new();
    let mut i: usize = 0;
    while i < n
        invariant
            i <= n,
            lab@.len() == i,
            forall|k: int| 0 <= k < i ==> (#[trigger] lab@[k]) as int == k,
        decreases n - i,
    {
        lab.push(i);
        i = i + 1;
    }
    lab
}

/// A carve changes one off-border passage-slot tile into a blank
/// walkable one and nothing else, so the maze structure survives it.
proof fn lemma_carve_structure(
    g0: Seq<Vec<Tile>>,
    g1: Seq<Vec<Tile>>,
    w: int,
    h: int,
    mx: int,
    my: int,
)
    requires
        1 <= w,
        1 <= h,
        carve_structure(g0, w, h),
        0 < mx < 2 * w,
        0 < my < 2 * h,
        (mx % 2 == 0) != (my % 2 == 0),
        g1.len() == g0.len(),
        forall|x: int, y: int|
            #![trigger g1[y]@[x]]
            in_grid(2 * w + 1, 2 * h + 1, x, y) && !(x == mx && y == my) ==> g1[y]@[x] == g0[y]@[x],
        tile_walk(g1, mx, my),
        tile_char(g1, mx, my) == ' ',
    ensures
        carve_structure(g1, w, h),
        forall|x: int, y: int|
            in_grid(2 * w + 1, 2 * h + 1, x, y) && tile_walk(g0, x, y) ==> #[trigger] tile_walk(
                g1,
                x,
                y,
            ),
{
    assert forall|x: int, y: int| in_grid(2 * w + 1, 2 * h + 1, x, y) implies {
        &&& ((x % 2 == 1 && y % 2 == 1) ==> #[trigger] tile_walk(g1, x, y))
        &&& ((x % 2 == 0 && y % 2 == 0) ==> !tile_walk(g1, x, y))
        &&& ((x == 0 || y == 0 || x == 2 * w || y == 2 * h) ==> !tile_walk(g1, x, y))
        &&& (tile_walk(g1, x, y) ==> tile_char(g1, x, y) == ' ')
        &&& (tile_walk(g0, x, y) ==> tile_walk(g1, x, y))
    } by {
        if !(x == mx && y == my) {
            assert(g1[y]@[x] == g0[y]@[x]);
            assert(tile_walk(g1, x, y) == tile_walk(g0, x, y));
            assert(tile_char(g1, x, y) == tile_char(g0, x, y));
        }
    }
}

/// The cell one step from cell `a` in direction `d`, or `None` when that
/// step leaves the maze.
fn cell_step(a: usize, d: Direction, width: i32, height: i32) -> (r: Option<usize>)
    requires
        1 <= width,
        1 <= height,
        width * height < 0x1000_0000,
        (a as int) < width * height,
    ensures
        match r {
            Some(b) => cell_adjacent(width as int, height as int, a as int, b as int) && (
            b as int) < width * height,
            None => true,
        },
{
    proof {
        lemma_cell_bounds(width as int, height as int, a as int);
        assert(width <= width * height && height <= width * height) by (nonlinear_arith)
            requires 1 <= width && 1 <= height;
    }
    let wu = width as usize;
    let xa = (a % wu) as i32;
    let ya = (a / wu) as i32;
    let diff = d.diff();
    let xb = xa + diff.0;
    let yb = ya + diff.1;
    if 0 <= xb && xb < width && 0 <= yb && yb < height {
        proof {
            lemma_cell_id(width as int, height as int, xb as int, yb as int);
        }
        let b = (yb as usize) * wu + (xb as usize);
        Some(b)
    } else {
        None
    }
}

/// The neighbour of cell `c` toward cell zero in the row-major order:
/// the cell above when `c` starts a row, else the cell to its left.
fn prev_cell(c: usize, width: i32, height: i32) -> (b: usize)
    requires
        1 <= width,
        1 <= height,
        width * height < 0x1000_0000,
        1 <= c,
        (c as int) < width * height,
    ensures
        cell_adjacent(width as int, height as int, b as int, c as int),
        b < c,
{
    let ghost w = width as int;
    let ghost h = height as int;
    proof {
        lemma_cell_bounds(w, h, c as int);
    }
    let wu = width as usize;
    if c % wu == 0 {
        proof {
            assert(c / wu >= 1) by (nonlinear_arith)
                requires 1 <= wu && 1 <= c && c % wu == 0;
            assert(c >= wu) by (nonlinear_arith)
                requires 1 <= wu && c % wu == 0 && c / wu >= 1;
            assert((c - wu) as int % w == c as int % w) by (nonlinear_arith)
                requires 1 <= w && w <= c && w == wu;
            assert((c - wu) as int / w == c as int / w - 1) by (nonlinear_arith)
                requires 1 <= w && w <= c && w == wu;
            lemma_cell_bounds(w, h, c as int - w);
        }
        c - wu
    } else {
        proof {
            assert(c as int % w >= 1);
            assert((c - 1) as int % w == c as int % w - 1) by (nonlinear_arith)
                requires 1 <= w && 1 <= c && c as int % w >= 1 && w == wu;
            assert((c - 1) as int / w == c as int / w) by (nonlinear_arith)
                requires 1 <= w && 1 <= c && c as int % w >= 1 && w == wu;
            lemma_cell_bounds(w, h, c as int - 1);
        }
        c - 1
    }
}

/// Overwrites the glyph of the interior tile of `cell` with a marker,
/// leaving its walkability — cell interiors are always walkable — and
/// every other tile untouched.
fn place_marker(
    tiles: &mut Vec<Vec<Tile>>,
    width: i32,
    height: i32,
    cell: usize,
    glyph: char,
) -> (p: Point)
    requires
        1 <= width,
        1 <= height,
        width * height < 0x1000_0000,
        grid_dims(old(tiles)@, 2 * width + 1, 2 * height + 1),
        maze_structure(old(tiles)@, width as int, height as int),
        valid_cell(width as int, height as int, cell as int),
    ensures
        grid_dims(final(tiles)@, 2 * width + 1, 2 * height + 1),
        maze_structure(final(tiles)@, width as int, height as int),
        same_walkability(old(tiles)@, final(tiles)@),
        p.0 as int == 2 * crate::cells::cell_col(width as int, cell as int) + 1,
        p.1 as int == 2 * crate::cells::cell_row(width as int, cell as int) + 1,
        p.0 % 2 == 1 && p.1 % 2 == 1,
        in_grid(2 * width + 1, 2 * height + 1, p.0 as int, p.1 as int),
        tile_walk(final(tiles)@, p.0 as int, p.1 as int),
        tile_char(final(tiles)@, p.0 as int, p.1 as int) == glyph,
        forall|x: int, y: int|
            #![trigger final(tiles)@[y]@[x]]
            in_grid(2 * width + 1, 2 * height + 1, x, y) && !(x == p.0 as int && y == p.1 as int)
                ==> final(tiles)@[y]@[x] == old(tiles)@[y]@[x],
{
    let ghost g0 = tiles@;
    let ghost w = width as int;
    let ghost h = height as int;
    proof {
        lemma_cell_bounds(w, h, cell as int);
        assert(width <= width * height && height <= width * height) by (nonlinear_arith)
            requires 1 <= width && 1 <= height;
    }
    let wu = width as usize;
    let mx = (cell % wu) * 2 + 1;
    let my = (cell / wu) * 2 + 1;
    proof {
        assert(mx as int == 2 * crate::cells::cell_col(w, cell as int) + 1);
        assert(my as int == 2 * crate::cells::cell_row(w, cell as int) + 1);
        assert(in_grid(2 * w + 1, 2 * h + 1, mx as int, my as int));
        assert(tile_walk(g0, mx as int, my as int));
    }
    tiles[my][mx] = Tile { tile: glyph, walkable: true };
    let p = Point(mx as i32, my as i32);
    proof {
        let g1 = tiles@;
        assert forall|x: int, y: int|
            #![trigger g1[y]@[x]]
            in_grid(2 * w + 1, 2 * h + 1, x, y) && !(x == p.0 as int && y == p.1 as int)
            implies g1[y]@[x] == g0[y]@[x] by {}
        assert forall|x: int, y: int| in_grid(2 * w + 1, 2 * h + 1, x, y) implies {
            &&& ((x % 2 == 1 && y % 2 == 1) ==> #[trigger] tile_walk(g1, x, y))
            &&& ((x % 2 == 0 && y % 2 == 0) ==> !tile_walk(g1, x, y))
            &&& ((x == 0 || y == 0 || x == 2 * w || y == 2 * h) ==> !tile_walk(g1, x, y))
            &&& tile_walk(g1, x, y) == tile_walk(g0, x, y)
        } by {
            assert((x % 2 == 1 && y % 2 == 1) ==> tile_walk(g0, x, y));
            assert((x % 2 == 0 && y % 2 == 0) ==> !tile_walk(g0, x, y));
            assert((x == 0 || y == 0 || x == 2 * w || y == 2 * h) ==> !tile_walk(g0, x, y));
            if x == p.0 as int && y == p.1 as int {
                assert(g1[y]@[x] == Tile { tile: glyph, walkable: true });
            } else {
                assert(g1[y]@[x] == g0[y]@[x]);
            }
        }
    }
    p
}

/// Carves the passage between the adjacent cells `a` and `b`, which must
/// lie in different partitions: the tile between them becomes walkable
/// and blank, partition `lab[b]` is relabelled into `lab[a]`, and the
/// partition count drops by one. The generation invariant is preserved
/// with exactly one more passage in the grid.
fn carve_tile(tiles: &mut Vec<Vec<Tile>>, width: i32, height: i32, a: usize, b: usize)
    requires
        1 <= width,
        1 <= height,
        width * height < 0x1000_0000,
        grid_dims(old(tiles)@, 2 * width + 1, 2 * height + 1),
        carve_structure(old(tiles)@, width as int, height as int),
        cell_adjacent(width as int, height as int, a as int, b as int),
        !tile_walk(
            old(tiles)@,
            mid_x(width as int, a as int, b as int),
            mid_y(width as int, a as int, b as int),
        ),
    ensures
        grid_dims(final(tiles)@, 2 * width + 1, 2 * height + 1),
        carve_structure(final(tiles)@, width as int, height as int),
        grid_passages(final(tiles)@) == grid_passages(old(tiles)@) + 1,
        passage(final(tiles)@, width as int, height as int, a as int, b as int),
        forall|x: int, y: int|
            in_grid(2 * width + 1, 2 * height + 1, x, y) && tile_walk(old(tiles)@, x, y)
                ==> #[trigger] tile_walk(final(tiles)@, x, y),
        forall|x: int, y: int|
            #![trigger final(tiles)@[y]@[x]]
            in_grid(2 * width + 1, 2 * height + 1, x, y) && !(x == mid_x(
                width as int,
                a as int,
                b as int,
            ) && y == mid_y(width as int, a as int, b as int)) ==> final(tiles)@[y]@[x] == old(
                tiles,
            )@[y]@[x],
{
    let ghost w = width as int;
    let ghost h = height as int;
    let ghost g0 = tiles@;
    proof {
        lemma_cell_bounds(w, h, a as int);
        lemma_cell_bounds(w, h, b as int);
        lemma_mid_in_grid(w, h, a as int, b as int);
    }
    let wu = width as usize;
    let mx: usize = a % wu + b % wu + 1;
    let my: usize = a / wu + b / wu + 1;
    let ghost mxi = mid_x(w, a as int, b as int);
    let ghost myi = mid_y(w, a as int, b as int);
    proof {
        assert(mx as int == mxi);
        assert(my as int == myi);
    }
    tiles[my][mx] = Tile { tile: ' ', walkable: true };
    proof {
        let g1 = tiles@;
        assert(g1[myi]@ =~= g0[myi]@.update(mxi, Tile { tile: ' ', walkable: true }));
        crate::cells::lemma_grid_carve_count(g0, g1, mxi, myi, Tile { tile: ' ', walkable: true });
        assert forall|x: int, y: int|
            #![trigger g1[y]@[x]]
            in_grid(2 * w + 1, 2 * h + 1, x, y) && !(x == mxi && y == myi) implies g1[y]@[x]
            == g0[y]@[x] by {}
        assert(passage(g1, w, h, a as int, b as int));
        lemma_carve_structure(g0, g1, w, h, mxi, myi);
    }
}

/// Folds the partition labelled `lab[b]` into the one labelled `lab[a]`:
/// afterwards every cell of either carries `lab[a]`'s label, and the
/// number of distinct labels — tracked by `count` — is down by one.
fn relabel(lab: &mut Vec<usize>, count: &mut usize, a: usize, b: usize)
    requires
        a < old(lab)@.len(),
        b < old(lab)@.len(),
        old(lab)@[a as int] != old(lab)@[b as int],
        *old(count) as int == old(lab)@.to_set().len(),
    ensures
        final(lab)@.len() == old(lab)@.len(),
        forall|c: int|
            0 <= c < old(lab)@.len() ==> final(lab)@[c] == (if old(lab)@[c] == old(lab)@[b as int] {
                old(lab)@[a as int]
            } else {
                old(lab)@[c]
            }),
        *final(count) == *old(count) - 1,
        *final(count) as int == final(lab)@.to_set().len(),
{
    let ghost lab0 = lab@;
    let la = lab[a];
    let lb = lab[b];
    let n = lab.len();
    let mut i: usize = 0;
    while i < n
        invariant
            n == lab@.len(),
            i <= n,
            a < n,
            b < n,
            la == lab0[a as int],
            lb == lab0[b as int],
            la != lb,
            lab0.len() == n,
            forall|c: int|
                0 <= c < i ==> lab@[c] == (if lab0[c] == lb {
                    la
                } else {
                    lab0[c]
                }),
            forall|c: int| i <= c < n ==> lab@[c] == lab0[c],
        decreases n - i,
    {
        if lab[i] == lb {
            lab[i] = la;
        }
        i = i + 1;
    }
    proof {
        lemma_distinct_card_ge_two(lab0, a as int, b as int);
    }
    *count = *count - 1;
    proof {
        assert(lab0.contains(lb)) by {
            assert(lab0[b as int] == lb);
        }
        lemma_relabel_card(lab0, lab@, la, lb, a as int);
    }
}

/// Carves the passage between the adjacent cells `a` and `b`, which must
/// lie in different partitions: the tile between them becomes walkable
/// and blank, partition `lab[b]` is relabelled into `lab[a]`, and the
/// partition count drops by one. The generation invariant is preserved
/// with exactly one more passage in the grid.
#[verifier::rlimit(100)]
fn carve(
    tiles: &mut Vec<Vec<Tile>>,
    lab: &mut Vec<usize>,
    count: &mut usize,
    width: i32,
    height: i32,
    a: usize,
    b: usize,
)
    requires
        gen_inv(old(tiles)@, old(lab)@, *old(count) as int, width as int, height as int),
        cell_adjacent(width as int, height as int, a as int, b as int),
        old(lab)@[a as int] != old(lab)@[b as int],
    ensures
        gen_inv(final(tiles)@, final(lab)@, *final(count) as int, width as int, height as int),
        *final(count) == *old(count) - 1,
        grid_passages(final(tiles)@) == grid_passages(old(tiles)@) + 1,
        final(lab)@.len() == old(lab)@.len(),
        forall|c: int|
            0 <= c < old(lab)@.len() ==> final(lab)@[c] == (if old(lab)@[c] == old(lab)@[b as int] {
                old(lab)@[a as int]
            } else {
                old(lab)@[c]
            }),
        forall|x: int, y: int|
            in_grid(2 * width + 1, 2 * height + 1, x, y) && tile_walk(old(tiles)@, x, y)
                ==> #[trigger] tile_walk(final(tiles)@, x, y),
        passage(final(tiles)@, width as int, height as int, a as int, b as int),
{
    let ghost w = width as int;
    let ghost h = height as int;
    let ghost g0 = tiles@;
    let ghost lab0 = lab@;
    proof {
        lemma_mid_in_grid(w, h, a as int, b as int);
        // The slot between two partitions cannot already be carved: that
        // passage would put a and b in one partition.
        if tile_walk(g0, mid_x(w, a as int, b as int), mid_y(w, a as int, b as int)) {
            assert(passage(g0, w, h, a as int, b as int));
            assert(false);
        }
    }
    carve_tile(tiles, width, height, a, b);
    relabel(lab, count, a, b);
    proof {
        let g1 = tiles@;
        let lab1 = lab@;
        lemma_carve_keeps_edges(g0, g1, lab0, lab1, w, h, a as int, b as int);
        lemma_carve_connects(g0, g1, lab0, lab1, w, h, a as int, b as int);
        lemma_carve_separates(g0, g1, lab0, lab1, w, h, a as int, b as int);
        lemma_carve_acyclic(g0, g1, lab0, w, h, a as int, b as int);
    }
}

/// One step of the completion sweep: joins cell `c` to its predecessor
/// cell unless they already share a partition. Afterwards cells `0..=c`
/// all share cell 0's partition.
#[verifier::rlimit(100)]
fn sweep_join(
    tiles: &mut Vec<Vec<Tile>>,
    lab: &mut Vec<usize>,
    count: &mut usize,
    width: i32,
    height: i32,
    c: usize,
)
    requires
        gen_inv(old(tiles)@, old(lab)@, *old(count) as int, width as int, height as int),
        1 <= c,
        (c as int) < width * height,
        crate::cells::prefix_merged(old(lab)@, c as int),
    ensures
        gen_inv(final(tiles)@, final(lab)@, *final(count) as int, width as int, height as int),
        crate::cells::prefix_merged(final(lab)@, c as int + 1),
{
    let b = prev_cell(c, width, height);
    let ghost labp = lab@;
    if lab[c] != lab[b] {
        carve(tiles, lab, count, width, height, b, c);
        proof {
            crate::cells::lemma_prefix_after_merge(labp, lab@, b as int, c as int);
        }
    } else {
        proof {
            crate::cells::lemma_prefix_extend(lab@, b as int, c as int);
        }
    }
}

/// Two grids walkable alike are maze structures alike.
proof fn lemma_structure_same_walk(g0: Seq<Vec<Tile>>, g1: Seq<Vec<Tile>>, w: int, h: int)
    requires
        1 <= w,
        1 <= h,
        grid_dims(g0, 2 * w + 1, 2 * h + 1),
        grid_dims(g1, 2 * w + 1, 2 * h + 1),
        maze_structure(g0, w, h),
        same_walkability(g0, g1),
    ensures
        maze_structure(g1, w, h),
{
    assert forall|x: int, y: int| in_grid(2 * w + 1, 2 * h + 1, x, y) implies {
        &&& ((x % 2 == 1 && y % 2 == 1) ==> #[trigger] tile_walk(g1, x, y))
        &&& ((x % 2 == 0 && y % 2 == 0) ==> !tile_walk(g1, x, y))
        &&& ((x == 0 || y == 0 || x == 2 * w || y == 2 * h) ==> !tile_walk(g1, x, y))
    } by {
        assert(tile_walk(g0, x, y) == tile_walk(g1, x, y));
        assert((x % 2 == 1 && y % 2 == 1) ==> tile_walk(g0, x, y));
        assert((x % 2 == 0 && y % 2 == 0) ==> !tile_walk(g0, x, y));
        assert((x == 0 || y == 0 || x == 2 * w || y == 2 * h) ==> !tile_walk(g0, x, y));
    }
}

impl Maze {
    /// Generates a maze of `width` by `height` cells by randomized
    /// spanning-tree construction: every cell interior is walkable, the
    /// carved passages number exactly `width·height − 1`, connect every
    /// pair of cells and close no cycle — a spanning tree of the cell
    /// graph — every wall tile carries the box-drawing glyph
    /// its four-neighbour wall pattern owes it, and a goal marker and a
    /// start marker sit on randomly drawn cell interiors (one cell may
    /// receive both, the start marker on top). The player starts at the
    /// start marker.
    pub fn gen(width: i32, height: i32) -> (m: Maze)
        requires
            1 <= width,
            1 <= height,
            width * height < 0x1000_0000,
        ensures
            m.wf(),
            m.grid_width() == 2 * width + 1,
            m.grid_height() == 2 * height + 1,
            grid_passages(m.tiles@) == width * height - 1,
            forall|a: int, b: int|
                valid_cell(width as int, height as int, a) && valid_cell(
                    width as int,
                    height as int,
                    b,
                ) ==> connected(m.tiles@, width as int, height as int, a, b),
            acyclic(m.tiles@, width as int, height as int),
            forall|x: int, y: int|
                in_grid(2 * width + 1, 2 * height + 1, x, y) && !tile_walk(m.tiles@, x, y)
                    ==> #[trigger] tile_char(m.tiles@, x, y) == glyph_target(
                    m.tiles@,
                    2 * width + 1,
                    2 * height + 1,
                    x,
                    y,
                ),
            m.player_pos == m.start_pos,
            forall|x: int, y: int|
                in_grid(2 * width + 1, 2 * height + 1, x, y) && tile_walk(m.tiles@, x, y) && !(x
                    == m.start_pos.0 as int && y == m.start_pos.1 as int) && !(x
                    == m.goal_pos.0 as int && y == m.goal_pos.1 as int)
                    ==> #[trigger] tile_char(m.tiles@, x, y) == ' ',
            tile_char(m.tiles@, m.start_pos.0 as int, m.start_pos.1 as int) == '\u{2689}',
            m.goal_pos != m.start_pos ==> tile_char(m.tiles@, m.goal_pos.0 as int, m.goal_pos.1 as int)
                == '\u{2691}',
    {
        let ghost w = width as int;
        let ghost h = height as int;
        proof {
            assert(width <= width * height && height <= width * height) by (nonlinear_arith)
                requires 1 <= width && 1 <= height;
        }
        let gwi: i32 = 2 * width + 1;
        let ghi: i32 = 2 * height + 1;
        let n: usize = (width as usize) * (height as usize);
        let mut tiles = init_tiles(width, height);
        let mut lab = init_labels(n);
        let mut count: usize = n;
        proof {
            lemma_identity_card(lab@);
            assert forall|x: int, y: int|
                0 <= y < tiles@.len() && 0 <= x < tiles@[y]@.len() && is_passage_pos(x, y)
                implies !#[trigger] tile_walk(tiles@, x, y) by {
                assert(tile_walk(tiles@, x, y) == (x % 2 == 1 && y % 2 == 1));
            }
            lemma_grid_passages_zero(tiles@);
            assert forall|a2: int, b2: int| !#[trigger] passage(tiles@, w, h, a2, b2) by {
                if passage(tiles@, w, h, a2, b2) {
                    lemma_mid_in_grid(w, h, a2, b2);
                    assert(tile_walk(tiles@, mid_x(w, a2, b2), mid_y(w, a2, b2)) == (mid_x(
                        w,
                        a2,
                        b2,
                    ) % 2 == 1 && mid_y(w, a2, b2) % 2 == 1));
                }
            }
            assert forall|x: int, y: int|
                #![trigger lab@[x], lab@[y]]
                valid_cell(w, h, x) && valid_cell(w, h, y) && lab@[x] != lab@[y]
                implies !connected(tiles@, w, h, x, y) by {
                if connected(tiles@, w, h, x, y) {
                    let p = choose|p: Seq<int>|
                        #[trigger] crate::cells::is_path(tiles@, w, h, p) && p.first() == x
                            && p.last() == y;
                    lemma_no_passage_path(tiles@, w, h, p);
                    assert(false);
                }
            }
            assert forall|a2: int, b2: int|
                #![trigger lab@[a2], lab@[b2]]
                valid_cell(w, h, a2) && valid_cell(w, h, b2) && lab@[a2] == lab@[b2]
                implies connected(tiles@, w, h, a2, b2) by {
                assert(a2 == b2);
                lemma_connected_refl(tiles@, w, h, a2);
            }
            assert(gen_inv(tiles@, lab@, count as int, w, h));
        }
        // Random phase: draw a cell and a direction, carve when the edge
        // stays inside the maze and joins two partitions. The draw budget
        // keeps the loop finite; it is generous enough that the maze is
        // essentially always finished here.
        proof {
            assert(1 <= n) by (nonlinear_arith)
                requires 1 <= width && 1 <= height && n == width * height;
        }
        let mut attempts: u64 = 0;
        let limit: u64 = 200 * (n as u64) + 1000;
        while count > 1 && attempts < limit
            invariant
                gen_inv(tiles@, lab@, count as int, w, h),
                n == width * height,
                1 <= n,
                1 <= width,
                1 <= height,
                w == width as int,
                h == height as int,
                width * height < 0x1000_0000,
                attempts <= limit,
            decreases limit - attempts,
        {
            attempts = attempts + 1;
            let a = rand_below(n as u32) as usize;
            let d = Direction::pick();
            match cell_step(a, d, width, height) {
                Some(b) => {
                    if lab[a] != lab[b] {
                        carve(&mut tiles, &mut lab, &mut count, width, height, a, b);
                    }
                },
                None => {},
            }
        }
        // Completion sweep: join each cell to its predecessor unless the
        // random phase already did. Afterwards a single partition is left,
        // so the passages form a spanning tree.
        proof {
            crate::cells::lemma_prefix_merged_one(lab@);
        }
        let mut c: usize = 1;
        while c < n
            invariant
                gen_inv(tiles@, lab@, count as int, w, h),
                n == width * height,
                1 <= n,
                1 <= width,
                1 <= height,
                w == width as int,
                h == height as int,
                width * height < 0x1000_0000,
                1 <= c <= n,
                crate::cells::prefix_merged(lab@, c as int),
            decreases n - c,
        {
            sweep_join(&mut tiles, &mut lab, &mut count, width, height, c);
            c = c + 1;
        }
        proof {
            assert(n >= 1) by (nonlinear_arith)
                requires 1 <= width && 1 <= height && n == width * height;
            crate::cells::lemma_prefix_all(lab@);
            lemma_constant_card_one(lab@);
            assert(count as int == 1);
            assert(grid_passages(tiles@) == w * h - 1);
            assert forall|a2: int, b2: int|
                valid_cell(w, h, a2) && valid_cell(w, h, b2) implies connected(
                tiles@,
                w,
                h,
                a2,
                b2,
            ) by {
                assert(lab@[a2] == lab@[0]);
                assert(lab@[b2] == lab@[0]);
            }
        }
        // Glyph pass over the finished walls.
        let ghost g_carved = tiles@;
        let mut tiles2 = derive_glyphs(&tiles, gwi, ghi);
        let ghost g_glyphed = tiles2@;
        proof {
            lemma_grid_passages_same_walk(g_carved, g_glyphed);
            assert forall|x: int, y: int|
                in_grid(2 * w + 1, 2 * h + 1, x, y) && tile_walk(g_carved, x, y)
                implies #[trigger] tile_walk(g_glyphed, x, y) by {
                assert(tile_walk(g_carved, x, y) == tile_walk(g_glyphed, x, y));
            }
            assert forall|a2: int, b2: int|
                valid_cell(w, h, a2) && valid_cell(w, h, b2) implies connected(
                g_glyphed,
                w,
                h,
                a2,
                b2,
            ) by {
                assert(connected(g_carved, w, h, a2, b2));
                lemma_connected_mono(g_carved, g_glyphed, w, h, a2, b2);
            }
            lemma_structure_same_walk(g_carved, g_glyphed, w, h);
            assert forall|x: int, y: int|
                in_grid(2 * w + 1, 2 * h + 1, x, y) implies #[trigger] tile_walk(g_carved, x, y)
                == tile_walk(g_glyphed, x, y) by {}
            lemma_acyclic_same_walk(g_carved, g_glyphed, w, h);
        }
        // Markers: draw the goal cell, then independently the start cell;
        // when one cell receives both, the start marker lands on top.
        let goal = rand_below(n as u32) as usize;
        let gp = place_marker(&mut tiles2, width, height, goal, '\u{2691}');
        let ghost g_goal = tiles2@;
        let start = rand_below(n as u32) as usize;
        let sp = place_marker(&mut tiles2, width, height, start, '\u{2689}');
        let ghost g_done = tiles2@;
        proof {
            lemma_grid_passages_same_walk(g_glyphed, g_goal);
            lemma_grid_passages_same_walk(g_goal, g_done);
            assert forall|x: int, y: int|
                in_grid(2 * w + 1, 2 * h + 1, x, y) && tile_walk(g_glyphed, x, y)
                implies #[trigger] tile_walk(g_goal, x, y) by {
                assert(tile_walk(g_glyphed, x, y) == tile_walk(g_goal, x, y));
            }
            assert forall|x: int, y: int|
                in_grid(2 * w + 1, 2 * h + 1, x, y) && tile_walk(g_goal, x, y)
                implies #[trigger] tile_walk(g_done, x, y) by {
                assert(tile_walk(g_goal, x, y) == tile_walk(g_done, x, y));
            }
            assert forall|a2: int, b2: int|
                valid_cell(w, h, a2) && valid_cell(w, h, b2) implies connected(
                g_done,
                w,
                h,
                a2,
                b2,
            ) by {
                assert(connected(g_glyphed, w, h, a2, b2));
                lemma_connected_mono(g_glyphed, g_goal, w, h, a2, b2);
                lemma_connected_mono(g_goal, g_done, w, h, a2, b2);
            }
            assert forall|x: int, y: int|
                in_grid(2 * w + 1, 2 * h + 1, x, y) implies #[trigger] tile_walk(g_glyphed, x, y)
                == tile_walk(g_goal, x, y) by {}
            lemma_acyclic_same_walk(g_glyphed, g_goal, w, h);
            assert forall|x: int, y: int|
                in_grid(2 * w + 1, 2 * h + 1, x, y) implies #[trigger] tile_walk(g_goal, x, y)
                == tile_walk(g_done, x, y) by {}
            lemma_acyclic_same_walk(g_goal, g_done, w, h);
        }
        let m = Maze {
            tiles: tiles2,
            width: gwi,
            height: ghi,
            player_pos: sp,
            start_pos: sp,
            goal_pos: gp,
        };
        proof {
            assert(m.cells_w() == w);
            assert(m.cells_h() == h);
            // The wall glyphs survive the markers: both marker tiles are
            // walkable, so every wall tile and its pattern are untouched.
            assert forall|x: int, y: int|
                in_grid(2 * w + 1, 2 * h + 1, x, y) && !tile_walk(m.tiles@, x, y)
                implies #[trigger] tile_char(m.tiles@, x, y) == glyph_target(
                m.tiles@,
                2 * w + 1,
                2 * h + 1,
                x,
                y,
            ) by {
                assert(tile_walk(g_goal, x, y) == tile_walk(g_done, x, y));
                assert(tile_walk(g_glyphed, x, y) == tile_walk(g_goal, x, y));
                assert(tile_walk(g_carved, x, y) == tile_walk(g_glyphed, x, y));
                assert(tile_char(g_glyphed, x, y) == glyph_target(
                    g_carved,
                    2 * w + 1,
                    2 * h + 1,
                    x,
                    y,
                ));
                assert(tile_walk(g_done, sp.0 as int, sp.1 as int));
                assert(tile_walk(g_goal, gp.0 as int, gp.1 as int));
                assert(g_done[y]@[x] == g_goal[y]@[x]);
                assert(g_goal[y]@[x] == g_glyphed[y]@[x]);
                lemma_glyph_target_same_walk(g_carved, g_glyphed, 2 * w + 1, 2 * h + 1, x, y);
                lemma_glyph_target_same_walk(g_glyphed, g_goal, 2 * w + 1, 2 * h + 1, x, y);
                lemma_glyph_target_same_walk(g_goal, g_done, 2 * w + 1, 2 * h + 1, x, y);
            }
            // Away from the two markers, walkable tiles keep the blank
            // glyph they were carved with.
            assert forall|x: int, y: int|
                in_grid(2 * w + 1, 2 * h + 1, x, y) && tile_walk(g_done, x, y) && !(x
                    == sp.0 as int && y == sp.1 as int) && !(x == gp.0 as int && y == gp.1 as int)
                implies #[trigger] tile_char(g_done, x, y) == ' ' by {
                assert(g_done[y]@[x] == g_goal[y]@[x]);
                assert(g_goal[y]@[x] == g_glyphed[y]@[x]);
                assert(tile_walk(g_glyphed, x, y) == tile_walk(g_goal, x, y));
                assert(tile_walk(g_goal, x, y) == tile_walk(g_done, x, y));
                assert(tile_walk(g_carved, x, y) == tile_walk(g_glyphed, x, y));
                assert(tile_char(g_glyphed, x, y) == tile_char(g_carved, x, y));
                assert(tile_char(g_carved, x, y) == ' ');
            }
            // Marker tiles sit on cell interiors, which stay walkable.
            assert(tile_walk(g_done, sp.0 as int, sp.1 as int));
            assert(tile_walk(g_done, gp.0 as int, gp.1 as int)) by {
                assert(tile_walk(g_goal, gp.0 as int, gp.1 as int));
                assert(tile_walk(g_goal, gp.0 as int, gp.1 as int) == tile_walk(
                    g_done,
                    gp.0 as int,
                    gp.1 as int,
                ));
            }
            if m.goal_pos != m.start_pos {
                assert(g_done[gp.1 as int]@[gp.0 as int] == g_goal[gp.1 as int]@[gp.0 as int]);
            }
            assert(m.wf());
        }
        m
    }
}

} // verus!
