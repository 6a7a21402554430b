use raze::maze::{glyph_of_walls, Maze, Point};

/// Breadth-first search over the cell graph: returns how many cells are
/// reachable from cell 0 through carved passages, and the number of
/// carved passage tiles.
fn explore(m: &Maze, width: i32, height: i32) -> (usize, usize) {
    let w = width as usize;
    let h = height as usize;
    let n = w * h;
    let mut seen = vec![false; n];
    let mut queue = vec![0usize];
    seen[0] = true;
    let mut reached = 0usize;
    while let Some(c) = queue.pop() {
        reached += 1;
        let (cx, cy) = (c % w, c / w);
        let neighbours: [(i64, i64); 4] = [(0, -1), (0, 1), (1, 0), (-1, 0)];
        for (dx, dy) in neighbours {
            let nx = cx as i64 + dx;
            let ny = cy as i64 + dy;
            if nx < 0 || nx >= w as i64 || ny < 0 || ny >= h as i64 {
                continue;
            }
            let mx = (2 * cx as i64 + 1 + dx) as usize;
            let my = (2 * cy as i64 + 1 + dy) as usize;
            if m.tiles[my][mx].walkable() {
                let b = ny as usize * w + nx as usize;
                if !seen[b] {
                    seen[b] = true;
                    queue.push(b);
                }
            }
        }
    }
    let mut passages = 0usize;
    for y in 0..m.tiles.len() {
        for x in 0..m.tiles[y].len() {
            if (x % 2 == 0) != (y % 2 == 0) && m.tiles[y][x].walkable() {
                passages += 1;
            }
        }
    }
    (reached, passages)
}

#[test]
fn spanning_tree_edge_count_and_connectivity() {
    for (w, h) in [(1, 1), (2, 1), (1, 2), (4, 3), (5, 5), (7, 2)] {
        let m = Maze::gen(w, h);
        let (reached, passages) = explore(&m, w, h);
        let n = (w * h) as usize;
        assert_eq!(passages, n - 1, "passages for {}x{}", w, h);
        assert_eq!(reached, n, "connectivity for {}x{}", w, h);
    }
}

#[test]
fn grid_structure_cells_walls_and_borders() {
    let m = Maze::gen(4, 3);
    assert_eq!(m.tiles.len(), 7);
    for row in &m.tiles {
        assert_eq!(row.len(), 9);
    }
    for y in 0..7usize {
        for x in 0..9usize {
            if x % 2 == 1 && y % 2 == 1 {
                assert!(m.tiles[y][x].walkable());
            }
            if x % 2 == 0 && y % 2 == 0 {
                assert!(!m.tiles[y][x].walkable());
            }
            if x == 0 || y == 0 || x == 8 || y == 6 {
                assert!(!m.tiles[y][x].walkable());
            }
        }
    }
}

#[test]
fn wall_glyphs_match_their_neighbour_pattern() {
    let m = Maze::gen(5, 5);
    for y in 0..m.tiles.len() {
        for x in 0..m.tiles[y].len() {
            if !m.tiles[y][x].walkable() {
                let (xi, yi) = (x as i32, y as i32);
                let expected = glyph_of_walls(
                    m.wall_at(Point(xi, yi - 1)),
                    m.wall_at(Point(xi, yi + 1)),
                    m.wall_at(Point(xi + 1, yi)),
                    m.wall_at(Point(xi - 1, yi)),
                );
                assert_eq!(m.tiles[y][x].tile, expected, "glyph at ({}, {})", x, y);
            }
        }
    }
}

#[test]
fn glyph_table_exact_entries() {
    assert_eq!(glyph_of_walls(false, false, false, false), 'E');
    assert_eq!(glyph_of_walls(false, false, true, true), '━');
    assert_eq!(glyph_of_walls(true, true, false, false), '┃');
    assert_eq!(glyph_of_walls(true, true, true, true), '╋');
    assert_eq!(glyph_of_walls(false, true, true, false), '┏');
    assert_eq!(glyph_of_walls(true, false, false, true), '┛');
}

#[test]
fn markers_land_on_odd_odd_walkable_cells() {
    for _ in 0..10 {
        let m = Maze::gen(3, 3);
        for p in [m.start_pos, m.goal_pos] {
            assert_eq!(p.0 % 2, 1);
            assert_eq!(p.1 % 2, 1);
            assert!(m.tiles[p.1 as usize][p.0 as usize].walkable());
        }
        assert_eq!(m.player_pos, m.start_pos);
        let s = m.start_pos;
        assert_eq!(m.tiles[s.1 as usize][s.0 as usize].tile, '⚉');
        if m.goal_pos != m.start_pos {
            let g = m.goal_pos;
            assert_eq!(m.tiles[g.1 as usize][g.0 as usize].tile, '⚑');
        }
    }
}

#[test]
fn one_by_one_maze_is_three_by_three_with_markers_together() {
    let m = Maze::gen(1, 1);
    assert_eq!(m.tiles.len(), 3);
    for row in &m.tiles {
        assert_eq!(row.len(), 3);
    }
    assert!(m.tiles[1][1].walkable());
    for y in 0..3usize {
        for x in 0..3usize {
            if !(x == 1 && y == 1) {
                assert!(!m.tiles[y][x].walkable());
            }
        }
    }
    assert_eq!(m.start_pos, Point(1, 1));
    assert_eq!(m.goal_pos, Point(1, 1));
    assert_eq!(m.player_pos, Point(1, 1));
}

#[test]
fn two_by_one_maze_carves_its_single_internal_wall() {
    let m = Maze::gen(2, 1);
    assert_eq!(m.tiles.len(), 3);
    assert_eq!(m.tiles[0].len(), 5);
    assert!(m.tiles[1][2].walkable(), "the tile between the two cells");
    let (_, passages) = explore(&m, 2, 1);
    assert_eq!(passages, 1);
}

#[test]
fn wall_at_answers_bounds_and_walkability() {
    let m = Maze::gen(2, 2);
    assert!(m.wall_at(Point(0, 0)));
    assert!(!m.wall_at(Point(1, 1)));
    assert!(!m.wall_at(Point(-1, 0)));
    assert!(!m.wall_at(Point(0, -1)));
    assert!(!m.wall_at(Point(5, 0)));
    assert!(!m.wall_at(Point(0, 5)));
}
