use raze::direction::Direction;
use raze::maze::{Maze, Point};

const DIRECTIONS: [Direction; 4] = [
    Direction::North,
    Direction::South,
    Direction::East,
    Direction::West,
];

#[test]
fn direction_offsets_are_fixed() {
    assert_eq!(Direction::North.diff(), (0, -1));
    assert_eq!(Direction::South.diff(), (0, 1));
    assert_eq!(Direction::East.diff(), (1, 0));
    assert_eq!(Direction::West.diff(), (-1, 0));
}

#[test]
fn pick_draws_every_direction_eventually() {
    let mut seen = [false; 4];
    for _ in 0..2000 {
        match Direction::pick() {
            Direction::North => seen[0] = true,
            Direction::South => seen[1] = true,
            Direction::East => seen[2] = true,
            Direction::West => seen[3] = true,
        }
    }
    assert!(seen.iter().all(|&s| s));
}

#[test]
fn point_add_applies_the_offset() {
    let p = Point(3, 4);
    assert_eq!(p.add(Direction::North), Point(3, 3));
    assert_eq!(p.add(Direction::South), Point(3, 5));
    assert_eq!(p.add(Direction::East), Point(4, 4));
    assert_eq!(p.add(Direction::West), Point(2, 4));
}

#[test]
fn attempt_move_stays_in_bounds_and_on_walkable_tiles() {
    let m = Maze::gen(3, 3);
    for y in 0..m.tiles.len() {
        for x in 0..m.tiles[y].len() {
            if !m.tiles[y][x].walkable() {
                continue;
            }
            let pos = Point(x as i32, y as i32);
            for d in DIRECTIONS {
                let r = m.attempt_move(pos, d);
                assert!(r.0 >= 0 && r.1 >= 0);
                assert!((r.0 as usize) < m.tiles[0].len());
                assert!((r.1 as usize) < m.tiles.len());
                assert!(m.tiles[r.1 as usize][r.0 as usize].walkable());
            }
        }
    }
}

#[test]
fn blocked_moves_leave_the_position_exactly_unchanged() {
    let m = Maze::gen(3, 3);
    // West from the leftmost cell runs into the border wall, always.
    let pos = Point(1, 1);
    let mut p = pos;
    for _ in 0..5 {
        p = m.attempt_move(p, Direction::West);
        assert_eq!(p, pos);
    }
}

#[test]
fn accepted_moves_step_onto_the_neighbouring_tile() {
    let m = Maze::gen(4, 4);
    for y in 0..m.tiles.len() {
        for x in 0..m.tiles[y].len() {
            if !m.tiles[y][x].walkable() {
                continue;
            }
            let pos = Point(x as i32, y as i32);
            for d in DIRECTIONS {
                let (dx, dy) = d.diff();
                let target = Point(pos.0 + dx, pos.1 + dy);
                let target_walkable = target.0 >= 0
                    && target.1 >= 0
                    && (target.0 as usize) < m.tiles[0].len()
                    && (target.1 as usize) < m.tiles.len()
                    && m.tiles[target.1 as usize][target.0 as usize].walkable();
                let r = m.attempt_move(pos, d);
                if target_walkable {
                    assert_eq!(r, target);
                } else {
                    assert_eq!(r, pos);
                }
            }
        }
    }
}

#[test]
fn walk_moves_the_player_as_attempt_move_says() {
    let mut m = Maze::gen(4, 4);
    for d in DIRECTIONS {
        let before = m.player_pos;
        let start = m.start_pos;
        let goal = m.goal_pos;
        let expected = m.attempt_move(before, d);
        m.walk(d);
        assert_eq!(m.player_pos, expected);
        assert_eq!(m.start_pos, start);
        assert_eq!(m.goal_pos, goal);
    }
}
