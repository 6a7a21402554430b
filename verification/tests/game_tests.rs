use raze::direction::Direction;
use raze::game::{tick, GameEvent, GameState};
use raze::maze::Maze;

#[test]
fn start_equal_to_goal_wins_without_any_move() {
    // A one-cell maze has only one cell to draw, so start and goal
    // coincide and the very first idle tick reports the win.
    let mut m = Maze::gen(1, 1);
    assert_eq!(m.start_pos, m.goal_pos);
    assert!(m.is_won());
    let s = tick(&mut m, GameState::Playing, GameEvent::Idle);
    assert_eq!(s, GameState::Won);
}

#[test]
fn quit_ends_the_session() {
    let mut m = Maze::gen(3, 3);
    let s = tick(&mut m, GameState::Playing, GameEvent::Quit);
    assert_eq!(s, GameState::Quit);
}

#[test]
fn terminal_states_absorb_every_event() {
    let mut m = Maze::gen(3, 3);
    let before = m.player_pos;
    for state in [GameState::Won, GameState::Quit] {
        for event in [
            GameEvent::Quit,
            GameEvent::Idle,
            GameEvent::Move(Direction::North),
        ] {
            let s = tick(&mut m, state, event);
            assert_eq!(s, state);
            assert_eq!(m.player_pos, before);
        }
    }
}

#[test]
fn move_events_walk_the_player() {
    let mut m = Maze::gen(4, 4);
    let before = m.player_pos;
    let expected = m.attempt_move(before, Direction::East);
    let s = tick(&mut m, GameState::Playing, GameEvent::Move(Direction::East));
    assert_eq!(m.player_pos, expected);
    if m.player_pos == m.goal_pos {
        assert_eq!(s, GameState::Won);
    } else {
        assert_eq!(s, GameState::Playing);
    }
}

#[test]
fn idle_ticks_only_watch_for_the_win() {
    let mut m = Maze::gen(4, 4);
    let before = m.player_pos;
    let s = tick(&mut m, GameState::Playing, GameEvent::Idle);
    assert_eq!(m.player_pos, before);
    if before == m.goal_pos {
        assert_eq!(s, GameState::Won);
    } else {
        assert_eq!(s, GameState::Playing);
    }
}
