//! The session state machine around the walk engine: one tick of input
//! either quits, moves the player, or does nothing, and play ends the
//! moment the player stands on the goal.

use vstd::prelude::*;

use crate::direction::Direction;
use crate::maze::Maze;

verus! {

/// The session state. `Won` and `Quit` are terminal: once reached, no
/// further input is processed.
#[derive(Copy, Clone, PartialEq, Eq, Structural, Debug)]
pub enum GameState {
    Playing,
    Won,
    Quit,
}

/// One tick's input: a quit request, a move request, or no key this tick.
#[derive(Copy, Clone, PartialEq, Eq, Structural, Debug)]
pub enum GameEvent {
    Quit,
    Move(Direction),
    Idle,
}

impl Maze {
    /// Whether the player stands on the goal: the win condition.
    pub fn is_won(&self) -> (b: bool)
        ensures
            b == (self.player_pos == self.goal_pos),
    {
        self.player_pos == self.goal_pos
    }
}

/// The maze and session state after one tick: a terminal state absorbs
/// every event; quitting ends the session; a move request walks the
/// player, subject to the walls; and after any processed event — also an
/// idle one — the session is won exactly when the player stands on the
/// goal.
pub open spec fn tick_spec(m: Maze, s: GameState, e: GameEvent) -> (Maze, GameState) {
    if s != GameState::Playing {
        (m, s)
    } else {
        match e {
            GameEvent::Quit => (m, GameState::Quit),
            GameEvent::Move(d) => {
                let m2 = Maze { player_pos: m.attempt_move_spec(m.player_pos, d), ..m };
                if m2.player_pos == m2.goal_pos {
                    (m2, GameState::Won)
                } else {
                    (m2, GameState::Playing)
                }
            },
            GameEvent::Idle => {
                if m.player_pos == m.goal_pos {
                    (m, GameState::Won)
                } else {
                    (m, GameState::Playing)
                }
            },
        }
    }
}

/// Processes one tick of the session: exactly the step `tick_spec`
/// describes, keeping the maze well formed.
pub fn tick(maze: &mut Maze, state: GameState, event: GameEvent) -> (s2: GameState)
    requires
        old(maze).wf(),
    ensures
        *final(maze) == tick_spec(*old(maze), state, event).0,
        s2 == tick_spec(*old(maze), state, event).1,
        final(maze).wf(),
{
    match state {
        GameState::Playing => {
            match event {
                GameEvent::Quit => GameState::Quit,
                GameEvent::Move(d) => {
                    maze.walk(d);
                    if maze.is_won() {
                        GameState::Won
                    } else {
                        GameState::Playing
                    }
                },
                GameEvent::Idle => {
                    if maze.is_won() {
                        GameState::Won
                    } else {
                        GameState::Playing
                    }
                },
            }
        },
        _ => state,
    }
}

/// Win detection requires no move: a session whose player already stands
/// on the goal — as when the start and goal draws name one cell — reports
/// a win on its very first tick, before any move is requested.
pub proof fn lemma_immediate_win(m: Maze)
    requires
        m.player_pos == m.goal_pos,
    ensures
        tick_spec(m, GameState::Playing, GameEvent::Idle).1 == GameState::Won,
{
}

/// Terminal states absorb every event: nothing moves and the state
/// stands.
pub proof fn lemma_terminal_absorbs(m: Maze, s: GameState, e: GameEvent)
    requires
        s != GameState::Playing,
    ensures
        tick_spec(m, s, e) == (m, s),
{
}

} // verus!
