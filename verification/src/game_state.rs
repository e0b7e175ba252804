//! Application and game states, as the core's surroundings drive them.

use vstd::prelude::*;

verus! {

/// Which screen the application is on. The core itself never switches
/// screens; it only reports the conditions (such as the player's death)
/// that make the surroundings transition.
#[derive(Debug, Clone, Copy, Default, Eq, PartialEq, Structural, Hash)]
pub enum AppState {
    #[default]
    Menu,
    Game,
    GameOver,
}

/// Whether a running game is live, paused, or waiting on a power-up
/// choice.
#[derive(Debug, Clone, Copy, Default, Eq, PartialEq, Structural, Hash)]
pub enum GameState {
    #[default]
    Play,
    Paused,
    PowerUp,
}

/// Whether the game is not paused.
pub fn not_paused(pause_state: &GameState) -> (live: bool)
    ensures
        live == (*pause_state == GameState::Play),
{
    *pause_state == GameState::Play
}

/// Whether the game is active.
pub fn in_game(game_state: &AppState) -> (active: bool)
    ensures
        active == (*game_state == AppState::Game),
{
    *game_state == AppState::Game
}

/// Whether the game is active and not paused: only then does a tick run.
pub fn in_game_not_paused(game_state: &AppState, pause_state: &GameState) -> (running: bool)
    ensures
        running == (*game_state == AppState::Game && *pause_state == GameState::Play),
{
    in_game(game_state) && not_paused(pause_state)
}

} // verus!
