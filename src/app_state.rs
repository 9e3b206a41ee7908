use vstd::prelude::*;

use crate::tile_map::TileMap;

verus! {

/// Where a session stands: in the menu, playing, or over.
#[derive(Clone, Copy, Debug, PartialEq, Eq, Structural, Hash)]
pub enum AppState {
    MainMenu,
    InGame,
    Victory,
    Defeat,
}

impl Default for AppState {
    fn default() -> (r: AppState)
        ensures
            r == AppState::MainMenu,
    {
        AppState::MainMenu
    }
}

impl AppState {
    /// The state after a move has been played on `map`. A game in progress
    /// ends in defeat when a mine has exploded, and otherwise in victory when
    /// the board is won; defeat is checked first, so a board with an
    /// explosion never counts as won. Any other state stays as it is.
    pub fn after_move(self, map: &TileMap) -> (r: AppState)
        requires
            map@.wf(),
        ensures
            r == if self == AppState::InGame {
                if map@.lost() {
                    AppState::Defeat
                } else if map@.won() {
                    AppState::Victory
                } else {
                    AppState::InGame
                }
            } else {
                self
            },
    {
        if self != AppState::InGame {
            return self;
        }
        if map.has_lost() {
            AppState::Defeat
        } else if map.has_won() {
            AppState::Victory
        } else {
            AppState::InGame
        }
    }
}

} // verus!
