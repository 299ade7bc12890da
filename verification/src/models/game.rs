//! Games between two players of a round.
use vstd::prelude::*;
use crate::models::point::GamePoint;

verus! {

/// Whether a game is still being played, and its result once it is over.
#[derive(Debug, Clone, Copy, PartialEq, Eq, Structural)]
pub enum GameState {
    /// The game has not been decided yet.
    Ongoing,
    /// The game is over: the white player's result, then the black player's.
    Finished(GamePoint, GamePoint),
}

impl Default for GameState {
    fn default() -> (s: Self)
        ensures
            s == GameState::Ongoing,
    {
        GameState::Ongoing
    }
}

/// A game of a round, between the players with ids `white_id` and `black_id`.
#[derive(Debug, Clone, Copy, PartialEq, Eq, Structural)]
pub struct Game {
    pub id: i64,
    pub round_id: i64,
    pub white_id: i64,
    pub black_id: i64,
    pub state: GameState,
}

impl Default for Game {
    fn default() -> (g: Self)
        ensures
            g == (Game { id: 0, round_id: 0, white_id: 0, black_id: 0, state: GameState::Ongoing }),
    {
        Game { id: 0, round_id: 0, white_id: 0, black_id: 0, state: GameState::Ongoing }
    }
}

impl Game {
    /// A new game between two players, not yet stored (id and round 0) and not yet played.
    pub open spec fn spec_new(white_id: i64, black_id: i64) -> Game {
        Game { id: 0, round_id: 0, white_id, black_id, state: GameState::Ongoing }
    }

    /// A new game between two players, not yet stored and not yet played.
    pub fn new(white_id: i64, black_id: i64) -> (g: Self)
        ensures
            g == Game::spec_new(white_id, black_id),
    {
        Game { white_id, black_id, ..Default::default() }
    }

    /// Whether the game is still being played.
    pub fn is_ongoing(&self) -> (r: bool)
        ensures
            r == (self.state == GameState::Ongoing),
    {
        match self.state {
            GameState::Ongoing => true,
            GameState::Finished(_, _) => false,
        }
    }
}

} // verus!
