//! The tournament's data: players, rounds, games, byes, points and titles.
pub mod bye;
pub mod game;
pub mod player;
pub mod point;
pub mod round;
pub mod title;
pub mod tournament;

pub use bye::Bye;
pub use game::{Game, GameState};
pub use player::Player;
pub use point::{ByePoint, GamePoint, Point};
pub use round::Round;
pub use title::Title;
pub use tournament::Tournament;
