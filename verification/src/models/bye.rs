//! Byes: rounds in which a player has no opponent.
use vstd::prelude::*;
use crate::models::point::ByePoint;

verus! {

/// A bye of the player with id `player_id` in a round.
#[derive(Debug, Clone, Copy, PartialEq, Eq, Structural)]
pub struct Bye {
    pub id: i64,
    pub round_id: i64,
    pub player_id: i64,
    pub bye_point: ByePoint,
}

impl Default for Bye {
    fn default() -> (b: Self)
        ensures
            b == (Bye { id: 0, round_id: 0, player_id: 0, bye_point: ByePoint::Z }),
    {
        Bye { id: 0, round_id: 0, player_id: 0, bye_point: ByePoint::Z }
    }
}

impl Bye {
    /// A new bye for a player, not yet stored (id and round 0).
    pub open spec fn spec_new(player_id: i64, point: ByePoint) -> Bye {
        Bye { id: 0, round_id: 0, player_id, bye_point: point }
    }

    /// A new bye for a player, not yet stored.
    pub fn new(player_id: i64, point: ByePoint) -> (b: Self)
        ensures
            b == Bye::spec_new(player_id, point),
    {
        Bye { player_id, bye_point: point, ..Default::default() }
    }
}

} // verus!
