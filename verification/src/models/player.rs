//! Players and their scores.
use vstd::prelude::*;
use crate::models::point::Point;
use crate::models::title::Title;

verus! {

/// A player of the tournament with id `tournament_id`.
///
/// The score is kept in half points: every result of a chess tournament is a
/// multiple of half a point, so the score is exact.
#[derive(Clone, Debug)]
pub struct Player {
    pub id: i64,
    pub tournament_id: i64,
    pub name: String,
    pub half_points: u32,
    pub rating: u16,
    pub title: Option<Title>,
}

impl Player {
    /// Adds the points that `point` awards to the player's score; nothing else changes.
    pub fn sum_point<P: Point>(&mut self, point: &P)
        requires
            old(self).half_points + point.spec_value() <= u32::MAX,
        ensures
            final(self).half_points == old(self).half_points + point.spec_value(),
            final(self).id == old(self).id,
            final(self).tournament_id == old(self).tournament_id,
            final(self).name == old(self).name,
            final(self).rating == old(self).rating,
            final(self).title == old(self).title,
    {
        self.half_points = self.half_points + point.get_value();
    }
}

} // verus!
