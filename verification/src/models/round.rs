//! Rounds of a tournament.
use vstd::prelude::*;

verus! {

/// A round of the tournament with id `tournament_id`; rounds are numbered from 1.
#[derive(Debug)]
pub struct Round {
    pub id: i64,
    pub tournament_id: i64,
    pub number: u16,
    pub date: String,
}

impl Default for Round {
    fn default() -> (r: Self)
        ensures
            r.id == 0,
            r.tournament_id == 0,
            r.number == 0,
            r.date@ == Seq::<char>::empty(),
    {
        Round { id: 0, tournament_id: 0, number: 0, date: String::new() }
    }
}

} // verus!
