//! The tournament itself.
use vstd::prelude::*;
use crate::models::round::Round;
use crate::text::{decimal, push_decimal};
use crate::types::InvokeErrorBind;

verus! {

/// A tournament of `number_rounds` rounds; `current_round_id` is the round being played.
#[derive(Debug)]
pub struct Tournament {
    pub id: i64,
    pub name: String,
    pub number_rounds: u16,
    pub current_round_id: Option<i64>,
}

/// The configuration lines of the pairing engine's input for a tournament of
/// `number_rounds` rounds: white gets the first board's white pieces, and the
/// number of rounds.
pub open spec fn trf_config(number_rounds: nat) -> Seq<char> {
    "XXC white1\r\nXXR "@ + decimal(number_rounds)
}

impl Tournament {
    /// The configuration lines of the pairing engine's input.
    pub fn get_trf_config(&self) -> (s: String)
        ensures
            s@ == trf_config(self.number_rounds as nat),
    {
        let mut s = String::from_str("XXC white1\r\nXXR ");
        push_decimal(&mut s, self.number_rounds as u64);
        s
    }

    /// Whether the tournament may be created: it needs a name and at least five
    /// rounds, else the error `Other("Invalid input")`.
    pub fn check_new(&self) -> (r: Result<(), InvokeErrorBind>)
        ensures
            r is Ok <==> (self.name@.len() > 0 && self.number_rounds >= 5),
            r matches Err(e) ==> (e matches InvokeErrorBind::Other(m) && m@ == "Invalid input"@),
    {
        if self.name.as_str().is_empty() || self.number_rounds < 5 {
            return Err(InvokeErrorBind::other("Invalid input"));
        }
        Ok(())
    }

    /// The round that comes after `current` (or after an empty round when there is
    /// none yet): the same round with its number one higher.
    pub fn next_round(&self, current: Option<Round>) -> (r: Round)
        requires
            current matches Some(c) ==> c.number < u16::MAX,
        ensures
            match current {
                Some(c) => r.id == c.id && r.tournament_id == c.tournament_id
                    && r.number == c.number + 1 && r.date == c.date,
                None => r.id == 0 && r.tournament_id == 0 && r.number == 1
                    && r.date@ == Seq::<char>::empty(),
            },
    {
        let mut round = match current {
            Some(c) => c,
            None => Round::default(),
        };
        round.number = round.number + 1;
        round
    }
}

} // verus!
