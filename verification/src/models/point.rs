//! Points awarded by game results and byes, and their one-letter codes.
use vstd::prelude::*;
use vstd::string::*;

verus! {

/// Something that awards points to a player.
///
/// Points are counted in half points, so that every score of a chess
/// tournament (wins, draws, byes) is an exact whole number.
pub trait Point {
    /// The points awarded, in half points.
    spec fn spec_value(&self) -> nat;

    /// The points awarded, in half points.
    fn get_value(&self) -> (v: u32)
        ensures
            v as nat == self.spec_value(),
    ;
}

/// The outcome of a bye.
#[derive(Debug, Clone, Copy, PartialEq, Eq, Structural)]
pub enum ByePoint {
    /// A full-point bye, given by the pairing engine.
    U,
    /// A zero-point bye, given for a round a player missed.
    Z,
}

impl Default for ByePoint {
    fn default() -> (b: Self)
        ensures
            b == ByePoint::Z,
    {
        ByePoint::Z
    }
}

impl Point for ByePoint {
    open spec fn spec_value(&self) -> nat {
        match self {
            ByePoint::U => 2,
            ByePoint::Z => 0,
        }
    }

    fn get_value(&self) -> (v: u32) {
        match self {
            ByePoint::U => 2,
            ByePoint::Z => 0,
        }
    }
}

impl ByePoint {
    /// The one-letter code of the bye in the tournament file and in TRF lines.
    pub open spec fn code(self) -> Seq<char> {
        match self {
            ByePoint::U => seq!['U'],
            ByePoint::Z => seq!['Z'],
        }
    }

    /// The bye that a code names, if any.
    pub open spec fn parse_code(s: Seq<char>) -> Option<ByePoint> {
        if s == seq!['U'] {
            Some(ByePoint::U)
        } else if s == seq!['Z'] {
            Some(ByePoint::Z)
        } else {
            None
        }
    }

    /// The code of the bye.
    pub fn to_string(&self) -> (s: String)
        ensures
            s@ == self.code(),
    {
        proof {
            reveal_strlit("U");
            reveal_strlit("Z");
        }
        match self {
            ByePoint::U => String::from_str("U"),
            ByePoint::Z => String::from_str("Z"),
        }
    }

    /// Reads a bye from its code; any other text is refused with the message `Invalid`.
    pub fn from_str(s: &str) -> (r: Result<ByePoint, String>)
        ensures
            match r {
                Ok(b) => ByePoint::parse_code(s@) == Some(b),
                Err(e) => ByePoint::parse_code(s@) is None && e@ == seq!['I', 'n', 'v', 'a', 'l', 'i', 'd'],
            },
    {
        proof {
            reveal_strlit("Invalid");
        }
        if s.unicode_len() == 1 {
            let c = s.get_char(0);
            if c == 'U' {
                assert(s@ =~= seq!['U']);
                return Ok(ByePoint::U);
            } else if c == 'Z' {
                assert(s@ =~= seq!['Z']);
                return Ok(ByePoint::Z);
            }
        }
        Err(String::from_str("Invalid"))
    }
}

/// One player's result in a finished game.
#[derive(Debug, Clone, Copy, PartialEq, Eq, Structural)]
pub enum GamePoint {
    /// A win.
    W,
    /// A draw.
    D,
    /// A loss.
    L,
}

impl Point for GamePoint {
    open spec fn spec_value(&self) -> nat {
        match self {
            GamePoint::W => 2,
            GamePoint::D => 1,
            GamePoint::L => 0,
        }
    }

    fn get_value(&self) -> (v: u32) {
        match self {
            GamePoint::W => 2,
            GamePoint::D => 1,
            GamePoint::L => 0,
        }
    }
}

impl GamePoint {
    /// The one-letter code of the result in the tournament file.
    pub open spec fn code(self) -> Seq<char> {
        match self {
            GamePoint::W => seq!['W'],
            GamePoint::D => seq!['D'],
            GamePoint::L => seq!['L'],
        }
    }

    /// The result that a code names, if any.
    pub open spec fn parse_code(s: Seq<char>) -> Option<GamePoint> {
        if s == seq!['W'] {
            Some(GamePoint::W)
        } else if s == seq!['D'] {
            Some(GamePoint::D)
        } else if s == seq!['L'] {
            Some(GamePoint::L)
        } else {
            None
        }
    }

    /// The mark of the result in the pairing engine's input: `1`, `=` or `0`.
    pub open spec fn trf_mark(self) -> Seq<char> {
        match self {
            GamePoint::W => seq!['1'],
            GamePoint::D => seq!['='],
            GamePoint::L => seq!['0'],
        }
    }

    /// The code of the result.
    pub fn to_string(&self) -> (s: String)
        ensures
            s@ == self.code(),
    {
        proof {
            reveal_strlit("W");
            reveal_strlit("D");
            reveal_strlit("L");
        }
        match self {
            GamePoint::W => String::from_str("W"),
            GamePoint::D => String::from_str("D"),
            GamePoint::L => String::from_str("L"),
        }
    }

    /// The mark of the result in the pairing engine's input.
    pub fn trf_mark_str(&self) -> (s: &'static str)
        ensures
            s@ == self.trf_mark(),
    {
        proof {
            reveal_strlit("1");
            reveal_strlit("=");
            reveal_strlit("0");
        }
        match self {
            GamePoint::W => "1",
            GamePoint::D => "=",
            GamePoint::L => "0",
        }
    }

    /// Reads a result from its code; any other text is refused with the message `Invalid`.
    pub fn from_str(s: &str) -> (r: Result<GamePoint, String>)
        ensures
            match r {
                Ok(p) => GamePoint::parse_code(s@) == Some(p),
                Err(e) => GamePoint::parse_code(s@) is None && e@ == seq!['I', 'n', 'v', 'a', 'l', 'i', 'd'],
            },
    {
        proof {
            reveal_strlit("Invalid");
        }
        if s.unicode_len() == 1 {
            let c = s.get_char(0);
            if c == 'W' {
                assert(s@ =~= seq!['W']);
                return Ok(GamePoint::W);
            } else if c == 'D' {
                assert(s@ =~= seq!['D']);
                return Ok(GamePoint::D);
            } else if c == 'L' {
                assert(s@ =~= seq!['L']);
                return Ok(GamePoint::L);
            }
        }
        Err(String::from_str("Invalid"))
    }
}

/// Reading back the code of a bye gives the same bye, and a code that is read
/// is the code of what it gives: the tournament file stores byes faithfully.
pub proof fn lemma_bye_point_code_roundtrip(b: ByePoint, s: Seq<char>)
    ensures
        ByePoint::parse_code(b.code()) == Some(b),
        ByePoint::parse_code(s) matches Some(c) ==> c.code() == s,
{
    assert(seq!['U'][0] != seq!['Z'][0]);
}

/// Reading back the code of a game result gives the same result, and a code
/// that is read is the code of what it gives.
pub proof fn lemma_game_point_code_roundtrip(p: GamePoint, s: Seq<char>)
    ensures
        GamePoint::parse_code(p.code()) == Some(p),
        GamePoint::parse_code(s) matches Some(q) ==> q.code() == s,
{
    assert(seq!['W'][0] != seq!['D'][0]);
    assert(seq!['W'][0] != seq!['L'][0]);
    assert(seq!['D'][0] != seq!['L'][0]);
}

} // verus!
