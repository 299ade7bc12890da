//! Chess titles, their codes and their order.
use vstd::prelude::*;
use vstd::std_specs::convert::TryFromSpecImpl;
use crate::text::{str_eq, bytes_eq_ascii, ascii_bytes};

verus! {

/// A FIDE title, from the lowest to the highest.
#[derive(Clone, Copy, Debug, PartialEq, Eq, Structural, PartialOrd, Ord)]
pub enum Title {
    WCM,
    WFM,
    CM,
    WIM,
    FM,
    WGM,
    IM,
    GM,
}

/// A text that names no title.
#[derive(Debug, PartialEq, Eq, Structural)]
pub enum Error {
    ParseError,
}

impl Title {
    /// The position of the title in the order of titles, from 0 for `WCM` to 7 for `GM`.
    pub open spec fn spec_rank(self) -> nat {
        match self {
            Title::WCM => 0,
            Title::WFM => 1,
            Title::CM => 2,
            Title::WIM => 3,
            Title::FM => 4,
            Title::WGM => 5,
            Title::IM => 6,
            Title::GM => 7,
        }
    }

    /// The position of the title in the order of titles.
    pub fn rank(&self) -> (r: u8)
        ensures
            r as nat == self.spec_rank(),
    {
        match self {
            Title::WCM => 0,
            Title::WFM => 1,
            Title::CM => 2,
            Title::WIM => 3,
            Title::FM => 4,
            Title::WGM => 5,
            Title::IM => 6,
            Title::GM => 7,
        }
    }

    /// The code of the title, as it is displayed and stored.
    pub open spec fn code(self) -> Seq<char> {
        match self {
            Title::WCM => "WCM"@,
            Title::WFM => "WFM"@,
            Title::CM => "CM"@,
            Title::WIM => "WIM"@,
            Title::FM => "FM"@,
            Title::WGM => "WGM"@,
            Title::IM => "IM"@,
            Title::GM => "GM"@,
        }
    }

    /// The title that a code names, if any.
    pub open spec fn parse_code(s: Seq<char>) -> Option<Title> {
        if s == "WCM"@ {
            Some(Title::WCM)
        } else if s == "WFM"@ {
            Some(Title::WFM)
        } else if s == "CM"@ {
            Some(Title::CM)
        } else if s == "WIM"@ {
            Some(Title::WIM)
        } else if s == "FM"@ {
            Some(Title::FM)
        } else if s == "WGM"@ {
            Some(Title::WGM)
        } else if s == "IM"@ {
            Some(Title::IM)
        } else if s == "GM"@ {
            Some(Title::GM)
        } else {
            None
        }
    }

    /// The title whose code the bytes spell, if any.
    pub open spec fn parse_bytes(b: Seq<u8>) -> Option<Title> {
        if b == ascii_bytes("WCM"@) {
            Some(Title::WCM)
        } else if b == ascii_bytes("WFM"@) {
            Some(Title::WFM)
        } else if b == ascii_bytes("CM"@) {
            Some(Title::CM)
        } else if b == ascii_bytes("WIM"@) {
            Some(Title::WIM)
        } else if b == ascii_bytes("FM"@) {
            Some(Title::FM)
        } else if b == ascii_bytes("WGM"@) {
            Some(Title::WGM)
        } else if b == ascii_bytes("IM"@) {
            Some(Title::IM)
        } else if b == ascii_bytes("GM"@) {
            Some(Title::GM)
        } else {
            None
        }
    }

    /// The code of the title.
    pub fn code_str(&self) -> (s: &'static str)
        ensures
            s@ == self.code(),
    {
        match self {
            Title::WCM => "WCM",
            Title::WFM => "WFM",
            Title::CM => "CM",
            Title::WIM => "WIM",
            Title::FM => "FM",
            Title::WGM => "WGM",
            Title::IM => "IM",
            Title::GM => "GM",
        }
    }

    /// The code of the title, as the title displays.
    pub fn to_string(&self) -> (s: String)
        ensures
            s@ == self.code(),
    {
        String::from_str(self.code_str())
    }

    /// Reads a title from its code.
    pub fn try_from_str(value: &str) -> (r: Result<Title, Error>)
        ensures
            match r {
                Ok(t) => Title::parse_code(value@) == Some(t),
                Err(e) => Title::parse_code(value@) is None && e == Error::ParseError,
            },
    {
        if str_eq(value, "WCM") {
            Ok(Title::WCM)
        } else if str_eq(value, "WFM") {
            Ok(Title::WFM)
        } else if str_eq(value, "CM") {
            Ok(Title::CM)
        } else if str_eq(value, "WIM") {
            Ok(Title::WIM)
        } else if str_eq(value, "FM") {
            Ok(Title::FM)
        } else if str_eq(value, "WGM") {
            Ok(Title::WGM)
        } else if str_eq(value, "IM") {
            Ok(Title::IM)
        } else if str_eq(value, "GM") {
            Ok(Title::GM)
        } else {
            Err(Error::ParseError)
        }
    }

    /// Reads a title from the UTF-8 bytes of its code, as the tournament file stores it.
    pub fn try_from_bytes(value: &[u8]) -> (r: Result<Title, Error>)
        ensures
            match r {
                Ok(t) => Title::parse_bytes(value@) == Some(t),
                Err(e) => Title::parse_bytes(value@) is None && e == Error::ParseError,
            },
    {
        if bytes_eq_ascii(value, "WCM") {
            Ok(Title::WCM)
        } else if bytes_eq_ascii(value, "WFM") {
            Ok(Title::WFM)
        } else if bytes_eq_ascii(value, "CM") {
            Ok(Title::CM)
        } else if bytes_eq_ascii(value, "WIM") {
            Ok(Title::WIM)
        } else if bytes_eq_ascii(value, "FM") {
            Ok(Title::FM)
        } else if bytes_eq_ascii(value, "WGM") {
            Ok(Title::WGM)
        } else if bytes_eq_ascii(value, "IM") {
            Ok(Title::IM)
        } else if bytes_eq_ascii(value, "GM") {
            Ok(Title::GM)
        } else {
            Err(Error::ParseError)
        }
    }
}

impl<'a> TryFrom<&'a str> for Title {
    type Error = Error;

    fn try_from(value: &'a str) -> (r: Result<Title, Error>) {
        Title::try_from_str(value)
    }
}

impl<'a> TryFromSpecImpl<&'a str> for Title {
    open spec fn obeys_try_from_spec() -> bool {
        true
    }

    open spec fn try_from_spec(value: &'a str) -> Result<Title, Error> {
        match Title::parse_code(value@) {
            Some(t) => Ok(t),
            None => Err(Error::ParseError),
        }
    }
}

impl<'a> TryFrom<&'a [u8]> for Title {
    type Error = Error;

    fn try_from(value: &'a [u8]) -> (r: Result<Title, Error>) {
        Title::try_from_bytes(value)
    }
}

impl<'a> TryFromSpecImpl<&'a [u8]> for Title {
    open spec fn obeys_try_from_spec() -> bool {
        true
    }

    open spec fn try_from_spec(value: &'a [u8]) -> Result<Title, Error> {
        match Title::parse_bytes(value@) {
            Some(t) => Ok(t),
            None => Err(Error::ParseError),
        }
    }
}

/// The order of optional titles that the derived `Ord` of `Option<Title>` gives:
/// no title first, then the titles from `WCM` to `GM`.
pub open spec fn title_order(t: Option<Title>) -> nat {
    match t {
        None => 0,
        Some(t) => t.spec_rank() + 1,
    }
}

/// The position of an optional title in the order of optional titles.
pub fn title_order_of(t: &Option<Title>) -> (r: u8)
    ensures
        r as nat == title_order(*t),
{
    match t {
        None => 0,
        Some(t) => t.rank() + 1,
    }
}

/// Reading back the code of a title gives the same title, by text and by bytes,
/// and different titles have different codes.
pub proof fn lemma_title_code_roundtrip(t: Title, u: Title)
    ensures
        Title::parse_code(t.code()) == Some(t),
        Title::parse_bytes(ascii_bytes(t.code())) == Some(t),
        t.code() == u.code() ==> t == u,
{
    reveal_strlit("WCM");
    reveal_strlit("WFM");
    reveal_strlit("CM");
    reveal_strlit("WIM");
    reveal_strlit("FM");
    reveal_strlit("WGM");
    reveal_strlit("IM");
    reveal_strlit("GM");
    assert(ascii_bytes("WCM"@) =~= seq![87u8, 67u8, 77u8]);
    assert(ascii_bytes("WFM"@) =~= seq![87u8, 70u8, 77u8]);
    assert(ascii_bytes("CM"@) =~= seq![67u8, 77u8]);
    assert(ascii_bytes("WIM"@) =~= seq![87u8, 73u8, 77u8]);
    assert(ascii_bytes("FM"@) =~= seq![70u8, 77u8]);
    assert(ascii_bytes("WGM"@) =~= seq![87u8, 71u8, 77u8]);
    assert(ascii_bytes("IM"@) =~= seq![73u8, 77u8]);
    assert(ascii_bytes("GM"@) =~= seq![71u8, 77u8]);
}

} // verus!
