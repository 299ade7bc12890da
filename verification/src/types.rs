//! The error that the application's commands report.
use vstd::prelude::*;
use vstd::std_specs::convert::FromSpecImpl;
use crate::trf;

verus! {

/// An error of a command, by where it arose, with its message.
#[derive(Debug)]
pub enum InvokeErrorBind {
    Sqlite(String),
    Io(String),
    Tauri(String),
    Other(String),
}

impl InvokeErrorBind {
    /// The message of the error, whatever its kind.
    pub open spec fn message(self) -> Seq<char> {
        match self {
            InvokeErrorBind::Sqlite(s) => s@,
            InvokeErrorBind::Io(s) => s@,
            InvokeErrorBind::Tauri(s) => s@,
            InvokeErrorBind::Other(s) => s@,
        }
    }

    /// The message of the error, as the error displays.
    pub fn to_string(&self) -> (s: String)
        ensures
            s@ == self.message(),
    {
        match self {
            InvokeErrorBind::Sqlite(s) => s.clone(),
            InvokeErrorBind::Io(s) => s.clone(),
            InvokeErrorBind::Tauri(s) => s.clone(),
            InvokeErrorBind::Other(s) => s.clone(),
        }
    }

    /// The error `Other` with the given message, as `From<&str>` makes it.
    pub fn other(message: &str) -> (e: Self)
        ensures
            e matches InvokeErrorBind::Other(m) && m@ == message@,
    {
        InvokeErrorBind::Other(String::from_str(message))
    }
}

impl From<String> for InvokeErrorBind {
    /// A message of the application's own logic: the error `Other`.
    fn from(value: String) -> (e: Self) {
        InvokeErrorBind::Other(value)
    }
}

impl FromSpecImpl<String> for InvokeErrorBind {
    open spec fn obeys_from_spec() -> bool {
        true
    }

    open spec fn from_spec(value: String) -> Self {
        InvokeErrorBind::Other(value)
    }
}

impl From<trf::Error> for InvokeErrorBind {
    /// A failure to write the pairing engine's input: the error `Other("trf")`.
    fn from(value: trf::Error) -> (e: Self)
        ensures
            e matches InvokeErrorBind::Other(m) && m@ == "trf"@,
    {
        InvokeErrorBind::Other(String::from_str("trf"))
    }
}

/// The result of this conversion holds a new `String`, which no spec expression can
/// build; `from`'s own `ensures` states its message instead.
impl FromSpecImpl<trf::Error> for InvokeErrorBind {
    open spec fn obeys_from_spec() -> bool {
        false
    }

    open spec fn from_spec(value: trf::Error) -> Self {
        arbitrary()
    }
}

} // verus!
