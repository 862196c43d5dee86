//! The failures an encode or decode call can end in.

use vstd::prelude::*;

verus! {

/// Why an encode or decode call stopped. No call recovers from any of these:
/// the first one raised is handed to the caller.
#[derive(Clone, Debug, PartialEq, Eq)]
pub enum Error {
    /// A failure described in words: a value the format has no encoding for,
    /// or a complaint raised by the code that drives the codec.
    Message(String),
    /// The buffer ended inside a length prefix or a payload.
    Eof,
    /// The decoded value is not followed by the terminator.
    TrailingCharacters,
    /// A payload is not UTF-8, is not the text of the requested type, or a
    /// sequence frame does not end where an element ends.
    BadData,
}

impl Error {
    /// What `to_string` returns, as a sequence of characters.
    pub open spec fn display_text(&self) -> Seq<char> {
        match self {
            Error::Message(message) => "Error: "@ + message@,
            Error::BadData => "Error: Bad data"@,
            Error::Eof => "Error: Unexpected EOF"@,
            Error::TrailingCharacters => "Error: Unexpected trailing characters"@,
        }
    }

    /// What `description` returns, as a sequence of characters.
    pub open spec fn description_text(&self) -> Seq<char> {
        match self {
            Error::Message(message) => message@,
            Error::Eof => "unexpected end of file"@,
            Error::TrailingCharacters => "characters after the end"@,
            Error::BadData => "bad or malformed data"@,
        }
    }

    /// What `unsupported` says of a kind of value.
    pub open spec fn unsupported_text(what: Seq<char>) -> Seq<char> {
        what + " is not supported"@
    }

    /// The failure for a kind of value that the format has no encoding for.
    pub fn unsupported(what: &str) -> (error: Error)
        ensures
            error matches Error::Message(message) && message@ == Self::unsupported_text(what@),
    {
        Error::Message(String::from_str(what).concat(" is not supported"))
    }

    /// Wraps a caller's own complaint.
    pub fn custom(msg: &str) -> (error: Error)
        ensures
            error matches Error::Message(message) && message@ == msg@,
    {
        Error::Message(String::from_str(msg))
    }

    /// The line shown to a user: `Error: ` and what went wrong.
    pub fn to_string(&self) -> (text: String)
        ensures
            text@ == self.display_text(),
    {
        match self {
            Error::Message(message) => String::from_str("Error: ").concat(message.as_str()),
            Error::BadData => String::from_str("Error: Bad data"),
            Error::Eof => String::from_str("Error: Unexpected EOF"),
            Error::TrailingCharacters => String::from_str("Error: Unexpected trailing characters"),
        }
    }

    /// A short lower-case phrase for the kind of failure; for `Message`, the
    /// message itself.
    pub fn description(&self) -> (text: &str)
        ensures
            text@ == self.description_text(),
    {
        match self {
            Error::Message(message) => message.as_str(),
            Error::Eof => "unexpected end of file",
            Error::TrailingCharacters => "characters after the end",
            Error::BadData => "bad or malformed data",
        }
    }
}

} // verus!
