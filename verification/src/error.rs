//! The library's error type.

use vstd::prelude::*;

verus! {

/// What can go wrong while building or saving the assets.
#[derive(Debug)]
pub enum Error {
    /// A free-form message.
    Message(String),
    /// A value that should have been an integer.
    InvalidIntInput(String),
    /// A path that should have been a folder.
    NonFolder(String),
    /// An image file without content.
    EmptyImage(String),
    /// A JSON error, by its message.
    Json(String),
    /// An I/O error, by its message.
    IO(String),
    /// A YAML error, by its message.
    Yaml(String),
    /// Bytes that are not valid UTF-8, by the message of the conversion.
    Utf8(String),
    /// A file name without an extension.
    MissingExtension,
    /// A path that is not valid Unicode.
    InvalidUnicode,
}

impl<'a> From<&'a str> for Error {
    /// Wraps a message.
    fn from(message: &'a str) -> (e: Self)
        ensures
            e matches Error::Message(m) && m@ == message@,
    {
        Error::Message(message.to_owned())
    }
}

/// Whether `e` is a message with the text `text`.
pub open spec fn is_message_with(e: Error, text: Seq<char>) -> bool {
    e matches Error::Message(m) && m@ == text
}

impl<'a> vstd::std_specs::convert::FromSpecImpl<&'a str> for Error {
    /// Not claimed: several `String` values may share one text, so `from` is
    /// only known, through its own `ensures`, to give some message with the text.
    open spec fn obeys_from_spec() -> bool {
        false
    }

    open spec fn from_spec(message: &'a str) -> Self {
        choose|e: Error| #[trigger] is_message_with(e, message@)
    }
}

/// The text of an error, as the program prints it.
pub open spec fn error_text(e: Error) -> Seq<char> {
    match e {
        Error::Message(m) => m@,
        Error::InvalidIntInput(v) => "the input value `"@ + v@ + "` is not an invalid integer"@,
        Error::NonFolder(p) => "the path `"@ + p@ + "` is not a folder"@,
        Error::EmptyImage(p) => "the image file `"@ + p@ + "` is empty"@,
        Error::Json(m) => m@,
        Error::IO(m) => m@,
        Error::Yaml(m) => m@,
        Error::Utf8(m) => m@,
        Error::MissingExtension => "missing extension name"@,
        Error::InvalidUnicode => "invalid unicode"@,
    }
}

/// `before`, `middle` and `after` put together.
fn surround(before: &str, middle: &String, after: &str) -> (s: String)
    ensures
        s@ == before@ + middle@ + after@,
{
    let mut s = before.to_owned();
    s.append(middle.as_str());
    s.append(after);
    s
}

impl Error {
    /// The text of the error, as the program prints it.
    pub fn to_string(&self) -> (s: String)
        ensures
            s@ == error_text(*self),
    {
        match self {
            Error::Message(m) => m.clone(),
            Error::InvalidIntInput(v) => surround("the input value `", v, "` is not an invalid integer"),
            Error::NonFolder(p) => surround("the path `", p, "` is not a folder"),
            Error::EmptyImage(p) => surround("the image file `", p, "` is empty"),
            Error::Json(m) => m.clone(),
            Error::IO(m) => m.clone(),
            Error::Yaml(m) => m.clone(),
            Error::Utf8(m) => m.clone(),
            Error::MissingExtension => "missing extension name".to_owned(),
            Error::InvalidUnicode => "invalid unicode".to_owned(),
        }
    }
}

} // verus!
