//! The error kinds that the engine reports.

use vstd::prelude::*;
use vstd::std_specs::convert::FromSpecImpl;
use vstd::string::*;

verus! {

/// std's `io::Error`, carried through as it is.
#[verifier::external_type_specification]
#[verifier::external_body]
pub struct ExIoError(std::io::Error);

/// std's `fmt::Error`, carried through as it is.
#[verifier::external_type_specification]
#[verifier::external_body]
pub struct ExFmtError(std::fmt::Error);

/// std's `string::FromUtf8Error`, carried through as it is.
#[verifier::external_type_specification]
#[verifier::external_body]
pub struct ExFromUtf8Error(std::string::FromUtf8Error);

/// std's `str::Utf8Error`, carried through as it is.
#[verifier::external_type_specification]
#[verifier::external_body]
pub struct ExUtf8Error(std::str::Utf8Error);

/// std's `num::ParseIntError`, carried through as it is.
#[verifier::external_type_specification]
#[verifier::external_body]
pub struct ExParseIntError(std::num::ParseIntError);

/// std's `num::ParseFloatError`, carried through as it is.
#[verifier::external_type_specification]
#[verifier::external_body]
pub struct ExParseFloatError(std::num::ParseFloatError);

/// std's `time::SystemTimeError`, carried through as it is.
#[verifier::external_type_specification]
#[verifier::external_body]
pub struct ExSystemTimeError(std::time::SystemTimeError);

/// std's `sync::PoisonError`, of which only the fact is kept.
#[verifier::external_type_specification]
#[verifier::external_body]
#[verifier::reject_recursive_types(Guard)]
pub struct ExPoisonError<Guard>(std::sync::PoisonError<Guard>);

/// What went wrong, with the message that explains it where there is one.
#[derive(Debug)]
pub enum Error {
    /// A thread panicked while it held a lock.
    Poisoned,
    /// An object was used in a state that does not allow the call.
    IllegalState(String),
    /// An argument was outside what the call accepts.
    IllegalArgument(String),
    /// Input ended before the expected data.
    UnexpectedEOF(String),
    /// Stored data failed a consistency check.
    CorruptIndex(String),
    /// The operation is not available on this object.
    UnsupportedOperation(String),
    /// The writer or reader was closed, or failed beyond repair.
    AlreadyClosed(String),
    /// Any other failure at run time.
    RuntimeError(String),
    /// A query could not be parsed.
    ParseError(String),
    /// A search ran beyond its deadline.
    SearchTimeout,
    /// A merge was given up.
    MergeAborted,
    /// Reading or writing failed.
    IOError(std::io::Error),
    /// Formatting failed.
    FmtError(std::fmt::Error),
    /// Bytes that should be a string were not UTF-8.
    FromUtf8Error(std::string::FromUtf8Error),
    /// Bytes that should be a string slice were not UTF-8.
    Utf8Error(std::str::Utf8Error),
    /// Text that should be an integer was not.
    NumError(std::num::ParseIntError),
    /// Text that should be a number with a fraction was not.
    ParseFloatError(std::num::ParseFloatError),
    /// The clock went backwards.
    TimeError(std::time::SystemTimeError),
}

impl Error {
    /// The message that the error carries; empty for a kind without one.
    pub open spec fn message(&self) -> Seq<char> {
        match self {
            Error::IllegalState(m) => m@,
            Error::IllegalArgument(m) => m@,
            Error::UnexpectedEOF(m) => m@,
            Error::CorruptIndex(m) => m@,
            Error::UnsupportedOperation(m) => m@,
            Error::AlreadyClosed(m) => m@,
            Error::RuntimeError(m) => m@,
            Error::ParseError(m) => m@,
            _ => Seq::empty(),
        }
    }

    /// Whether the error wraps one that came from outside, whose text this
    /// library does not know.
    pub open spec fn is_wrapped(&self) -> bool {
        match self {
            Error::IOError(_) => true,
            Error::FmtError(_) => true,
            Error::FromUtf8Error(_) => true,
            Error::Utf8Error(_) => true,
            Error::NumError(_) => true,
            Error::ParseFloatError(_) => true,
            Error::TimeError(_) => true,
            _ => false,
        }
    }

    /// `text` is the text that the wrapped error gives of itself.
    pub open spec fn wraps_text(&self, text: String) -> bool {
        match self {
            Error::IOError(e) => to_string_from_display_ensures::<std::io::Error>(e, text),
            Error::FmtError(e) => to_string_from_display_ensures::<std::fmt::Error>(e, text),
            Error::FromUtf8Error(e) => to_string_from_display_ensures::<
                std::string::FromUtf8Error,
            >(e, text),
            Error::Utf8Error(e) => to_string_from_display_ensures::<std::str::Utf8Error>(e, text),
            Error::NumError(e) => to_string_from_display_ensures::<std::num::ParseIntError>(
                e,
                text,
            ),
            Error::ParseFloatError(e) => to_string_from_display_ensures::<
                std::num::ParseFloatError,
            >(e, text),
            Error::TimeError(e) => to_string_from_display_ensures::<std::time::SystemTimeError>(
                e,
                text,
            ),
            _ => false,
        }
    }

    /// How the text of each kind of error begins.
    pub open spec fn prefix(&self) -> Seq<char> {
        match self {
            Error::Poisoned => "a thread holding the locked panicked and poisoned the lock"@,
            Error::IllegalState(_) => "Illegal state: "@,
            Error::IllegalArgument(_) => "IllegalArgument: "@,
            Error::UnexpectedEOF(_) => "Unexpected EOF: "@,
            Error::CorruptIndex(_) => "Corrupt Index: "@,
            Error::UnsupportedOperation(_) => "Unsupported Operation: "@,
            Error::AlreadyClosed(_) => "Already Closed: "@,
            Error::RuntimeError(_) => "Runtime Error: "@,
            Error::ParseError(_) => "Parse Error: "@,
            Error::SearchTimeout => "Search Timeout"@,
            Error::MergeAborted => "Merge Aborted"@,
            Error::IOError(_) => "IO Error: "@,
            Error::FmtError(_) => "Format Error: "@,
            Error::FromUtf8Error(_) => "FromUtf8 Error: "@,
            Error::Utf8Error(_) => "Utf8 Error: "@,
            Error::NumError(_) => "ParseIntError: "@,
            Error::ParseFloatError(_) => "ParseFloatError: "@,
            Error::TimeError(_) => "System Time Error: "@,
        }
    }

    /// The text of the error: what its kind begins with, then its message.
    /// For an error that came from outside, the message is that error's
    /// own text.
    pub fn to_string(&self) -> (text: String)
        ensures
            !self.is_wrapped() ==> text@ == self.prefix() + self.message(),
            self.is_wrapped() ==> exists|inner: String|
                self.wraps_text(inner) && text@ == self.prefix() + inner@,
            text@.len() >= self.prefix().len(),
            text@.subrange(0, self.prefix().len() as int) == self.prefix(),
    {
        let mut text = match self {
            Error::Poisoned => String::from_str(
                "a thread holding the locked panicked and poisoned the lock",
            ),
            Error::IllegalState(_) => String::from_str("Illegal state: "),
            Error::IllegalArgument(_) => String::from_str("IllegalArgument: "),
            Error::UnexpectedEOF(_) => String::from_str("Unexpected EOF: "),
            Error::CorruptIndex(_) => String::from_str("Corrupt Index: "),
            Error::UnsupportedOperation(_) => String::from_str("Unsupported Operation: "),
            Error::AlreadyClosed(_) => String::from_str("Already Closed: "),
            Error::RuntimeError(_) => String::from_str("Runtime Error: "),
            Error::ParseError(_) => String::from_str("Parse Error: "),
            Error::SearchTimeout => String::from_str("Search Timeout"),
            Error::MergeAborted => String::from_str("Merge Aborted"),
            Error::IOError(_) => String::from_str("IO Error: "),
            Error::FmtError(_) => String::from_str("Format Error: "),
            Error::FromUtf8Error(_) => String::from_str("FromUtf8 Error: "),
            Error::Utf8Error(_) => String::from_str("Utf8 Error: "),
            Error::NumError(_) => String::from_str("ParseIntError: "),
            Error::ParseFloatError(_) => String::from_str("ParseFloatError: "),
            Error::TimeError(_) => String::from_str("System Time Error: "),
        };
        let ghost start = text@;
        let inner = match self {
            Error::IllegalState(m) => m.clone(),
            Error::IllegalArgument(m) => m.clone(),
            Error::UnexpectedEOF(m) => m.clone(),
            Error::CorruptIndex(m) => m.clone(),
            Error::UnsupportedOperation(m) => m.clone(),
            Error::AlreadyClosed(m) => m.clone(),
            Error::RuntimeError(m) => m.clone(),
            Error::ParseError(m) => m.clone(),
            Error::IOError(e) => e.to_string(),
            Error::FmtError(e) => e.to_string(),
            Error::FromUtf8Error(e) => e.to_string(),
            Error::Utf8Error(e) => e.to_string(),
            Error::NumError(e) => e.to_string(),
            Error::ParseFloatError(e) => e.to_string(),
            Error::TimeError(e) => e.to_string(),
            _ => String::new(),
        };
        text.append(inner.as_str());
        proof {
            assert(text@.subrange(0, start.len() as int) =~= start);
            if !self.is_wrapped() {
                assert(text@ =~= self.prefix() + self.message());
            } else {
                assert(self.wraps_text(inner) && text@ == self.prefix() + inner@);
            }
        }
        text
    }
}

impl From<std::io::Error> for Error {
    fn from(e: std::io::Error) -> (error: Error) {
        Error::IOError(e)
    }
}

impl FromSpecImpl<std::io::Error> for Error {
    open spec fn obeys_from_spec() -> bool {
        true
    }

    open spec fn from_spec(e: std::io::Error) -> Error {
        Error::IOError(e)
    }
}

impl From<std::fmt::Error> for Error {
    fn from(e: std::fmt::Error) -> (error: Error) {
        Error::FmtError(e)
    }
}

impl FromSpecImpl<std::fmt::Error> for Error {
    open spec fn obeys_from_spec() -> bool {
        true
    }

    open spec fn from_spec(e: std::fmt::Error) -> Error {
        Error::FmtError(e)
    }
}

impl From<std::string::FromUtf8Error> for Error {
    fn from(e: std::string::FromUtf8Error) -> (error: Error) {
        Error::FromUtf8Error(e)
    }
}

impl FromSpecImpl<std::string::FromUtf8Error> for Error {
    open spec fn obeys_from_spec() -> bool {
        true
    }

    open spec fn from_spec(e: std::string::FromUtf8Error) -> Error {
        Error::FromUtf8Error(e)
    }
}

impl From<std::str::Utf8Error> for Error {
    fn from(e: std::str::Utf8Error) -> (error: Error) {
        Error::Utf8Error(e)
    }
}

impl FromSpecImpl<std::str::Utf8Error> for Error {
    open spec fn obeys_from_spec() -> bool {
        true
    }

    open spec fn from_spec(e: std::str::Utf8Error) -> Error {
        Error::Utf8Error(e)
    }
}

impl From<std::num::ParseIntError> for Error {
    fn from(e: std::num::ParseIntError) -> (error: Error) {
        Error::NumError(e)
    }
}

impl FromSpecImpl<std::num::ParseIntError> for Error {
    open spec fn obeys_from_spec() -> bool {
        true
    }

    open spec fn from_spec(e: std::num::ParseIntError) -> Error {
        Error::NumError(e)
    }
}

impl From<std::num::ParseFloatError> for Error {
    fn from(e: std::num::ParseFloatError) -> (error: Error) {
        Error::ParseFloatError(e)
    }
}

impl FromSpecImpl<std::num::ParseFloatError> for Error {
    open spec fn obeys_from_spec() -> bool {
        true
    }

    open spec fn from_spec(e: std::num::ParseFloatError) -> Error {
        Error::ParseFloatError(e)
    }
}

impl From<std::time::SystemTimeError> for Error {
    fn from(e: std::time::SystemTimeError) -> (error: Error) {
        Error::TimeError(e)
    }
}

impl FromSpecImpl<std::time::SystemTimeError> for Error {
    open spec fn obeys_from_spec() -> bool {
        true
    }

    open spec fn from_spec(e: std::time::SystemTimeError) -> Error {
        Error::TimeError(e)
    }
}

impl<Guard> From<std::sync::PoisonError<Guard>> for Error {
    fn from(e: std::sync::PoisonError<Guard>) -> (error: Error) {
        Error::Poisoned
    }
}

impl<Guard> FromSpecImpl<std::sync::PoisonError<Guard>> for Error {
    open spec fn obeys_from_spec() -> bool {
        true
    }

    open spec fn from_spec(e: std::sync::PoisonError<Guard>) -> Error {
        Error::Poisoned
    }
}

} // verus!
