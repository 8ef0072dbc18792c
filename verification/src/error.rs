//! Errors of the library and the text that describes them.
use vstd::prelude::*;

use crate::duration::Duration;
use crate::text::{decimal, duration_debug, duration_debug_string, push_char, push_decimal};

verus! {

/// The kind of syntax error that stopped the parser.
#[derive(Clone, Copy, PartialEq, Eq, Structural, Hash, Debug)]
pub enum ErrorKind {
    /// An expected character was missing.
    Char,
    /// An expected run of decimal digits was missing, or its value overflowed.
    Digit,
    /// An expected floating point number was missing or malformed.
    Float,
    /// The input continued where its end was expected.
    Eof,
    /// A run of digits could not be converted to a number.
    MapRes,
    /// An expected keyword was missing.
    Tag,
}

/// Error indicating why lyrics couldn't be parsed or modified.
#[derive(Clone, PartialEq, Eq, Hash, Debug)]
pub enum Error {
    /// An overflow occurred while offsetting timestamps with the value of the LRC `offset` tag
    /// (eg. `[offset: -100]`).
    TimestampOffsetOverflow,
    /// Encountered an ID tag with an unknown key.
    UnknownKey {
        /// The key that wasn't recognized by the parser.
        key: String,
    },
    /// Tag timestamps were not ordered correctly.
    InvalidTimestampOrder {
        /// The index pointing at an element in the input at which the order breaks.
        index: usize,
        /// Message specifying the expected value.
        message: String,
    },
    /// Parsing failed due to a syntax error.
    Nom {
        /// The input for which the error occurred.
        input: String,
        /// The error code.
        error: ErrorKind,
    },
}

/// The name of an error kind, as its debug form writes it.
pub open spec fn kind_name(k: ErrorKind) -> Seq<char> {
    match k {
        ErrorKind::Char => seq!['C', 'h', 'a', 'r'],
        ErrorKind::Digit => seq!['D', 'i', 'g', 'i', 't'],
        ErrorKind::Float => seq!['F', 'l', 'o', 'a', 't'],
        ErrorKind::Eof => seq!['E', 'o', 'f'],
        ErrorKind::MapRes => seq!['M', 'a', 'p', 'R', 'e', 's'],
        ErrorKind::Tag => seq!['T', 'a', 'g'],
    }
}

/// The message of an order error whose element had to come strictly after `t`.
pub open spec fn later_than_text(t: nat) -> Seq<char> {
    "Expected a timestamp later than "@ + duration_debug(t)
}

/// The message of an order error whose element had to come at or after `t`.
pub open spec fn later_or_equal_text(t: nat) -> Seq<char> {
    "Expected a timestamp later than or equal to "@ + duration_debug(t)
}

/// The human-readable description of an order error at `index` with `message`.
pub open spec fn order_error_text(index: nat, message: Seq<char>) -> Seq<char> {
    "Invalid tag timestamp at index "@ + decimal(index) + ": "@ + message
}

/// The human-readable description of an error.
pub open spec fn error_text(e: Error) -> Seq<char> {
    match e {
        Error::TimestampOffsetOverflow => "An overflow occurred while offsetting a timestamp"@,
        Error::UnknownKey { key } => "Unknown ID tag key: \""@ + key@ + "\""@,
        Error::InvalidTimestampOrder { index, message } => order_error_text(index as nat, message@),
        Error::Nom { input, error } => "Couldn't parse the lyrics at `"@ + input@ + "`: "@ + kind_name(
            error,
        ) + "`"@,
    }
}

/// The message of an order error whose element had to come strictly after a
/// timestamp written as `shown`.
pub fn later_than_shown(shown: &str) -> (s: String)
    ensures
        s@ == "Expected a timestamp later than "@ + shown@,
{
    let mut s = String::from_str("Expected a timestamp later than ");
    s.append(shown);
    s
}

/// The message of an order error whose element had to come at or after a timestamp
/// written as `shown`.
pub fn later_or_equal_shown(shown: &str) -> (s: String)
    ensures
        s@ == "Expected a timestamp later than or equal to "@ + shown@,
{
    let mut s = String::from_str("Expected a timestamp later than or equal to ");
    s.append(shown);
    s
}

/// The message of an order error whose element had to come strictly after `t`.
pub fn later_than_message(t: Duration) -> (s: String)
    ensures
        s@ == later_than_text(t@),
{
    let d = duration_debug_string(t.as_secs(), t.subsec_nanos());
    later_than_shown(d.as_str())
}

/// The message of an order error whose element had to come at or after `t`.
pub fn later_or_equal_message(t: Duration) -> (s: String)
    ensures
        s@ == later_or_equal_text(t@),
{
    let d = duration_debug_string(t.as_secs(), t.subsec_nanos());
    later_or_equal_shown(d.as_str())
}

impl ErrorKind {
    /// The name of the kind, as its debug form writes it.
    pub fn name(&self) -> (s: String)
        ensures
            s@ == kind_name(*self),
    {
        let mut s = String::new();
        match self {
            ErrorKind::Char => {
                push_char(&mut s, 'C');
                push_char(&mut s, 'h');
                push_char(&mut s, 'a');
                push_char(&mut s, 'r');
            },
            ErrorKind::Digit => {
                push_char(&mut s, 'D');
                push_char(&mut s, 'i');
                push_char(&mut s, 'g');
                push_char(&mut s, 'i');
                push_char(&mut s, 't');
            },
            ErrorKind::Float => {
                push_char(&mut s, 'F');
                push_char(&mut s, 'l');
                push_char(&mut s, 'o');
                push_char(&mut s, 'a');
                push_char(&mut s, 't');
            },
            ErrorKind::Eof => {
                push_char(&mut s, 'E');
                push_char(&mut s, 'o');
                push_char(&mut s, 'f');
            },
            ErrorKind::MapRes => {
                push_char(&mut s, 'M');
                push_char(&mut s, 'a');
                push_char(&mut s, 'p');
                push_char(&mut s, 'R');
                push_char(&mut s, 'e');
                push_char(&mut s, 's');
            },
            ErrorKind::Tag => {
                push_char(&mut s, 'T');
                push_char(&mut s, 'a');
                push_char(&mut s, 'g');
            },
        }
        assert(s@ =~= kind_name(*self));
        s
    }
}

impl Error {
    /// The human-readable description of the error.
    pub fn to_message(&self) -> (s: String)
        ensures
            s@ == error_text(*self),
    {
        match self {
            Error::TimestampOffsetOverflow => String::from_str(
                "An overflow occurred while offsetting a timestamp",
            ),
            Error::UnknownKey { key } => {
                let mut s = String::from_str("Unknown ID tag key: \"");
                s.append(key.as_str());
                s.append("\"");
                s
            },
            Error::InvalidTimestampOrder { index, message } => order_error_message(
                *index,
                message,
            ),
            Error::Nom { input, error } => {
                let mut s = String::from_str("Couldn't parse the lyrics at `");
                s.append(input.as_str());
                s.append("`: ");
                let k = error.name();
                s.append(k.as_str());
                s.append("`");
                s
            },
        }
    }
}

/// The description of an order error at `index` with `message`.
pub fn order_error_message(index: usize, message: &String) -> (s: String)
    ensures
        s@ == order_error_text(index as nat, message@),
{
    let mut s = String::from_str("Invalid tag timestamp at index ");
    push_decimal(&mut s, index as u128);
    s.append(": ");
    s.append(message.as_str());
    s
}

} // verus!
