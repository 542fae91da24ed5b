//! Error type for parsing CIDR blocks and address ranges.

use vstd::prelude::*;

use crate::text::{chars_of, string_of};

verus! {

/// An error produced while parsing a CIDR block, address range, or IP address.
#[derive(Debug, Clone, PartialEq, Eq)]
#[non_exhaustive]
pub enum ParseError {
    /// The input was empty or contained only whitespace.
    Empty,
    /// The IP address portion could not be parsed.
    BadAddr(String),
    /// The prefix length was missing, non-numeric, or out of range for the
    /// address family (0..=32 for IPv4, 0..=128 for IPv6).
    BadPrefix(String),
    /// A range's `start` and `end` are different address families
    /// (e.g. an IPv4 start with an IPv6 end).
    MixedFamilies,
    /// A range's `start` address sorts after its `end` address.
    StartAfterEnd,
    /// The input did not look like a CIDR block or a range, or had stray parts.
    Malformed(String),
}

/// A [`ParseError`] with its text as a character sequence.
pub enum ParseFailure {
    Empty,
    BadAddr(Seq<char>),
    BadPrefix(Seq<char>),
    MixedFamilies,
    StartAfterEnd,
    Malformed(Seq<char>),
}

impl View for ParseError {
    type V = ParseFailure;

    open spec fn view(&self) -> ParseFailure {
        match self {
            ParseError::Empty => ParseFailure::Empty,
            ParseError::BadAddr(s) => ParseFailure::BadAddr(s@),
            ParseError::BadPrefix(s) => ParseFailure::BadPrefix(s@),
            ParseError::MixedFamilies => ParseFailure::MixedFamilies,
            ParseError::StartAfterEnd => ParseFailure::StartAfterEnd,
            ParseError::Malformed(s) => ParseFailure::Malformed(s@),
        }
    }
}

/// The text an error carries (empty for the variants that carry none).
pub open spec fn failure_text(f: ParseFailure) -> Seq<char> {
    match f {
        ParseFailure::BadAddr(s) => s,
        ParseFailure::BadPrefix(s) => s,
        ParseFailure::Malformed(s) => s,
        _ => Seq::empty(),
    }
}

/// The message of an error, given its text already quoted.
pub open spec fn message_of(f: ParseFailure, quoted: Seq<char>) -> Seq<char> {
    match f {
        ParseFailure::Empty => "empty input"@,
        ParseFailure::BadAddr(_) => "invalid IP address: "@ + quoted,
        ParseFailure::BadPrefix(_) => "invalid prefix length: "@ + quoted,
        ParseFailure::MixedFamilies => "range mixes IPv4 and IPv6 addresses"@,
        ParseFailure::StartAfterEnd => "range start is greater than range end"@,
        ParseFailure::Malformed(_) => "malformed input: "@ + quoted,
    }
}

/// What `format!("{:?}", s)` writes for a string `s`: the string in double
/// quotes with special characters escaped.
pub uninterp spec fn debug_quoted(s: Seq<char>) -> Seq<char>;

/// Quotes a string with its `Debug` formatting (`<str as Debug>::fmt`, via
/// `format!`); the result is named `debug_quoted` of the text, which depends
/// on the text alone.
#[verifier::external_body]
fn debug_quote(s: &str) -> (r: String)
    ensures
        r@ == debug_quoted(s@),
{
    format!("{:?}", s)
}

impl ParseError {
    /// The error's message, given its text already in quoted form.
    pub fn message_with(&self, quoted: &str) -> (r: String)
        ensures
            r@ == message_of(self@, quoted@),
    {
        let q = chars_of(quoted);
        let mut v = match self {
            ParseError::Empty => chars_of("empty input"),
            ParseError::BadAddr(_) => chars_of("invalid IP address: "),
            ParseError::BadPrefix(_) => chars_of("invalid prefix length: "),
            ParseError::MixedFamilies => chars_of("range mixes IPv4 and IPv6 addresses"),
            ParseError::StartAfterEnd => chars_of("range start is greater than range end"),
            ParseError::Malformed(_) => chars_of("malformed input: "),
        };
        match self {
            ParseError::BadAddr(_) | ParseError::BadPrefix(_) | ParseError::Malformed(_) => {
                let ghost head = v@;
                let mut q2 = q;
                v.append(&mut q2);
                proof {
                    assert(v@ =~= head + quoted@);
                }
            },
            _ => {},
        }
        string_of(&v)
    }

    /// The error's message, as its `Display` text reads: the text an error
    /// carries is shown quoted as `Debug` shows a string.
    pub fn to_string(&self) -> (r: String)
        ensures
            r@ == message_of(self@, debug_quoted(failure_text(self@))),
    {
        match self {
            ParseError::BadAddr(s) | ParseError::BadPrefix(s) | ParseError::Malformed(s) => {
                let quoted = debug_quote(s.as_str());
                self.message_with(quoted.as_str())
            },
            _ => self.message_with(""),
        }
    }
}

} // verus!
