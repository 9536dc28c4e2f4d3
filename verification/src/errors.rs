//! The error model: a closed set of failure kinds, each carrying the data
//! needed to explain the failure without re-running the scan.

use vstd::prelude::*;
use vstd::string::StringExecFns;
use crate::convert::dec_chars;

verus! {

/// Everything that can go wrong during a scan.
///
/// Structural pattern errors: `MissingMatch` (the pattern and the requested
/// capture slots do not align) and `MissingClosingBrace` (a capture marker is
/// truncated).  Stream-content errors: `UnexpectedValue` (a literal byte did
/// not match, carrying the expected byte and the byte actually found, or
/// `None` at end of stream), `InvalidUtf8` and `PartialUtf8` (a captured span
/// was not text; `PartialUtf8` carries the exact number of leading bytes that
/// were valid), and `Parse` (the text did not convert to the target type,
/// carrying the rejected text and the slot name).
#[derive(Debug, PartialEq, Eq)]
pub enum Error {
    MissingMatch,
    MissingClosingBrace,
    UnexpectedValue(u8, Option<u8>),
    InvalidUtf8(Vec<u8>),
    PartialUtf8(usize, Vec<u8>),
    Parse(String, &'static str),
}

impl Error {
    /// The one-line description of each failure kind.
    pub open spec fn description_spec(self) -> Seq<char> {
        match self {
            Error::MissingMatch => "pattern has no capture marker for a requested value"@,
            Error::MissingClosingBrace => "pattern ends inside a capture marker"@,
            Error::UnexpectedValue(_, _) => "found value not matching the pattern"@,
            Error::InvalidUtf8(_) => "input was not valid utf8"@,
            Error::PartialUtf8(_, _) => "input was only partially valid utf8"@,
            Error::Parse(_, _) => "could not parse input as the target type"@,
        }
    }

    /// The full diagnostic text, with the failure's data rendered into it.
    pub open spec fn render_spec(self) -> Seq<char> {
        match self {
            Error::MissingMatch => self.description_spec(),
            Error::MissingClosingBrace => self.description_spec(),
            Error::UnexpectedValue(exp, act) => (match act {
                Some(a) => "found byte "@ + dec_chars(a as int),
                None => "found end of input"@,
            }) + " where byte "@ + dec_chars(exp as int) + " was expected"@,
            Error::InvalidUtf8(raw) => "input of "@ + dec_chars(raw@.len() as int)
                + " bytes was not valid utf8"@,
            Error::PartialUtf8(n, raw) => "input was valid utf8 only in its first "@ + dec_chars(
                n as int,
            ) + " of "@ + dec_chars(raw@.len() as int) + " bytes"@,
            Error::Parse(s, name) => "could not parse "@ + s@ + " as the target type of "@
                + name@,
        }
    }

    /// Returns the one-line description of this failure kind.
    pub fn description(&self) -> (r: &'static str)
        ensures
            r@ == self.description_spec(),
    {
        match self {
            Error::MissingMatch => "pattern has no capture marker for a requested value",
            Error::MissingClosingBrace => "pattern ends inside a capture marker",
            Error::UnexpectedValue(_, _) => "found value not matching the pattern",
            Error::InvalidUtf8(_) => "input was not valid utf8",
            Error::PartialUtf8(_, _) => "input was only partially valid utf8",
            Error::Parse(_, _) => "could not parse input as the target type",
        }
    }

    /// Renders the full diagnostic text.
    pub fn render(&self) -> (r: String)
        ensures
            r@ == self.render_spec(),
    {
        match self {
            Error::MissingMatch => String::from_str(self.description()),
            Error::MissingClosingBrace => String::from_str(self.description()),
            Error::UnexpectedValue(exp, act) => {
                let mut out: String;
                match act {
                    Some(a) => {
                        out = String::from_str("found byte ");
                        let num = crate::convert::u64_to_string(*a as u64);
                        out.append(num.as_str());
                    },
                    None => {
                        out = String::from_str("found end of input");
                    },
                }
                out.append(" where byte ");
                let num = crate::convert::u64_to_string(*exp as u64);
                out.append(num.as_str());
                out.append(" was expected");
                out
            },
            Error::InvalidUtf8(raw) => {
                let mut out = String::from_str("input of ");
                let num = crate::convert::u64_to_string(raw.len() as u64);
                out.append(num.as_str());
                out.append(" bytes was not valid utf8");
                out
            },
            Error::PartialUtf8(n, raw) => {
                let mut out = String::from_str("input was valid utf8 only in its first ");
                let num = crate::convert::u64_to_string(*n as u64);
                out.append(num.as_str());
                out.append(" of ");
                let num2 = crate::convert::u64_to_string(raw.len() as u64);
                out.append(num2.as_str());
                out.append(" bytes");
                out
            },
            Error::Parse(s, name) => {
                let mut out = String::from_str("could not parse ");
                out.append(s.as_str());
                out.append(" as the target type of ");
                out.append(name);
                out
            },
        }
    }
}

} // verus!
