//! Error values for the two pipelines. A malformed input line is fatal
//! for the whole run; the error carries the zero-based line index and
//! the offending raw text so the caller can report it.

use vstd::prelude::*;
use crate::num::dec_rep;
use crate::num::format_u64;
use crate::text::string_of;

verus! {

/// Which contract of the input format a fatal line broke.
#[derive(Clone, Copy, PartialEq, Eq, Structural, Debug)]
pub enum ErrorKind {
    /// A raw record line with fewer than two comma-separated fields.
    MissingField,
    /// A user id field that is not a signed integer.
    InvalidUserId,
    /// An item id field that is not a decimal numeral.
    InvalidItemId,
    /// A dataset line without exactly one `:` separator.
    InvalidSeparator,
    /// A dataset item that is not a signed integer.
    InvalidItem,
}

/// A fatal parse failure: the line (counted from zero), the offending
/// raw text, and what was wrong with it.
#[derive(Debug)]
pub struct ParseError {
    pub line_no: u64,
    pub value: String,
    pub kind: ErrorKind,
}

pub open spec fn kind_label(k: ErrorKind) -> Seq<char> {
    match k {
        ErrorKind::MissingField => "missing field in line `"@,
        ErrorKind::InvalidUserId => "invalid user id `"@,
        ErrorKind::InvalidItemId => "invalid show id `"@,
        ErrorKind::InvalidSeparator => "missing separator in line `"@,
        ErrorKind::InvalidItem => "invalid item `"@,
    }
}

/// The full diagnostic text of an error.
pub open spec fn message_text(e: ParseError) -> Seq<char> {
    kind_label(e.kind) + e.value@ + "` on line "@ + dec_rep(e.line_no as int)
}

impl ParseError {
    /// The human-readable diagnostic, exactly [`message_text`].
    pub fn message(&self) -> (r: String)
        ensures
            r@ == message_text(*self),
    {
        let mut out = String::new();
        match self.kind {
            ErrorKind::MissingField => out.append("missing field in line `"),
            ErrorKind::InvalidUserId => out.append("invalid user id `"),
            ErrorKind::InvalidItemId => out.append("invalid show id `"),
            ErrorKind::InvalidSeparator => out.append("missing separator in line `"),
            ErrorKind::InvalidItem => out.append("invalid item `"),
        }
        out.append(self.value.as_str());
        out.append("` on line ");
        let digits = format_u64(self.line_no);
        let tail = string_of(&digits);
        out.append(tail.as_str());
        out
    }
}

/// A plain error with nothing but a message, kept for invocation
/// mistakes such as an unknown subcommand.
#[derive(Debug)]
pub struct SimpleError {
    pub msg: String,
}

impl SimpleError {
    pub fn new(msg: &str) -> (r: SimpleError)
        ensures
            r.msg@ == msg@,
    {
        SimpleError { msg: msg.to_owned() }
    }

    /// The stored message.
    pub fn message(&self) -> (r: &str)
        ensures
            r@ == self.msg@,
    {
        self.msg.as_str()
    }
}

} // verus!
