//! The fixed ceilings of the encoding, and the error raised when an edit
//! pushes a value beyond them.
//!
//! The ceilings apply when a value is written, not when it is parsed: only an
//! edit can nest a value deeper or make it longer than these allow.

use crate::decimal::{decimal, push_decimal};
use vstd::prelude::*;
use vstd::string::StringExecFns;

verus! {

/// Deepest indentation at which anything may be written.
pub const MAX_INDENT: usize = 0x01FF;

/// Largest number of line terminators that one comment or text may hold.
pub const MAX_NEWLINES: usize = 0x3FFF;

/// A value cannot be written because it is beyond a ceiling of the encoding.
#[derive(Clone, Copy, Debug, PartialEq, Eq, Structural)]
pub enum CommentErr {
    /// Something would be written at this indentation, which is more than
    /// [`MAX_INDENT`].
    IndentTooLarge(usize),
    /// A comment or text holds this many line terminators, which is more
    /// than [`MAX_NEWLINES`].
    TooManyLines(usize),
}

impl CommentErr {
    /// The text of the diagnostic.
    pub open spec fn message(self) -> Seq<char> {
        match self {
            CommentErr::IndentTooLarge(x) => "Indent ("@ + decimal(x as nat)
                + ") must never exceed MAX_INDENT ("@ + decimal(MAX_INDENT as nat) + ")."@,
            CommentErr::TooManyLines(x) => "Line count ("@ + decimal(x as nat)
                + ") must never exceed MAX_NEWLINES ("@ + decimal(MAX_NEWLINES as nat) + ")."@,
        }
    }

    /// Renders the diagnostic.
    pub fn to_string(&self) -> (r: String)
        ensures
            r@ == self.message(),
    {
        let mut out = String::new();
        match self {
            CommentErr::IndentTooLarge(x) => {
                out.append("Indent (");
                push_decimal(&mut out, *x);
                out.append(") must never exceed MAX_INDENT (");
                push_decimal(&mut out, MAX_INDENT);
            },
            CommentErr::TooManyLines(x) => {
                out.append("Line count (");
                push_decimal(&mut out, *x);
                out.append(") must never exceed MAX_NEWLINES (");
                push_decimal(&mut out, MAX_NEWLINES);
            },
        }
        out.append(").");
        assert(out@ =~= self.message());
        out
    }
}

} // verus!
