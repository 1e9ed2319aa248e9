//! Why an expression was rejected, and where.

use vstd::prelude::*;
use vstd::string::StringExecFns;
use crate::chars::{byte_offset, byte_position};

verus! {

/// The class of token that was wanted at the place where reading stopped.
#[derive(Debug, Clone, Copy, PartialEq, Eq)]
pub enum Expected {
    /// A decimal digit.
    Digit,
    /// The dash between the two ends of a range.
    Dash,
    /// The `[` that opens a range group.
    OpeningBracket,
    /// The `]` that closes a range group, or a comma before a further item.
    ClosingBracket,
    /// A hostname character or the `[` of a range group.
    HostCharacter,
    /// A host: the entry between two commas is empty.
    Host,
    /// A comma before a further entry: white space ends the input.
    Comma,
}

/// The three kinds of rejection.
#[derive(Debug, Clone, Copy, PartialEq, Eq)]
pub enum ErrorKind {
    /// The input does not follow the grammar.
    Syntax(Expected),
    /// The larger end of a range was written with more leading zeros than
    /// the smaller one.
    InconsistentPadding,
    /// A run of digits does not fit in 64 bits.
    NumericOverflow,
}

/// A rejection as the grammar states it: the index of the character at which
/// reading stopped, and the kind.
pub struct Failure {
    pub at: int,
    pub kind: ErrorKind,
}

/// A rejected expression.
///
/// `position` is the offset of the character at which reading stopped,
/// counted in characters from the start of the input.
#[derive(Debug, Clone, Copy, PartialEq, Eq)]
pub struct ParseError {
    pub position: usize,
    pub kind: ErrorKind,
}

/// The words for each kind of rejection.
pub open spec fn description(kind: ErrorKind) -> Seq<char> {
    match kind {
        ErrorKind::Syntax(Expected::Digit) => "expected digit"@,
        ErrorKind::Syntax(Expected::Dash) => "expected dash"@,
        ErrorKind::Syntax(Expected::OpeningBracket) => "expected opening bracket"@,
        ErrorKind::Syntax(Expected::ClosingBracket) => "expected closing bracket"@,
        ErrorKind::Syntax(Expected::HostCharacter) => "expected host character"@,
        ErrorKind::Syntax(Expected::Host) => "no host found"@,
        ErrorKind::Syntax(Expected::Comma) => "expected comma"@,
        ErrorKind::InconsistentPadding => "inconsistent end padding"@,
        ErrorKind::NumericOverflow => "number too large"@,
    }
}

impl ParseError {
    /// Whether this error is the rejection `f`, at the same index.
    pub open spec fn reports(self, f: Failure) -> bool {
        self.position == f.at && self.kind == f.kind
    }

    /// Whether the input broke the grammar, as opposed to a rule on numbers.
    pub fn is_syntax(&self) -> (r: bool)
        ensures
            r == (self.kind is Syntax),
    {
        match self.kind {
            ErrorKind::Syntax(_) => true,
            _ => false,
        }
    }

    /// The position as an offset in bytes into `input`, the text that was
    /// rejected: the number of bytes in front of the character at which
    /// reading stopped. Nothing where `input` has fewer characters than the
    /// position counts.
    pub fn byte_position(&self, input: &str) -> (r: Option<usize>)
        ensures
            self.position <= input@.len() ==> (r matches Some(offset) && offset == byte_offset(
                input@,
                self.position as int,
            )),
            self.position > input@.len() ==> r is None,
    {
        byte_position(input, self.position)
    }

    /// A short description of what was wanted.
    pub fn message(&self) -> (r: String)
        ensures
            r@ == description(self.kind),
    {
        let text = match self.kind {
            ErrorKind::Syntax(Expected::Digit) => "expected digit",
            ErrorKind::Syntax(Expected::Dash) => "expected dash",
            ErrorKind::Syntax(Expected::OpeningBracket) => "expected opening bracket",
            ErrorKind::Syntax(Expected::ClosingBracket) => "expected closing bracket",
            ErrorKind::Syntax(Expected::HostCharacter) => "expected host character",
            ErrorKind::Syntax(Expected::Host) => "no host found",
            ErrorKind::Syntax(Expected::Comma) => "expected comma",
            ErrorKind::InconsistentPadding => "inconsistent end padding",
            ErrorKind::NumericOverflow => "number too large",
        };
        String::from_str(text)
    }
}

} // verus!
