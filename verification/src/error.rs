//! Error types, and the bookkeeping of line and column.

use vstd::prelude::*;
use vstd::string::*;
use vstd::utf8::{encode_utf8, is_continuation_byte};
use crate::text::{byte_len, decimal, on_boundary, push_decimal, sub_str, text_of};

verus! {

/// `std::io::Error`, carried through from a failed read; nothing inside it is visible here.
#[verifier::external_type_specification]
#[verifier::external_body]
pub struct ExIoError(std::io::Error);

/// The main error type of the library.
#[derive(Debug)]
pub enum Error {
    /// Parse error with location information
    ParseError {
        /// Line number (1-indexed)
        line: usize,
        /// Column number (1-indexed)
        column: usize,
        /// Error message
        message: String,
        /// Optional source snippet
        snippet: Option<String>,
    },
    /// Undefined string variable
    UndefinedVariable(String),
    /// Circular reference in string variables
    CircularReference(String),
    /// Invalid entry type
    InvalidEntryType(String),
    /// Missing required field
    MissingRequiredField {
        /// The entry type
        entry_type: String,
        /// The missing field
        field: String,
    },
    /// Duplicate entry key
    DuplicateKey(String),
    /// Invalid field name
    InvalidFieldName(String),
    /// IO error
    IoError(std::io::Error),
    /// Generic parse error
    WinnowError(String),
}

/// Result type of the library.
pub type Result<T> = std::result::Result<T, Error>;

/// The one-line message of an error whose text does not depend on the
/// operating system; `None` for an I/O error.
pub open spec fn message_of(e: Error) -> Option<Seq<char>> {
    match e {
        Error::ParseError { line, column, message, snippet } => Some(
            "Parse error at line "@ + decimal(line as nat) + ", column "@ + decimal(column as nat)
                + ": "@ + message@,
        ),
        Error::UndefinedVariable(name) => Some("Undefined string variable '"@ + name@ + "'"@),
        Error::CircularReference(name) => Some(
            "Circular reference detected in string variables: "@ + name@,
        ),
        Error::InvalidEntryType(name) => Some("Invalid entry type '"@ + name@ + "'"@),
        Error::MissingRequiredField { entry_type, field } => Some(
            "Missing required field '"@ + field@ + "' in "@ + entry_type@ + " entry"@,
        ),
        Error::DuplicateKey(key) => Some("Duplicate entry key '"@ + key@ + "'"@),
        Error::InvalidFieldName(name) => Some("Invalid field name '"@ + name@ + "'"@),
        Error::IoError(_) => None,
        Error::WinnowError(text) => Some("Parse error: "@ + text@),
    }
}

/// `std::io::Error`'s `Display`, as a `String`. The text comes from the operating
/// system, so nothing is claimed of it.
#[verifier::external_body]
fn io_error_text(e: &std::io::Error) -> String {
    format!("{}", e)
}

impl From<std::io::Error> for Error {
    fn from(e: std::io::Error) -> (r: Error) {
        Error::IoError(e)
    }
}

impl vstd::std_specs::convert::FromSpecImpl<std::io::Error> for Error {
    open spec fn obeys_from_spec() -> bool {
        true
    }

    open spec fn from_spec(e: std::io::Error) -> Error {
        Error::IoError(e)
    }
}

impl Error {
    /// The one-line, human-readable message of the error.
    pub fn to_string(&self) -> (r: String)
        ensures
            match message_of(*self) {
                Some(text) => r@ == text,
                None => exists|tail: Seq<char>| r@ == "IO error: "@ + tail,
            },
    {
        let mut out = String::new();
        match self {
            Error::ParseError { line, column, message, snippet } => {
                out.append("Parse error at line ");
                push_decimal(&mut out, *line as u128);
                out.append(", column ");
                push_decimal(&mut out, *column as u128);
                out.append(": ");
                out.append(message.as_str());
                assert(out@ =~= message_of(*self)->0);
            },
            Error::UndefinedVariable(name) => {
                out.append("Undefined string variable '");
                out.append(name.as_str());
                out.append("'");
                assert(out@ =~= message_of(*self)->0);
            },
            Error::CircularReference(name) => {
                out.append("Circular reference detected in string variables: ");
                out.append(name.as_str());
                assert(out@ =~= message_of(*self)->0);
            },
            Error::InvalidEntryType(name) => {
                out.append("Invalid entry type '");
                out.append(name.as_str());
                out.append("'");
                assert(out@ =~= message_of(*self)->0);
            },
            Error::MissingRequiredField { entry_type, field } => {
                out.append("Missing required field '");
                out.append(field.as_str());
                out.append("' in ");
                out.append(entry_type.as_str());
                out.append(" entry");
                assert(out@ =~= message_of(*self)->0);
            },
            Error::DuplicateKey(key) => {
                out.append("Duplicate entry key '");
                out.append(key.as_str());
                out.append("'");
                assert(out@ =~= message_of(*self)->0);
            },
            Error::InvalidFieldName(name) => {
                out.append("Invalid field name '");
                out.append(name.as_str());
                out.append("'");
                assert(out@ =~= message_of(*self)->0);
            },
            Error::IoError(e) => {
                out.append("IO error: ");
                let text = io_error_text(e);
                out.append(text.as_str());
                assert(out@ =~= "IO error: "@ + text@);
            },
            Error::WinnowError(text) => {
                out.append("Parse error: ");
                out.append(text.as_str());
                assert(out@ =~= message_of(*self)->0);
            },
        }
        out
    }
}

/// The line and column reached from `(line, column)` by reading the first
/// `upto` bytes of `b`: a line feed starts a new line at column 1, every
/// other character moves one column to the right.
pub open spec fn position_after(line: int, column: int, b: Seq<u8>, upto: int) -> (int, int)
    decreases upto,
{
    if upto <= 0 {
        (line, column)
    } else {
        let (l, c) = position_after(line, column, b, upto - 1);
        if b[upto - 1] == 0x0a {
            (l + 1, 1)
        } else if is_continuation_byte(b[upto - 1]) {
            (l, c)
        } else {
            (l, c + 1)
        }
    }
}

/// Reading `upto` bytes moves the line and the column by at most `upto`.
pub proof fn lemma_position_bounds(line: int, column: int, b: Seq<u8>, upto: int)
    requires
        0 <= line,
        0 <= column,
        0 <= upto,
    ensures
        line <= position_after(line, column, b, upto).0 <= line + upto,
        0 <= position_after(line, column, b, upto).1 <= column + upto,
    decreases upto,
{
    if upto > 0 {
        lemma_position_bounds(line, column, b, upto - 1);
    }
}

/// Reads the first `upto` bytes of `bytes`, counting lines and columns from `(line, column)`.
pub fn track_position(line: usize, column: usize, bytes: &[u8], upto: usize) -> (r: (usize, usize))
    requires
        upto <= bytes@.len(),
        line + upto <= usize::MAX,
        column + upto <= usize::MAX,
    ensures
        (r.0 as int, r.1 as int) == position_after(line as int, column as int, bytes@, upto as int),
{
    let mut l = line;
    let mut c = column;
    let mut i: usize = 0;
    while i < upto
        invariant
            i <= upto <= bytes@.len(),
            line + upto <= usize::MAX,
            column + upto <= usize::MAX,
            (l as int, c as int) == position_after(line as int, column as int, bytes@, i as int),
        decreases upto - i,
    {
        proof {
            lemma_position_bounds(line as int, column as int, bytes@, i as int);
        }
        let byte = bytes[i];
        if byte == 0x0a {
            l += 1;
            c = 1;
        } else if !(0x80 <= byte && byte <= 0xbf) {
            c += 1;
        }
        i += 1;
    }
    (l, c)
}

/// Parse context for better error messages.
#[derive(Debug)]
pub struct ParseContext {
    /// The full input string being parsed
    pub input: String,
    /// Current line number (1-indexed)
    pub line: usize,
    /// Current column number (1-indexed)
    pub column: usize,
}

/// A run of `n` spaces.
pub open spec fn spaces(n: nat) -> Seq<char> {
    Seq::new(n, |i: int| ' ')
}

impl Clone for ParseContext {
    fn clone(&self) -> (r: Self)
        ensures
            r == *self,
    {
        ParseContext { input: self.input.clone(), line: self.line, column: self.column }
    }
}

impl ParseContext {
    /// Create a new parse context at line 1, column 1.
    pub fn new(input: &str) -> (r: Self)
        ensures
            r.input@ == input@,
            r.line == 1,
            r.column == 1,
    {
        ParseContext { input: input.to_owned(), line: 1, column: 1 }
    }

    /// Get a snippet of the input around the position `pos`: up to
    /// `context_size` bytes on either side, a line break, and a caret under
    /// the position.
    pub fn snippet(&self, pos: usize, context_size: usize) -> (r: String)
        requires
            pos + context_size <= usize::MAX,
            pos - context_size <= encode_utf8(self.input@).len(),
            on_boundary(
                encode_utf8(self.input@),
                if pos >= context_size {
                    pos - context_size
                } else {
                    0
                },
            ),
            on_boundary(
                encode_utf8(self.input@),
                if pos + context_size <= encode_utf8(self.input@).len() {
                    pos + context_size
                } else {
                    encode_utf8(self.input@).len() as int
                },
            ),
        ensures
            ({
                let b = encode_utf8(self.input@);
                let start = if pos >= context_size {
                    pos - context_size
                } else {
                    0
                };
                let end = if pos + context_size <= b.len() {
                    pos + context_size
                } else {
                    b.len() as int
                };
                r@ == text_of(b, start, end) + seq!['\n'] + spaces((pos - start) as nat) + seq!['^']
            }),
    {
        let text = self.input.as_str();
        let len = byte_len(text);
        let start = if pos >= context_size {
            pos - context_size
        } else {
            0
        };
        let end = if pos + context_size <= len {
            pos + context_size
        } else {
            len
        };
        let mut out = String::new();
        out.append(sub_str(text, start, end));
        proof {
            reveal_strlit("\n");
            reveal_strlit(" ");
            reveal_strlit("^");
        }
        out.append("\n");
        let ghost head = out@;
        let mut i: usize = 0;
        while i < pos - start
            invariant
                i <= pos - start,
                out@ == head + spaces(i as nat),
            decreases pos - start - i,
        {
            proof {
                reveal_strlit(" ");
            }
            out.append(" ");
            assert(out@ =~= head + spaces((i + 1) as nat));
            i += 1;
        }
        out.append("^");
        assert(out@ =~= text_of(text.spec_bytes(), start as int, end as int) + seq!['\n'] + spaces(
            (pos - start) as nat,
        ) + seq!['^']);
        out
    }

    /// Update position based on consumed input.
    pub fn advance(&mut self, consumed: &str)
        requires
            old(self).line + consumed.spec_bytes().len() <= usize::MAX,
            old(self).column + consumed.spec_bytes().len() <= usize::MAX,
        ensures
            final(self).input == old(self).input,
            (final(self).line as int, final(self).column as int) == position_after(
                old(self).line as int,
                old(self).column as int,
                consumed.spec_bytes(),
                consumed.spec_bytes().len() as int,
            ),
    {
        let bytes = consumed.as_bytes();
        let (line, column) = track_position(self.line, self.column, bytes, bytes.len());
        self.line = line;
        self.column = column;
    }
}

/// Location information for errors.
#[derive(Debug, Clone, Copy, PartialEq, Eq)]
pub struct Location {
    /// Line number (1-indexed)
    pub line: usize,
    /// Column number (1-indexed)
    pub column: usize,
}

impl Location {
    /// The location as `line:column`.
    pub fn to_string(&self) -> (r: String)
        ensures
            r@ == decimal(self.line as nat) + seq![':'] + decimal(self.column as nat),
    {
        let mut out = String::new();
        push_decimal(&mut out, self.line as u128);
        proof {
            reveal_strlit(":");
        }
        out.append(":");
        push_decimal(&mut out, self.column as u128);
        assert(out@ =~= decimal(self.line as nat) + seq![':'] + decimal(self.column as nat));
        out
    }
}

} // verus!
