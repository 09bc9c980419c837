//! A TOML parser whose table construction and lexical rules are verified.

use vstd::prelude::*;
use vstd::string::StringSliceAdditionalSpecFns;

pub mod text;
pub mod string;
pub mod key;
pub mod types;
pub mod table;
pub mod time;
pub mod num;
pub mod value;
pub mod parser;
pub mod laws;
pub mod shape;
pub mod convert;

use crate::text::Span;
use crate::types::{TableOrigin, TomlTable};

verus! {

/// Parses a TOML document.
pub fn parse<'a>(str: &'a str) -> (r: Result<Toml<'a>, TomlError<'a>>)
    ensures
        r matches Ok(t) ==> t.source == str && t.table.origin == TableOrigin::Explicit
            && crate::table::keys_unique(t.table.entries@) && crate::laws::tree_keys_unique(t.table.entries@) && exists|stmts: Seq<crate::parser::Statement<'a>>|
            crate::parser::doc_from(str.spec_bytes(), 0, Seq::empty(), Seq::empty(), t.table.entries@, stmts),
        r is Err ==> forall|es: Seq<crate::table::Entry<'a>>, stmts: Seq<crate::parser::Statement<'a>>|
            !crate::parser::doc_from(str.spec_bytes(), 0, Seq::empty(), Seq::empty(), es, stmts),
        forall|j: int, stmts: Seq<crate::parser::Statement<'a>>|
            #[trigger] crate::parser::reused_at(str.spec_bytes(), 0, Seq::empty(), Seq::empty(), j, stmts) ==> (r is Err
                && r->Err_0.kind == TomlErrorKind::ReusedKey && r->Err_0.src.start == j && r->Err_0.src.end >= j + 2),
{
    Toml::parse(str)
}

/// A parsed TOML document: its source and its root table.
#[derive(Debug)]
pub struct Toml<'a> {
    /// The document's source text.
    pub source: &'a str,
    /// The document's root table.
    pub table: TomlTable<'a>,
}

impl<'a> Toml<'a> {
    /// Parses a TOML document.
    pub fn new(str: &'a str) -> (r: Result<Self, TomlError<'a>>)
        ensures
            r matches Ok(t) ==> t.source == str && t.table.origin == TableOrigin::Explicit
            && crate::table::keys_unique(t.table.entries@) && crate::laws::tree_keys_unique(t.table.entries@) && exists|stmts: Seq<crate::parser::Statement<'a>>|
            crate::parser::doc_from(str.spec_bytes(), 0, Seq::empty(), Seq::empty(), t.table.entries@, stmts),
        r is Err ==> forall|es: Seq<crate::table::Entry<'a>>, stmts: Seq<crate::parser::Statement<'a>>|
            !crate::parser::doc_from(str.spec_bytes(), 0, Seq::empty(), Seq::empty(), es, stmts),
        forall|j: int, stmts: Seq<crate::parser::Statement<'a>>|
            #[trigger] crate::parser::reused_at(str.spec_bytes(), 0, Seq::empty(), Seq::empty(), j, stmts) ==> (r is Err
                && r->Err_0.kind == TomlErrorKind::ReusedKey && r->Err_0.src.start == j && r->Err_0.src.end >= j + 2),
    {
        Self::parse(str)
    }

    /// Parses a TOML document.
    pub fn parse(str: &'a str) -> (r: Result<Self, TomlError<'a>>)
        ensures
            r matches Ok(t) ==> t.source == str && t.table.origin == TableOrigin::Explicit
            && crate::table::keys_unique(t.table.entries@) && crate::laws::tree_keys_unique(t.table.entries@) && exists|stmts: Seq<crate::parser::Statement<'a>>|
            crate::parser::doc_from(str.spec_bytes(), 0, Seq::empty(), Seq::empty(), t.table.entries@, stmts),
        r is Err ==> forall|es: Seq<crate::table::Entry<'a>>, stmts: Seq<crate::parser::Statement<'a>>|
            !crate::parser::doc_from(str.spec_bytes(), 0, Seq::empty(), Seq::empty(), es, stmts),
        forall|j: int, stmts: Seq<crate::parser::Statement<'a>>|
            #[trigger] crate::parser::reused_at(str.spec_bytes(), 0, Seq::empty(), Seq::empty(), j, stmts) ==> (r is Err
                && r->Err_0.kind == TomlErrorKind::ReusedKey && r->Err_0.src.start == j && r->Err_0.src.end >= j + 2),
    {
        match crate::parser::parse_str(str) {
            Ok(table) => Ok(Toml { source: str, table }),
            Err(e) => Err(e),
        }
    }

    /// The source text of the document.
    pub fn source(&self) -> (r: &str)
        ensures
            r == self.source,
    {
        self.source
    }

    /// The document's root table.
    pub fn table(&self) -> (r: &TomlTable<'a>)
        ensures
            *r == self.table,
    {
        &self.table
    }

    /// The document's root table, taken out of it.
    pub fn into_table(self) -> (r: TomlTable<'a>)
        ensures
            r == self.table,
    {
        self.table
    }
}

/// An error while parsing TOML.
#[derive(Debug)]
pub struct TomlError<'a> {
    /// An excerpt of the region of text that caused the error.
    pub src: Span<'a>,
    /// The type of parsing error.
    pub kind: TomlErrorKind,
}

/// The start of the line that lies `n` lines above the one holding index
/// `i` (or 0).
pub open spec fn lines_back(s: Seq<u8>, i: int, n: nat) -> int
    decreases i,
{
    if i <= 0 || i > s.len() {
        0
    } else if s[i - 1] == 0x0A {
        if n == 0 {
            i
        } else {
            lines_back(s, i - 1, (n - 1) as nat)
        }
    } else {
        lines_back(s, i - 1, n)
    }
}

/// The end of the line that lies `n` lines below the one holding index `i`
/// (or the end of the text).
pub open spec fn lines_forward(s: Seq<u8>, i: int, n: nat) -> int
    decreases s.len() - i,
{
    if i < 0 || i >= s.len() {
        s.len() as int
    } else if s[i] == 0x0A {
        if n == 0 {
            i
        } else {
            lines_forward(s, i + 1, (n - 1) as nat)
        }
    } else {
        lines_forward(s, i + 1, n)
    }
}

impl<'a> TomlError<'a> {
    /// The stretch of source to show around the error: from three lines above
    /// the offending span to three lines below it.
    pub fn context_range(&self) -> (r: (usize, usize))
        ensures
            r.0 as int == lines_back(self.src.source.spec_bytes(), self.src.start as int, 3),
            r.1 as int == lines_forward(self.src.source.spec_bytes(), self.src.end + 1, 3),
    {
        let b = self.src.source.as_bytes();
        let ghost s = b@;
        let mut i: usize = if self.src.start <= b.len() { self.src.start } else { 0 };
        let mut n: usize = 3;
        assert(lines_back(s, self.src.start as int, 3) == lines_back(s, i as int, n as nat));
        while i > 0 && b[i - 1] != 0x0A || (i > 0 && n > 0)
            invariant
                i <= b@.len(),
                b@ == s,
                n <= 3,
                lines_back(s, self.src.start as int, 3) == lines_back(s, i as int, n as nat),
            decreases i,
        {
            if b[i - 1] == 0x0A {
                n = n - 1;
            }
            i = i - 1;
        }
        let start = i;
        let mut j: usize = if self.src.end < b.len() { self.src.end + 1 } else { b.len() };
        let mut m: usize = 3;
        assert(lines_forward(s, self.src.end + 1, 3) == lines_forward(s, j as int, m as nat));
        while j < b.len() && (b[j] != 0x0A || m > 0)
            invariant
                j <= b@.len(),
                b@ == s,
                m <= 3,
                lines_forward(s, self.src.end + 1, 3) == lines_forward(s, j as int, m as nat),
            decreases b@.len() - j,
        {
            if b[j] == 0x0A {
                m = m - 1;
            }
            j = j + 1;
        }
        (start, j)
    }
}

/// A type of error while parsing TOML.
#[derive(Debug, PartialEq, Eq, Clone, Copy, Structural)]
pub enum TomlErrorKind {
    /// A bare key (key without quotes) contains an invalid character.
    InvalidBareKey,
    /// There was a space in the middle of a bare key.
    BareKeyHasSpace,
    /// There was no `=` sign in a key/value assignment.
    NoEqualsInAssignment,
    /// There was no key in a key/value assignment.
    NoKeyInAssignment,
    /// There was no value in a key/value assignment.
    NoValueInAssignment,
    /// A basic string (`"hello"`) didn't have a closing quote.
    UnclosedBasicString,
    /// A literal string (`'hello'`) didn't have a closing quote.
    UnclosedLiteralString,
    /// A quoted key didn't have a closing quote.
    UnclosedQuotedKey,
    /// The value in a key/value assignment wasn't recognised.
    UnrecognisedValue,
    /// The same key was used twice.
    ReusedKey,
    /// A number was too big to fit in an i64, positive or negative.
    NumberTooLarge,
    /// An integer has an invalid base. Valid bases are hex (0x), octal (0o),
    /// and binary (0b).
    NumberHasInvalidBase,
    /// A literal number starts with a 0.
    NumberHasLeadingZero,
    /// A number is malformed.
    InvalidNumber,
    /// A basic string has an unknown escape sequence.
    UnknownEscapeSequence,
    /// A unicode escape in a basic string has an unknown unicode scalar value.
    UnknownUnicodeScalar,
    /// A table (`[table]`) had an unclosed bracket.
    UnclosedTableBracket,
    /// An inline table (`{key = "val", one = 2}`) had an unclosed bracket.
    UnclosedInlineTableBracket,
    /// An array of tables (`[[array_table]]`) was missing closing brackets.
    UnclosedArrayOfTablesBracket,
    /// An array literal (`[true, "hi", 123]`) was missing a closing bracket.
    UnclosedArrayBracket,
    /// There was no `,` in between values in an inline table or array.
    NoCommaDelimeter,
    /// One section (year, month, day, hour, etc) of a date/time value had too
    /// many digits.
    DateTimeTooManyDigits,
    /// A date value was missing its month.
    DateMissingMonth,
    /// A date value was missing its day.
    DateMissingDay,
    /// A date value was missing the `-` between a year/month/day.
    DateMissingDash,
    /// A time value was missing its minute.
    TimeMissingMinute,
    /// A time value was missing its second.
    TimeMissingSecond,
    /// A time value was missing the `:` between its hour/minute/second.
    TimeMissingColon,
    /// The offset portion of an offset datetime was missing its hour.
    OffsetMissingHour,
    /// The offset portion of an offset datetime was missing its minute.
    OffsetMissingMinute,
}

} // verus!
