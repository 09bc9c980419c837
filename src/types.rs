//! TOML data types.

use vstd::prelude::*;
use vstd::string::StringSliceAdditionalSpecFns;

use crate::text::{CowSpan, Span};

verus! {

/// A string value: either a stretch of the input, or text decoded from it.
#[derive(Debug)]
pub enum TomlString<'a> {
    /// Text decoded from the span (escapes handled, or empty).
    Formatted(Span<'a>, Vec<u8>),
    /// The text is the span itself.
    Raw(Span<'a>),
}

impl<'a> TomlString<'a> {
    /// The string's text, as bytes.
    pub open spec fn content(&self) -> Seq<u8> {
        match self {
            TomlString::Formatted(_, v) => v@,
            TomlString::Raw(s) => if s.wf() { s.bytes() } else { Seq::empty() },
        }
    }

    /// A raw string's span lies within its source.
    pub open spec fn wf(&self) -> bool {
        match self {
            TomlString::Formatted(_, _) => true,
            TomlString::Raw(s) => s.within(),
        }
    }

    /// The string value that a parsed string literal stands for.
    pub fn from_cow(c: CowSpan<'a>) -> (r: Self)
        ensures
            r.content() == c.content(),
            r.wf() == c.wf(),
    {
        match c {
            CowSpan::Raw(s) => TomlString::Raw(s),
            CowSpan::Modified(s, v) => TomlString::Formatted(s, v),
        }
    }

    /// The string's text.
    pub fn as_str(&self) -> (r: &str)
        ensures
            self.wf() && vstd::utf8::valid_utf8(self.content()) ==> r.spec_bytes() == self.content(),
    {
        match self {
            TomlString::Formatted(_, v) => crate::text::str_of_bytes(v.as_slice()),
            TomlString::Raw(span) => match span.try_as_str() {
                Some(s) => s,
                None => "",
            },
        }
    }

    /// The string's text, as bytes.
    pub fn as_bytes(&self) -> (r: &[u8])
        ensures
            r@ == self.content(),
    {
        match self {
            TomlString::Formatted(_, v) => v.as_slice(),
            TomlString::Raw(span) => {
                let n = span.source.as_bytes().len();
                if span.start <= span.end && span.end < n {
                    span.as_bytes()
                } else {
                    &[]
                }
            },
        }
    }

    /// The span of input that the string came from.
    pub fn span(&self) -> (r: &Span<'a>)
        ensures
            *r == match self {
                TomlString::Formatted(s, _) => *s,
                TomlString::Raw(s) => *s,
            },
    {
        match self {
            TomlString::Formatted(span, _) => span,
            TomlString::Raw(span) => span,
        }
    }
}

/// A float, kept as its literal: floating-point arithmetic stays outside this
/// library, which hands the text to whoever converts it.
#[derive(Debug)]
pub struct TomlFloat {
    /// Whether the literal had a leading `-`.
    pub negative: bool,
    /// The literal without its sign and underscores: `inf`, `nan`, or digits
    /// with a fraction and/or an exponent.
    pub literal: Vec<u8>,
}

impl TomlFloat {
    /// The float's literal, its sign included (`-` only), underscores left out.
    pub fn text(&self) -> (r: Vec<u8>)
        ensures
            r@ == (if self.negative { seq![0x2Du8] } else { Seq::empty() }) + self.literal@,
    {
        let mut out: Vec<u8> = Vec::new();
        if self.negative {
            out.push(0x2Du8);
        }
        let mut i: usize = 0;
        while i < self.literal.len()
            invariant
                i <= self.literal@.len(),
                out@ == (if self.negative { seq![0x2Du8] } else { Seq::empty() }) + self.literal@.subrange(0, i as int),
            decreases self.literal@.len() - i,
        {
            out.push(self.literal[i]);
            i = i + 1;
            proof {
                assert(self.literal@.subrange(0, i as int) =~= self.literal@.subrange(0, i - 1) + seq![self.literal@[i - 1]]);
                assert(out@ =~= (if self.negative { seq![0x2Du8] } else { Seq::empty() }) + self.literal@.subrange(0, i as int));
            }
        }
        assert(self.literal@.subrange(0, i as int) =~= self.literal@);
        out
    }
}

/// How a table came to be. Only an implicit table may later be declared by a
/// header, and only once; an inline table is closed.
#[derive(Debug, PartialEq, Eq, Clone, Copy, Structural)]
pub enum TableOrigin {
    /// Created along the path of a dotted key or a header.
    Implicit,
    /// Declared by a `[header]` (or the root table).
    Explicit,
    /// Written as an inline table `{ ... }`.
    Inline,
    /// Appended by an `[[array.of.tables]]` header.
    ArrayElement,
}

/// A set of key/value pairs in TOML.
#[derive(Debug)]
pub struct TomlTable<'a> {
    /// The table's entries, each key once.
    pub entries: Vec<(CowSpan<'a>, TomlValue<'a>)>,
    /// How the table came to be.
    pub origin: TableOrigin,
}

/// A value in TOML.
#[derive(Debug)]
pub enum TomlValue<'a> {
    /// A string value, escapes already decoded.
    String(TomlString<'a>),
    /// A 64-bit signed integer.
    Integer(i64),
    /// A float, as its literal.
    Float(TomlFloat),
    /// A boolean.
    Boolean(bool),
    /// A time value (its shape is checked, not its range).
    Time(TomlTime),
    /// A date value (its shape is checked, not its range).
    Date(TomlDate),
    /// A date and time value.
    DateTime(TomlDateTime),
    /// A date and time value, offset to a specific timezone.
    OffsetDateTime(OffsetTomlDateTime),
    /// An array of values, and whether `[[header]]` lines made it.
    Array(Vec<TomlValue<'a>>, bool),
    /// A table of key/value pairs.
    Table(TomlTable<'a>),
}

impl<'a> TomlValue<'a> {
    /// The type of a value.
    pub open spec fn spec_ty(&self) -> TomlValueType {
        match self {
            TomlValue::String(_) => TomlValueType::String,
            TomlValue::Integer(_) => TomlValueType::Integer,
            TomlValue::Float(_) => TomlValueType::Float,
            TomlValue::Boolean(_) => TomlValueType::Boolean,
            TomlValue::Time(_) => TomlValueType::Time,
            TomlValue::Date(_) => TomlValueType::Date,
            TomlValue::DateTime(_) => TomlValueType::DateTime,
            TomlValue::OffsetDateTime(_) => TomlValueType::OffsetDateTime,
            TomlValue::Array(_, _) => TomlValueType::Array,
            TomlValue::Table(_) => TomlValueType::Table,
        }
    }

    /// The type of this value.
    pub fn ty(&self) -> (r: TomlValueType)
        ensures
            r == self.spec_ty(),
    {
        match self {
            TomlValue::String(_) => TomlValueType::String,
            TomlValue::Integer(_) => TomlValueType::Integer,
            TomlValue::Float(_) => TomlValueType::Float,
            TomlValue::Boolean(_) => TomlValueType::Boolean,
            TomlValue::Time(_) => TomlValueType::Time,
            TomlValue::Date(_) => TomlValueType::Date,
            TomlValue::DateTime(_) => TomlValueType::DateTime,
            TomlValue::OffsetDateTime(_) => TomlValueType::OffsetDateTime,
            TomlValue::Array(_, _) => TomlValueType::Array,
            TomlValue::Table(_) => TomlValueType::Table,
        }
    }

    /// The value as a string.
    pub fn as_string(&self) -> (r: Option<&str>)
        ensures
            r.is_some() == (self is String),
            self matches TomlValue::String(s) ==> (s.wf() && vstd::utf8::valid_utf8(s.content())
                ==> r.unwrap().spec_bytes() == s.content()),
    {
        match self {
            TomlValue::String(s) => Some(s.as_str()),
            _ => None,
        }
    }

    /// The value read as a boolean: a boolean itself; the strings `true`,
    /// `True`, `false` and `False`; the integers 1 and 0. A float's value is
    /// not read here (floating point stays with whoever converts floats), so
    /// a float, like any other value, gives `None`.
    pub fn coerce_bool(&self) -> (r: Option<bool>)
        ensures
            r == (match self {
                TomlValue::Boolean(b) => Some(*b),
                TomlValue::String(ts) => if ts.content() == seq![0x74u8, 0x72, 0x75, 0x65] || ts.content() == seq![
                    0x54u8,
                    0x72,
                    0x75,
                    0x65,
                ] {
                    Some(true)
                } else if ts.content() == seq![0x66u8, 0x61, 0x6C, 0x73, 0x65] || ts.content() == seq![
                    0x46u8,
                    0x61,
                    0x6C,
                    0x73,
                    0x65,
                ] {
                    Some(false)
                } else {
                    None
                },
                TomlValue::Integer(i) => if *i == 0 {
                    Some(false)
                } else if *i == 1 {
                    Some(true)
                } else {
                    None
                },
                _ => None,
            }),
    {
        match self {
            TomlValue::Boolean(b) => Some(*b),
            TomlValue::String(ts) => {
                let b = ts.as_bytes();
                if b.len() == 4 && (b[0] == 0x74 || b[0] == 0x54) && b[1] == 0x72 && b[2] == 0x75 && b[3] == 0x65 {
                    proof {
                        if b[0] == 0x74 {
                            assert(b@ =~= seq![0x74u8, 0x72, 0x75, 0x65]);
                        } else {
                            assert(b@ =~= seq![0x54u8, 0x72, 0x75, 0x65]);
                        }
                    }
                    Some(true)
                } else if b.len() == 5 && (b[0] == 0x66 || b[0] == 0x46) && b[1] == 0x61 && b[2] == 0x6C && b[3] == 0x73
                    && b[4] == 0x65 {
                    proof {
                        if b[0] == 0x66 {
                            assert(b@ =~= seq![0x66u8, 0x61, 0x6C, 0x73, 0x65]);
                        } else {
                            assert(b@ =~= seq![0x46u8, 0x61, 0x6C, 0x73, 0x65]);
                        }
                    }
                    Some(false)
                } else {
                    proof {
                        if b@ == seq![0x74u8, 0x72, 0x75, 0x65] || b@ == seq![0x54u8, 0x72, 0x75, 0x65] {
                            assert(b@[0] == b[0]);
                        }
                        if b@ == seq![0x66u8, 0x61, 0x6C, 0x73, 0x65] || b@ == seq![0x46u8, 0x61, 0x6C, 0x73, 0x65] {
                            assert(b@[0] == b[0]);
                        }
                    }
                    None
                }
            },
            TomlValue::Integer(i) => {
                if *i == 0 {
                    Some(false)
                } else if *i == 1 {
                    Some(true)
                } else {
                    None
                }
            },
            _ => None,
        }
    }

    /// The value as an integer.
    pub fn as_integer(&self) -> (r: Option<i64>)
        ensures
            r == (match self {
                TomlValue::Integer(i) => Some(*i),
                _ => None,
            }),
    {
        match self {
            TomlValue::Integer(i) => Some(*i),
            _ => None,
        }
    }

    /// The value as a float literal.
    pub fn as_float(&self) -> (r: Option<&TomlFloat>)
        ensures
            r.is_some() == (self is Float),
            self matches TomlValue::Float(f) ==> r == Some(f),
    {
        match self {
            TomlValue::Float(f) => Some(f),
            _ => None,
        }
    }

    /// The value as a boolean.
    pub fn as_bool(&self) -> (r: Option<bool>)
        ensures
            r == (match self {
                TomlValue::Boolean(b) => Some(*b),
                _ => None,
            }),
    {
        match self {
            TomlValue::Boolean(b) => Some(*b),
            _ => None,
        }
    }

    /// The value as an array.
    pub fn as_array(&self) -> (r: Option<&Vec<TomlValue<'a>>>)
        ensures
            r.is_some() == (self is Array),
            self matches TomlValue::Array(a, _) ==> r == Some(a),
    {
        match self {
            TomlValue::Array(a, _) => Some(a),
            _ => None,
        }
    }

    /// The value as a table.
    pub fn as_table(&self) -> (r: Option<&TomlTable<'a>>)
        ensures
            r.is_some() == (self is Table),
            self matches TomlValue::Table(t) ==> r == Some(t),
    {
        match self {
            TomlValue::Table(t) => Some(t),
            _ => None,
        }
    }

    /// The value as a date.
    pub fn as_date(&self) -> (r: Option<TomlDate>)
        ensures
            r == (match self {
                TomlValue::Date(d) => Some(*d),
                _ => None,
            }),
    {
        match self {
            TomlValue::Date(d) => Some(*d),
            _ => None,
        }
    }

    /// The value as a time.
    pub fn as_time(&self) -> (r: Option<TomlTime>)
        ensures
            r == (match self {
                TomlValue::Time(t) => Some(*t),
                _ => None,
            }),
    {
        match self {
            TomlValue::Time(t) => Some(*t),
            _ => None,
        }
    }

    /// The value as a date and time.
    pub fn as_datetime(&self) -> (r: Option<TomlDateTime>)
        ensures
            r == (match self {
                TomlValue::DateTime(d) => Some(*d),
                _ => None,
            }),
    {
        match self {
            TomlValue::DateTime(d) => Some(*d),
            _ => None,
        }
    }

    /// The value as an offset date and time.
    pub fn as_offset_datetime(&self) -> (r: Option<OffsetTomlDateTime>)
        ensures
            r == (match self {
                TomlValue::OffsetDateTime(d) => Some(*d),
                _ => None,
            }),
    {
        match self {
            TomlValue::OffsetDateTime(d) => Some(*d),
            _ => None,
        }
    }
}

/// The basic value types in TOML.
#[derive(Debug, PartialEq, Eq, Clone, Copy, Structural)]
pub enum TomlValueType {
    /// A string.
    String,
    /// An integer.
    Integer,
    /// A float.
    Float,
    /// A boolean.
    Boolean,
    /// A time.
    Time,
    /// A date.
    Date,
    /// A date and time.
    DateTime,
    /// An offset date and time.
    OffsetDateTime,
    /// An array.
    Array,
    /// A table.
    Table,
}

/// An offset from UTC time.
#[derive(Debug, PartialEq, Eq, Clone, Copy, Structural)]
pub struct TomlOffset {
    /// The hour and sign of the offset; negative for a negative offset.
    pub hour: i8,
    /// The minute of the offset.
    pub minute: u8,
}

/// A calendar date.
#[derive(Debug, PartialEq, Eq, Clone, Copy, Structural)]
pub struct TomlDate {
    /// The date's year.
    pub year: u16,
    /// The date's month.
    pub month: u8,
    /// The day of the month.
    pub month_day: u8,
}

/// A time, with nanosecond precision.
#[derive(Debug, PartialEq, Eq, Clone, Copy, Structural)]
pub struct TomlTime {
    /// The time's hour.
    pub hour: u8,
    /// The time's minute.
    pub minute: u8,
    /// The time's second.
    pub second: u8,
    /// The time's fractional second, in nanoseconds.
    pub nanosecond: u32,
}

/// A date and time value.
#[derive(Debug, PartialEq, Eq, Clone, Copy, Structural)]
pub struct TomlDateTime {
    /// The date.
    pub date: TomlDate,
    /// The time.
    pub time: TomlTime,
}

/// A date and time value, offset to a specific timezone.
#[derive(Debug, PartialEq, Eq, Clone, Copy, Structural)]
pub struct OffsetTomlDateTime {
    /// The offset.
    pub offset: TomlOffset,
    /// The date.
    pub date: TomlDate,
    /// The time.
    pub time: TomlTime,
}

} // verus!
