//! The cursor that walks the input, and spans of the input.

use vstd::prelude::*;
use vstd::utf8::valid_utf8;
use vstd::string::StringSliceAdditionalSpecFns;

verus! {

/// Whitespace that may separate tokens, newlines included.
pub open spec fn is_ws(b: u8) -> bool {
    b == 0x20u8 || b == 0x09u8 || b == 0x0Au8 || b == 0x0Du8
}

/// Index of the first byte at or after `i` that is not whitespace (or the end).
pub open spec fn skip_ws_from(s: Seq<u8>, i: int) -> int
    decreases s.len() - i,
{
    if i < 0 || i >= s.len() || !is_ws(s[i]) {
        i
    } else {
        skip_ws_from(s, i + 1)
    }
}

/// Whitespace within a line: a space or a tab.
pub open spec fn is_inline_ws(b: u8) -> bool {
    b == 0x20u8 || b == 0x09u8
}

/// Index of the first byte at or after `i` that is neither a space nor a tab
/// (or the end).
pub open spec fn skip_inline_from(s: Seq<u8>, i: int) -> int
    decreases s.len() - i,
{
    if i < 0 || i >= s.len() || !is_inline_ws(s[i]) {
        i
    } else {
        skip_inline_from(s, i + 1)
    }
}

pub proof fn lemma_skip_inline_bounds(s: Seq<u8>, i: int)
    requires
        0 <= i <= s.len(),
    ensures
        i <= skip_inline_from(s, i) <= s.len(),
    decreases s.len() - i,
{
    if i < s.len() && is_inline_ws(s[i]) {
        lemma_skip_inline_bounds(s, i + 1);
    }
}

/// Index of the first newline at or after `i` (or the end).
pub open spec fn line_end_from(s: Seq<u8>, i: int) -> int
    decreases s.len() - i,
{
    if i < 0 || i >= s.len() || s[i] == 0x0Au8 {
        i
    } else {
        line_end_from(s, i + 1)
    }
}

/// Index reached after skipping whitespace and `#` comments from `i`.
pub open spec fn skip_ws_comments_from(s: Seq<u8>, i: int) -> int
    decreases s.len() - i,
{
    let j = skip_ws_from(s, i);
    if i < 0 || i >= s.len() {
        i
    } else if 0 <= j < s.len() && s[j] == 0x23u8 {
        let k = line_end_from(s, j);
        if i < k <= s.len() {
            skip_ws_comments_from(s, k)
        } else {
            k
        }
    } else {
        j
    }
}

pub proof fn lemma_skip_ws_bounds(s: Seq<u8>, i: int)
    requires
        0 <= i <= s.len(),
    ensures
        i <= skip_ws_from(s, i) <= s.len(),
    decreases s.len() - i,
{
    if i < s.len() && is_ws(s[i]) {
        lemma_skip_ws_bounds(s, i + 1);
    }
}

pub proof fn lemma_line_end_bounds(s: Seq<u8>, i: int)
    requires
        0 <= i <= s.len(),
    ensures
        i <= line_end_from(s, i) <= s.len(),
    decreases s.len() - i,
{
    if i < s.len() && s[i] != 0x0Au8 {
        lemma_line_end_bounds(s, i + 1);
    }
}

pub proof fn lemma_skip_ws_comments_bounds(s: Seq<u8>, i: int)
    requires
        0 <= i <= s.len(),
    ensures
        i <= skip_ws_comments_from(s, i) <= s.len(),
    decreases s.len() - i,
{
    lemma_skip_ws_bounds(s, i);
    let j = skip_ws_from(s, i);
    if i < s.len() && 0 <= j < s.len() && s[j] == 0x23u8 {
        lemma_line_end_bounds(s, j);
        let k = line_end_from(s, j);
        if k > i {
            lemma_skip_ws_comments_bounds(s, k);
        }
    }
}

/// Relies on std::str::from_utf8: bytes that are valid UTF-8 come back as the
/// string slice holding exactly those bytes.
#[verifier::external_body]
pub(crate) fn str_of_bytes<'b>(b: &'b [u8]) -> (r: &'b str)
    ensures
        valid_utf8(b@) ==> r.spec_bytes() == b@,
{
    std::str::from_utf8(b).unwrap_or("")
}

/// A cursor over the text being parsed.
#[derive(Debug)]
pub struct Text<'a> {
    /// The text to be parsed.
    pub text: &'a str,
    /// The next byte that needs to be parsed.
    pub idx: usize,
}

impl<'a> Text<'a> {
    /// The bytes of the text.
    pub open spec fn bytes(&self) -> Seq<u8> {
        self.text.spec_bytes()
    }

    /// The cursor's position.
    pub open spec fn pos(&self) -> int {
        self.idx as int
    }

    /// The cursor stands inside the text or just past its end.
    pub open spec fn wf(&self) -> bool {
        0 <= self.pos() <= self.bytes().len()
    }

    /// The byte under the cursor, if any.
    pub open spec fn cur(&self) -> Option<u8> {
        if 0 <= self.pos() < self.bytes().len() {
            Some(self.bytes()[self.pos()])
        } else {
            None
        }
    }

    /// The byte `k` places after the cursor, if any.
    pub open spec fn at(&self, k: int) -> Option<u8> {
        if 0 <= self.pos() + k < self.bytes().len() {
            Some(self.bytes()[self.pos() + k])
        } else {
            None
        }
    }

    /// A cursor at the start of `text`.
    pub fn new(text: &'a str) -> (r: Self)
        ensures
            r.text == text,
            r.pos() == 0,
            r.wf(),
    {
        Text { text, idx: 0 }
    }

    /// The last valid index into the text (0 for an empty text).
    pub fn end(&self) -> (r: usize)
        ensures
            r == (if self.bytes().len() == 0 { 0 } else { self.bytes().len() - 1 }),
    {
        let n = self.text.as_bytes().len();
        if n == 0 {
            0
        } else {
            n - 1
        }
    }

    /// A span over `start..=end` of the whole text, the end clamped to the
    /// last byte.
    pub fn absolute_excerpt(&self, start: usize, end: usize) -> (r: Span<'a>)
        ensures
            r.source == self.text,
            r.start == start,
            r.end == (if self.bytes().len() == 0 { 0 } else if end < self.bytes().len() { end as int } else { self.bytes().len() - 1 }),
    {
        let last = self.end();
        Span { start, end: if end < last { end } else { last }, source: self.text }
    }

    /// A span over the `n` bytes that start at the cursor, clamped to the text.
    pub fn local_excerpt(&self, n: usize) -> (r: Span<'a>)
        requires
            self.wf(),
            n >= 1,
        ensures
            r.source == self.text,
            r.start == self.pos(),
            r.end == (if self.bytes().len() == 0 { 0 } else if self.pos() + n - 1 < self.bytes().len() { self.pos() + n - 1 } else { self.bytes().len() - 1 }),
    {
        let last = self.end();
        let end = if self.idx <= last && n - 1 <= last - self.idx {
            self.idx + (n - 1)
        } else {
            last
        };
        Span { start: self.idx, end, source: self.text }
    }

    /// A span from `start` up to and including the cursor, clamped to the text.
    pub fn excerpt_to_idx(&self, start: usize) -> (r: Span<'a>)
        requires
            self.wf(),
        ensures
            r.source == self.text,
            r.start == start,
            r.end == (if self.bytes().len() == 0 { 0 } else if self.pos() < self.bytes().len() { self.pos() } else { self.bytes().len() - 1 }),
    {
        self.absolute_excerpt(start, self.idx)
    }

    /// A span from `start` up to the byte before the cursor, clamped to the text.
    pub fn excerpt_before_idx(&self, start: usize) -> (r: Span<'a>)
        requires
            self.wf(),
        ensures
            r.source == self.text,
            r.start == start,
            r.end == (if self.bytes().len() == 0 || self.pos() == 0 { 0 } else { self.pos() - 1 }),
    {
        let end = if self.idx == 0 { 0 } else { self.idx - 1 };
        self.absolute_excerpt(start, end)
    }

    /// The byte under the cursor.
    pub fn current_byte(&self) -> (r: Option<u8>)
        ensures
            r == self.cur(),
    {
        let b = self.text.as_bytes();
        if self.idx < b.len() {
            Some(b[self.idx])
        } else {
            None
        }
    }

    /// The byte after the cursor; the cursor does not move.
    pub fn next_byte(&self) -> (r: Option<u8>)
        ensures
            r == self.at(1),
    {
        let b = self.text.as_bytes();
        if self.idx < b.len() && self.idx + 1 < b.len() {
            Some(b[self.idx + 1])
        } else {
            None
        }
    }

    /// The byte `k` places after the cursor; the cursor does not move.
    pub fn byte_at(&self, k: usize) -> (r: Option<u8>)
        ensures
            r == self.at(k as int),
    {
        let b = self.text.as_bytes();
        if self.idx < b.len() && k < b.len() - self.idx {
            Some(b[self.idx + k])
        } else {
            None
        }
    }

    /// Moves the cursor one byte ahead.
    pub fn next(&mut self)
        requires
            old(self).pos() < old(self).bytes().len(),
        ensures
            final(self).text == old(self).text,
            final(self).pos() == old(self).pos() + 1,
    {
        let _n = self.text.as_bytes().len();
        self.idx = self.idx + 1;
    }

    /// Moves the cursor `n` bytes ahead.
    pub fn next_n(&mut self, n: usize)
        requires
            old(self).pos() + n <= old(self).bytes().len(),
        ensures
            final(self).text == old(self).text,
            final(self).pos() == old(self).pos() + n,
    {
        let _len = self.text.as_bytes().len();
        self.idx = self.idx + n;
    }

    /// The index of the cursor.
    pub fn idx(&self) -> (r: usize)
        ensures
            r == self.pos(),
    {
        self.idx
    }

    /// The number of bytes after the one under the cursor.
    pub fn remaining_bytes(&self) -> (r: usize)
        ensures
            r == (if self.pos() >= self.bytes().len() { 0 } else { self.bytes().len() - self.pos() - 1 }),
    {
        let n = self.text.as_bytes().len();
        if self.idx >= n {
            0
        } else {
            n - self.idx - 1
        }
    }

    /// Skips ASCII whitespace and newlines, and `#` comments up to the end of
    /// their line.
    pub fn skip_whitespace(&mut self)
        requires
            old(self).wf(),
        ensures
            final(self).text == old(self).text,
            final(self).pos() == skip_ws_comments_from(old(self).bytes(), old(self).pos()),
            final(self).wf(),
    {
        loop
            invariant
                self.text == old(self).text,
                self.wf(),
                old(self).pos() <= self.pos(),
                skip_ws_comments_from(self.bytes(), self.pos()) == skip_ws_comments_from(old(self).bytes(), old(self).pos()),
            decreases self.bytes().len() - self.pos(),
        {
            let p = self.idx;
            proof {
                lemma_skip_ws_bounds(self.bytes(), self.pos());
            }
            self.skip_whitespace_allow_comments();
            if self.current_byte() == Some(0x23u8) {
                let ghost j = self.pos();
                proof {
                    lemma_line_end_bounds(self.bytes(), j + 1);
                }
                self.skip_current_line();
                assert(self.pos() > p);
            } else {
                return;
            }
        }
    }

    /// Skips spaces and tabs; newlines stay.
    pub fn skip_inline_whitespace(&mut self)
        requires
            old(self).wf(),
        ensures
            final(self).text == old(self).text,
            final(self).pos() == skip_inline_from(old(self).bytes(), old(self).pos()),
            final(self).wf(),
    {
        while self.idx < self.text.as_bytes().len() && (self.text.as_bytes()[self.idx] == 0x20u8 || self.text.as_bytes()[self.idx] == 0x09u8)
            invariant
                self.text == old(self).text,
                self.wf(),
                skip_inline_from(self.bytes(), self.pos()) == skip_inline_from(old(self).bytes(), old(self).pos()),
            decreases self.bytes().len() - self.pos(),
        {
            self.idx = self.idx + 1;
        }
    }

    /// Skips ASCII whitespace and newlines, but not comments.
    pub fn skip_whitespace_allow_comments(&mut self)
        requires
            old(self).wf(),
        ensures
            final(self).text == old(self).text,
            final(self).pos() == skip_ws_from(old(self).bytes(), old(self).pos()),
            final(self).wf(),
    {
        while self.idx < self.text.as_bytes().len() && is_ws_byte(self.text.as_bytes()[self.idx])
            invariant
                self.text == old(self).text,
                self.wf(),
                skip_ws_from(self.bytes(), self.pos()) == skip_ws_from(old(self).bytes(), old(self).pos()),
            decreases self.bytes().len() - self.pos(),
        {
            self.idx = self.idx + 1;
        }
    }

    /// Moves the cursor to the next newline, or to the end of the text.
    pub fn skip_current_line(&mut self)
        requires
            old(self).wf(),
        ensures
            final(self).text == old(self).text,
            final(self).pos() == line_end_from(old(self).bytes(), old(self).pos()),
            final(self).wf(),
    {
        while self.idx < self.text.as_bytes().len() && self.text.as_bytes()[self.idx] != 0x0Au8
            invariant
                self.text == old(self).text,
                self.wf(),
                line_end_from(self.bytes(), self.pos()) == line_end_from(old(self).bytes(), old(self).pos()),
            decreases self.bytes().len() - self.pos(),
        {
            self.idx = self.idx + 1;
        }
    }
}

/// Whether `b` is whitespace that may separate tokens.
pub fn is_ws_byte(b: u8) -> (r: bool)
    ensures
        r == is_ws(b),
{
    b == 0x20u8 || b == 0x09u8 || b == 0x0Au8 || b == 0x0Du8
}

/// A region `start..=end` of a text.
#[derive(Debug, Clone, Copy)]
pub struct Span<'a> {
    /// Inclusive start of this span of text.
    pub start: usize,
    /// Inclusive end of this span of text.
    pub end: usize,
    /// The full text that this span is an excerpt of.
    pub source: &'a str,
}

impl<'a> Span<'a> {
    /// The span lies within its source.
    pub open spec fn wf(&self) -> bool {
        self.start <= self.end < self.source.spec_bytes().len()
    }

    /// The span covers bytes of its source, or none at all (`start` just
    /// past `end`).
    pub open spec fn within(&self) -> bool {
        self.start <= self.end + 1 && self.end < self.source.spec_bytes().len()
    }

    /// The bytes that the span covers.
    pub open spec fn bytes(&self) -> Seq<u8> {
        self.source.spec_bytes().subrange(self.start as int, self.end + 1)
    }

    /// The number of bytes in the span.
    pub fn len(&self) -> (r: usize)
        requires
            self.start <= self.end + 1,
            self.end + 1 - self.start <= usize::MAX,
        ensures
            r == self.end + 1 - self.start,
    {
        if self.start > self.end {
            0
        } else {
            (self.end - self.start) + 1
        }
    }

    /// Whether the span covers no byte (`start` just past `end`).
    pub fn is_empty(&self) -> (r: bool)
        requires
            self.start <= self.end + 1,
            self.end + 1 - self.start <= usize::MAX,
        ensures
            r == (self.start == self.end + 1),
    {
        self.len() == 0
    }

    /// The text that the span covers (empty when `start` is just past `end`),
    /// or `None` if it reaches past the source.
    pub fn try_as_str(&self) -> (r: Option<&'a str>)
        ensures
            r.is_some() == self.within(),
            r matches Some(s) ==> (self.wf() && valid_utf8(self.bytes()) ==> s.spec_bytes() == self.bytes()),
            r matches Some(s) ==> (self.start == self.end + 1 ==> s@.len() == 0),
    {
        let n = self.source.as_bytes().len();
        if self.start <= self.end && self.end < n {
            Some(self.as_str())
        } else if self.end < n && self.start == self.end + 1 {
            proof {
                reveal_strlit("");
            }
            Some("")
        } else {
            None
        }
    }

    /// The bytes that the span covers.
    pub fn as_bytes(&self) -> (r: &'a [u8])
        requires
            self.wf(),
        ensures
            r@ == self.bytes(),
    {
        let b = self.source.as_bytes();
        let _n = b.len();
        vstd::slice::slice_subrange(b, self.start, self.end + 1)
    }

    /// The text that the span covers.
    pub fn as_str(&self) -> (r: &'a str)
        requires
            self.wf(),
        ensures
            valid_utf8(self.bytes()) ==> r.spec_bytes() == self.bytes(),
    {
        let b = self.source.as_bytes();
        let _n = b.len();
        let sub = vstd::slice::slice_subrange(b, self.start, self.end + 1);
        str_of_bytes(sub)
    }
}

/// A key segment: either a stretch of the input, or text decoded from it.
#[derive(Debug)]
pub enum CowSpan<'a> {
    /// The key's text is the span itself.
    Raw(Span<'a>),
    /// The key's text was decoded from the span.
    Modified(Span<'a>, Vec<u8>),
}

impl<'a> CowSpan<'a> {
    /// The key's text, as bytes.
    pub open spec fn content(&self) -> Seq<u8> {
        match self {
            CowSpan::Raw(s) => if s.wf() { s.bytes() } else { Seq::empty() },
            CowSpan::Modified(_, v) => v@,
        }
    }

    /// The span of input that the key came from.
    pub open spec fn source_span(&self) -> Span<'a> {
        match self {
            CowSpan::Raw(s) => *s,
            CowSpan::Modified(s, _) => *s,
        }
    }

    /// A raw key's span lies within its source.
    pub open spec fn wf(&self) -> bool {
        match self {
            CowSpan::Raw(s) => s.within(),
            CowSpan::Modified(_, _) => true,
        }
    }

    /// The key's text.
    pub fn as_str(&self) -> (r: &str)
        ensures
            self.wf() && valid_utf8(self.content()) ==> r.spec_bytes() == self.content(),
    {
        match self {
            CowSpan::Raw(raw) => match raw.try_as_str() {
                Some(t) => {
                    proof {
                        if !raw.wf() {
                            assert(t.spec_bytes() =~= Seq::<u8>::empty());
                        }
                    }
                    t
                },
                None => "",
            },
            CowSpan::Modified(_, modified) => str_of_bytes(modified.as_slice()),
        }
    }

    /// The key's text, as bytes.
    pub fn as_bytes(&self) -> (r: &[u8])
        ensures
            r@ == self.content(),
    {
        match self {
            CowSpan::Raw(raw) => {
                let b = raw.source.as_bytes();
                if raw.start <= raw.end && raw.end < b.len() {
                    vstd::slice::slice_subrange(b, raw.start, raw.end + 1)
                } else {
                    &[]
                }
            },
            CowSpan::Modified(_, modified) => modified.as_slice(),
        }
    }

    /// The span of input that the key came from.
    pub fn span(&self) -> (r: &Span<'a>)
        ensures
            *r == self.source_span(),
    {
        match self {
            CowSpan::Raw(span) => span,
            CowSpan::Modified(span, _) => span,
        }
    }
}

impl<'a> PartialEq for CowSpan<'a> {
    /// Keys compare by their decoded text, whichever way they are held.
    fn eq(&self, other: &CowSpan<'a>) -> (r: bool) {
        crate::table::bytes_eq(self.as_bytes(), other.as_bytes())
    }
}

impl<'a> vstd::std_specs::cmp::PartialEqSpecImpl for CowSpan<'a> {
    open spec fn obeys_eq_spec() -> bool {
        true
    }

    open spec fn eq_spec(&self, o: &CowSpan<'a>) -> bool {
        self.content() == o.content()
    }
}

impl<'a> Eq for CowSpan<'a> {
}

/// Relies on std's `Hash` for slices, which feeds the elements to the hasher;
/// nothing is claimed of the hasher's state afterwards.
pub assume_specification<Elem, Hs>[ <[Elem] as std::hash::Hash>::hash::<Hs> ](data: &[Elem], state: &mut Hs)
    where
        Elem: std::hash::Hash,
        Hs: std::hash::Hasher,
;

impl<'a> core::hash::Hash for CowSpan<'a> {
    /// Keys hash by their decoded text, so that equal keys hash alike.
    fn hash<H: core::hash::Hasher>(&self, state: &mut H) {
        self.as_bytes().hash(state)
    }
}

} // verus!
