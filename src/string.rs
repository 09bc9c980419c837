//! Parses single-line and multi-line strings, decoding escapes.

use vstd::prelude::*;
use vstd::utf8::{
    encode_scalar, is_scalar, has_width_1_encoding, has_width_2_encoding, has_width_3_encoding,
    has_width_4_encoding, leading_byte_width_1, leading_byte_width_2, leading_byte_width_3,
    leading_byte_width_4, last_continuation_byte, second_last_continuation_byte,
    third_last_continuation_byte,
};

use crate::text::{Text, CowSpan, is_ws, skip_ws_from};
use crate::{TomlError, TomlErrorKind};

verus! {

/// What decoding a stretch of input gives: the decoded bytes and the index
/// just past the stretch, or the kind of error met.
pub type Decoded = Result<(Seq<u8>, int), TomlErrorKind>;

/// `b` put in front of the bytes that `d` decoded.
pub open spec fn prepend(b: Seq<u8>, d: Decoded) -> Decoded {
    match d {
        Ok((c, k)) => Ok((b + c, k)),
        Err(e) => Err(e),
    }
}

pub proof fn lemma_prepend_assoc(a: Seq<u8>, b: Seq<u8>, d: Decoded)
    ensures
        prepend(a, prepend(b, d)) == prepend(a + b, d),
{
    match d {
        Ok((c, k)) => {
            assert(a + (b + c) =~= (a + b) + c);
        },
        Err(_) => {},
    }
}

/// The value of a hexadecimal digit.
pub open spec fn hex_digit(b: u8) -> Option<u32> {
    if 0x30 <= b <= 0x39 {
        Some((b - 0x30) as u32)
    } else if 0x61 <= b <= 0x66 {
        Some((b - 0x61 + 10) as u32)
    } else if 0x41 <= b <= 0x46 {
        Some((b - 0x41 + 10) as u32)
    } else {
        None
    }
}

/// The `n` bytes from `i` on are all hexadecimal digits.
pub open spec fn all_hex(s: Seq<u8>, i: int, n: int) -> bool {
    0 <= i && i + n <= s.len() && forall|j: int| i <= j < i + n ==> (#[trigger] hex_digit(s[j])).is_some()
}

/// The number that the `n` hexadecimal digits from `i` on spell.
pub open spec fn hex_value(s: Seq<u8>, i: int, n: int) -> int
    decreases n,
{
    if n <= 0 {
        0
    } else {
        hex_value(s, i, n - 1) * 16 + hex_digit(s[i + n - 1]).unwrap() as int
    }
}

/// `16` to the power `n`.
pub open spec fn pow16(n: nat) -> int
    decreases n,
{
    if n == 0 {
        1
    } else {
        16 * pow16((n - 1) as nat)
    }
}

/// The decoding of a `\u` (four digits) or `\U` (eight digits) escape whose
/// backslash stands at `i`.
pub open spec fn unicode_escape(s: Seq<u8>, i: int, n: int) -> Decoded {
    if all_hex(s, i + 2, n) && hex_value(s, i + 2, n) <= u32::MAX && is_scalar(
        hex_value(s, i + 2, n) as u32,
    ) {
        Ok((encode_scalar(hex_value(s, i + 2, n) as u32), i + 2 + n))
    } else {
        Err(TomlErrorKind::UnknownUnicodeScalar)
    }
}

/// The byte that a one-letter escape stands for.
pub open spec fn simple_escape(b: u8) -> Option<u8> {
    if b == 0x62 {
        Some(0x08u8)
    } else if b == 0x74 {
        Some(0x09u8)
    } else if b == 0x6E {
        Some(0x0Au8)
    } else if b == 0x66 {
        Some(0x0Cu8)
    } else if b == 0x72 {
        Some(0x0Du8)
    } else if b == 0x22 {
        Some(0x22u8)
    } else if b == 0x5C {
        Some(0x5Cu8)
    } else {
        None
    }
}

/// The decoding of the escape whose backslash stands at `i`. In a multi-line
/// string a backslash before ASCII whitespace joins lines: it and the spaces,
/// tabs and newlines after it vanish.
pub open spec fn escape_spec(s: Seq<u8>, i: int, multi: bool) -> Decoded {
    if i + 1 >= s.len() {
        Err(TomlErrorKind::UnknownEscapeSequence)
    } else if simple_escape(s[i + 1]).is_some() {
        Ok((seq![simple_escape(s[i + 1]).unwrap()], i + 2))
    } else if s[i + 1] == 0x75 {
        unicode_escape(s, i, 4)
    } else if s[i + 1] == 0x55 {
        unicode_escape(s, i, 8)
    } else if multi && (is_ws(s[i + 1]) || s[i + 1] == 0x0C) {
        Ok((Seq::empty(), skip_ws_from(s, i + 1)))
    } else {
        Err(TomlErrorKind::UnknownEscapeSequence)
    }
}

/// Three `q` bytes start at `i`.
pub open spec fn is_triple(s: Seq<u8>, i: int, q: u8) -> bool {
    0 <= i && i + 3 <= s.len() && s[i] == q && s[i + 1] == q && s[i + 2] == q
}

/// The quotes that belong to a multi-line string's text when more than three
/// stand at its end (at most two).
pub open spec fn closing_extra(s: Seq<u8>, i: int, q: u8) -> Seq<u8> {
    if i + 3 < s.len() && s[i + 3] == q {
        if i + 4 < s.len() && s[i + 4] == q {
            seq![q, q]
        } else {
            seq![q]
        }
    } else {
        Seq::empty()
    }
}

/// Where a multi-line string's text starts when its opening triple stands at
/// `p`: a newline right after the triple is not part of it.
pub open spec fn ml_start(s: Seq<u8>, p: int) -> int {
    if p + 3 < s.len() && s[p + 3] == 0x0A {
        p + 4
    } else if p + 4 < s.len() && s[p + 3] == 0x0D && s[p + 4] == 0x0A {
        p + 5
    } else {
        p + 3
    }
}

/// The decoding of a basic string's text from `i` on, up to and including its
/// closing delimiter.
pub open spec fn basic_rest(s: Seq<u8>, i: int, multi: bool) -> Decoded
    decreases s.len() - i,
{
    if i < 0 || i >= s.len() {
        Err(TomlErrorKind::UnclosedBasicString)
    } else if multi && is_triple(s, i, 0x22) {
        Ok((closing_extra(s, i, 0x22), i + 3 + closing_extra(s, i, 0x22).len()))
    } else if !multi && s[i] == 0x22 {
        Ok((Seq::empty(), i + 1))
    } else if !multi && s[i] == 0x0A {
        Err(TomlErrorKind::UnclosedBasicString)
    } else if s[i] == 0x5C {
        match escape_spec(s, i, multi) {
            Ok((b, j)) => if i < j <= s.len() {
                prepend(b, basic_rest(s, j, multi))
            } else {
                Err(TomlErrorKind::UnknownEscapeSequence)
            },
            Err(e) => Err(e),
        }
    } else {
        prepend(seq![s[i]], basic_rest(s, i + 1, multi))
    }
}

/// The first index from `i` on that holds a `'` or a newline (or the end).
pub open spec fn literal_end(s: Seq<u8>, i: int) -> int
    decreases s.len() - i,
{
    if i < 0 || i >= s.len() || s[i] == 0x27 || s[i] == 0x0A {
        i
    } else {
        literal_end(s, i + 1)
    }
}

/// The first index from `i` on where three `q` start (or the end).
pub open spec fn triple_end(s: Seq<u8>, i: int, q: u8) -> int
    decreases s.len() - i,
{
    if i < 0 || i >= s.len() || is_triple(s, i, q) {
        i
    } else {
        triple_end(s, i + 1, q)
    }
}

/// A literal string whose opening quote stands at `p`.
pub open spec fn literal_spec(s: Seq<u8>, p: int) -> Decoded {
    let j = literal_end(s, p + 1);
    if j < s.len() && s[j] == 0x27 {
        Ok((s.subrange(p + 1, j), j + 1))
    } else {
        Err(TomlErrorKind::UnclosedLiteralString)
    }
}

/// A multi-line literal string whose opening triple stands at `p`.
pub open spec fn ml_literal_spec(s: Seq<u8>, p: int) -> Decoded {
    let st = ml_start(s, p);
    let j = triple_end(s, st, 0x27);
    if 0 <= j < s.len() {
        Ok((s.subrange(st, j) + closing_extra(s, j, 0x27), j + 3 + closing_extra(s, j, 0x27).len()))
    } else {
        Err(TomlErrorKind::UnclosedLiteralString)
    }
}

/// A string of any of the four kinds whose opening delimiter stands at `p`.
pub open spec fn string_spec(s: Seq<u8>, p: int) -> Decoded {
    if 0 <= p < s.len() && s[p] == 0x27 {
        if is_triple(s, p, 0x27) {
            ml_literal_spec(s, p)
        } else {
            literal_spec(s, p)
        }
    } else if is_triple(s, p, 0x22) {
        basic_rest(s, ml_start(s, p), true)
    } else {
        basic_rest(s, p + 1, false)
    }
}

/// What a string parser promises: on success the cursor stands past the
/// closing delimiter and the text is the decoding; on failure the error is
/// the one that the decoding meets.
pub open spec fn parsed_as<'a>(
    d: Decoded,
    r: Result<CowSpan<'a>, TomlError<'a>>,
    after: int,
) -> bool {
    match d {
        Ok((c, k)) => r matches Ok(cs) && cs.content() == c && cs.wf() && after == k,
        Err(e) => r is Err && r->Err_0.kind == e,
    }
}

/// The value of one hexadecimal digit.
fn hex_digit_exec(b: u8) -> (r: Option<u32>)
    ensures
        r == hex_digit(b),
{
    if 0x30 <= b && b <= 0x39 {
        Some((b - 0x30) as u32)
    } else if 0x61 <= b && b <= 0x66 {
        Some((b - 0x61 + 10) as u32)
    } else if 0x41 <= b && b <= 0x46 {
        Some((b - 0x41 + 10) as u32)
    } else {
        None
    }
}

/// Reads `n` hexadecimal digits that start `k` bytes after the cursor.
fn read_hex(text: &Text, k: usize, n: usize) -> (r: Option<u32>)
    requires
        text.wf(),
        1 <= n <= 8,
        k <= 2,
    ensures
        r.is_some() == all_hex(text.bytes(), text.pos() + k, n as int),
        r matches Some(v) ==> v as int == hex_value(text.bytes(), text.pos() + k, n as int),
{
    let ghost s = text.bytes();
    let ghost i0 = text.pos() + k;
    let mut acc: u32 = 0;
    let mut j: usize = 0;
    while j < n
        invariant
            j <= n <= 8,
            text.wf(),
            s == text.bytes(),
            i0 == text.pos() + k,
            0 <= i0,
            acc as int == hex_value(s, i0, j as int),
            (acc as int) < pow16(j as nat),
            k <= 2,
            j > 0 ==> i0 + j <= s.len(),
            forall|m: int| i0 <= m < i0 + j ==> (#[trigger] hex_digit(s[m])).is_some(),
        decreases n - j,
    {
        let kj = k + j;
        match text.byte_at(kj) {
            None => {
                return None;
            },
            Some(b) => match hex_digit_exec(b) {
                None => {
                    assert(!(hex_digit(s[i0 + j]).is_some()));
                    return None;
                },
                Some(d) => {
                    proof {
                        lemma_pow16_step(acc as int, d as int, j as nat);
                        lemma_pow16_bound(j as nat);
                    }
                    acc = acc * 16 + d;
                    j = j + 1;
                },
            },
        }
    }
    Some(acc)
}

proof fn lemma_pow16_step(acc: int, d: int, j: nat)
    requires
        0 <= acc < pow16(j),
        0 <= d < 16,
    ensures
        acc * 16 + d < pow16(j + 1),
{
    assert(pow16(j + 1) == 16 * pow16(j));
    assert(acc * 16 + d < 16 * pow16(j)) by (nonlinear_arith)
        requires
            acc < pow16(j),
            0 <= d < 16,
    ;
}

proof fn lemma_pow16_bound(j: nat)
    requires
        j < 8,
    ensures
        pow16(j + 1) <= 0x1_0000_0000,
    decreases j,
{
    reveal_with_fuel(pow16, 9);
    if j > 0 {
        lemma_pow16_bound((j - 1) as nat);
    }
}

/// Appends the UTF-8 encoding of the scalar `v`.
fn push_scalar(out: &mut Vec<u8>, v: u32)
    requires
        is_scalar(v),
    ensures
        final(out)@ == old(out)@ + encode_scalar(v),
{
    if v <= 0x7F {
        out.push((v & 0x7F) as u8);
        assert(encode_scalar(v) == seq![leading_byte_width_1(v)]);
    } else if v <= 0x7FF {
        out.push(0xC0 | ((v >> 6) & 0x1F) as u8);
        out.push(0x80 | (v & 0x3F) as u8);
        assert(encode_scalar(v) == seq![leading_byte_width_2(v), last_continuation_byte(v)]);
    } else if v <= 0xFFFF {
        out.push(0xE0 | ((v >> 12) & 0x0F) as u8);
        out.push(0x80 | ((v >> 6) & 0x3F) as u8);
        out.push(0x80 | (v & 0x3F) as u8);
        assert(encode_scalar(v) == seq![
            leading_byte_width_3(v),
            second_last_continuation_byte(v),
            last_continuation_byte(v),
        ]);
    } else {
        out.push(0xF0 | ((v >> 18) & 0x7) as u8);
        out.push(0x80 | ((v >> 12) & 0x3F) as u8);
        out.push(0x80 | ((v >> 6) & 0x3F) as u8);
        out.push(0x80 | (v & 0x3F) as u8);
        assert(encode_scalar(v) == seq![
            leading_byte_width_4(v),
            third_last_continuation_byte(v),
            second_last_continuation_byte(v),
            last_continuation_byte(v),
        ]);
    }
    assert(final(out)@ =~= old(out)@ + encode_scalar(v));
}

/// Whether `v` is a Unicode scalar value.
fn is_scalar_exec(v: u32) -> (r: bool)
    ensures
        r == is_scalar(v),
{
    v <= 0xD7FF || (0xE000 <= v && v <= 0x10FFFF)
}

/// Decodes the escape under the cursor (a backslash), appending what it stands
/// for to `string`.
pub fn string_escape<'a>(string: &mut Vec<u8>, text: &mut Text<'a>, multiline: bool) -> (r: Result<(), TomlError<'a>>)
    requires
        old(text).wf(),
        old(text).cur() == Some(0x5Cu8),
    ensures
        final(text).text == old(text).text,
        final(text).wf(),
        match escape_spec(old(text).bytes(), old(text).pos(), multiline) {
            Ok((b, j)) => r is Ok && final(string)@ == old(string)@ + b && final(text).pos() == j
                && old(text).pos() < j,
            Err(e) => r is Err && r->Err_0.kind == e,
        },
        r is Err ==> final(string)@ == old(string)@,
{
    let ghost s = text.bytes();
    let ghost i = text.pos();
    let start = text.idx();
    match text.next_byte() {
        None => Err(TomlError { src: text.excerpt_to_idx(start), kind: TomlErrorKind::UnknownEscapeSequence }),
        Some(byte) => {
            let simple: Option<u8> = if byte == 0x62 {
                Some(0x08u8)
            } else if byte == 0x74 {
                Some(0x09u8)
            } else if byte == 0x6E {
                Some(0x0Au8)
            } else if byte == 0x66 {
                Some(0x0Cu8)
            } else if byte == 0x72 {
                Some(0x0Du8)
            } else if byte == 0x22 {
                Some(0x22u8)
            } else if byte == 0x5C {
                Some(0x5Cu8)
            } else {
                None
            };
            if let Some(c) = simple {
                string.push(c);
                text.next_n(2);
                assert(final(string)@ =~= old(string)@ + seq![c]);
                return Ok(());
            }
            if byte == 0x75 || byte == 0x55 {
                let n: usize = if byte == 0x75 { 4 } else { 8 };
                match read_hex(text, 2, n) {
                    None => {
                        return Err(TomlError { src: text.excerpt_to_idx(start), kind: TomlErrorKind::UnknownUnicodeScalar });
                    },
                    Some(v) => {
                        if !is_scalar_exec(v) {
                            return Err(TomlError { src: text.excerpt_to_idx(start), kind: TomlErrorKind::UnknownUnicodeScalar });
                        }
                        push_scalar(string, v);
                        text.next_n(2 + n);
                        return Ok(());
                    },
                }
            }
            if multiline && (crate::text::is_ws_byte(byte) || byte == 0x0C) {
                text.next();
                proof {
                    crate::text::lemma_skip_ws_bounds(s, i + 1);
                }
                text.skip_whitespace_allow_comments();
                return Ok(());
            }
            Err(TomlError { src: text.excerpt_to_idx(start), kind: TomlErrorKind::UnknownEscapeSequence })
        },
    }
}

/// Whether three `q` bytes start at the cursor.
fn triple_at(text: &Text, q: u8) -> (r: bool)
    ensures
        r == is_triple(text.bytes(), text.pos(), q),
{
    text.current_byte() == Some(q) && text.byte_at(1) == Some(q) && text.byte_at(2) == Some(q)
}

/// Decodes a basic string's text from the cursor on, through its closing
/// delimiter.
#[verifier::rlimit(60)]
fn basic_body<'a>(text: &mut Text<'a>, multiline: bool, span_start: usize) -> (r: Result<CowSpan<'a>, TomlError<'a>>)
    requires
        old(text).wf(),
    ensures
        final(text).text == old(text).text,
        final(text).wf(),
        parsed_as(basic_rest(old(text).bytes(), old(text).pos(), multiline), r, final(text).pos()),
    r is Ok ==> final(text).pos() >= old(text).pos(),
    r is Ok && !multiline && old(text).pos() >= 1 && (forall|m: int|
        old(text).pos() <= m < final(text).pos() - 1 ==> old(text).bytes()[m] != 0x5C) ==> r->Ok_0 is Raw,
    r matches Ok(CowSpan::Raw(sp)) ==> sp.start == old(text).pos() && sp.source == old(text).text,
    r is Ok && (exists|m: int| old(text).pos() <= m < final(text).pos() - 1 && old(text).bytes()[m] == 0x5C)
        ==> r->Ok_0 is Modified,
        r is Err && r->Err_0.kind == TomlErrorKind::UnclosedBasicString ==> r->Err_0.src.start == span_start,
{
    let ghost s = text.bytes();
    let ghost first = text.pos();
    let first_idx = text.idx();
    let mut plain = true;
    let mut out: Vec<u8> = Vec::new();
    assert(prepend(out@, basic_rest(s, first, multiline)) == basic_rest(s, first, multiline)) by {
        match basic_rest(s, first, multiline) {
            Ok((c, k)) => {
                assert(Seq::<u8>::empty() + c =~= c);
            },
            Err(_) => {},
        }
    }
    loop
        invariant
            text.text == old(text).text,
            text.wf(),
            s == text.bytes(),
            s == old(text).bytes(),
            first == old(text).pos(),
            first <= text.pos(),
            first == first_idx,
            basic_rest(s, first, multiline) == prepend(out@, basic_rest(s, text.pos(), multiline)),
            plain ==> out@ == s.subrange(first, text.pos()),
            plain ==> forall|m: int| first <= m < text.pos() ==> s[m] != 0x5C,
            !plain ==> exists|m: int| first <= m < text.pos() && s[m] == 0x5C,
        decreases s.len() - text.pos(),
    {
        let ghost i = text.pos();
        let here = text.idx();
        match text.current_byte() {
            None => {
                assert(basic_rest(s, text.pos(), multiline) == Decoded::Err(TomlErrorKind::UnclosedBasicString));
                assert(basic_rest(s, first, multiline) == Decoded::Err(TomlErrorKind::UnclosedBasicString));
                return Err(TomlError { src: text.excerpt_before_idx(span_start), kind: TomlErrorKind::UnclosedBasicString });
            },
            Some(b) => {
                if multiline && triple_at(text, 0x22) {
                    let ghost before = out@;
                    text.next_n(3);
                    let mut end = here;
                    if text.current_byte() == Some(0x22u8) {
                        out.push(0x22u8);
                        text.next();
                        end = end + 1;
                        if text.current_byte() == Some(0x22u8) {
                            out.push(0x22u8);
                            text.next();
                            end = end + 1;
                        }
                    }
                    proof {
                        assert(out@ =~= before + closing_extra(s, i, 0x22));
                        assert(text.pos() == i + 3 + closing_extra(s, i, 0x22).len());
                        assert(basic_rest(s, i, multiline) == Decoded::Ok((closing_extra(s, i, 0x22), i + 3 + closing_extra(s, i, 0x22).len())));
                    }
                    let span = text.absolute_excerpt(span_start, end);
                    return Ok(CowSpan::Modified(span, out));
                } else if !multiline && b == 0x22 {
                    text.next();
                    proof {
                        assert(out@ + Seq::<u8>::empty() =~= out@);
                    }
                    if plain && here >= 1 {
                        return Ok(CowSpan::Raw(text.absolute_excerpt(first_idx, here - 1)));
                    }
                    let span = text.absolute_excerpt(span_start, here);
                    return Ok(CowSpan::Modified(span, out));
                } else if !multiline && b == 0x0A {
                    assert(basic_rest(s, i, multiline) == Decoded::Err(TomlErrorKind::UnclosedBasicString));
                    return Err(TomlError { src: text.excerpt_before_idx(span_start), kind: TomlErrorKind::UnclosedBasicString });
                } else if b == 0x5C {
                    plain = false;
                    let ghost before = out@;
                    match string_escape(&mut out, text, multiline) {
                        Err(e) => {
                            return Err(e);
                        },
                        Ok(()) => {
                            proof {
                                let eb = escape_spec(s, i, multiline).unwrap().0;
                                lemma_prepend_assoc(before, eb, basic_rest(s, text.pos(), multiline));
                            }
                        },
                    }
                } else {
                    let ghost before = out@;
                    out.push(b);
                    text.next();
                    proof {
                        if plain {
                            assert(s.subrange(first, text.pos()) =~= s.subrange(first, i) + seq![b]);
                        }
                        lemma_prepend_assoc(before, seq![b], basic_rest(s, text.pos(), multiline));
                        assert(before + seq![b] =~= out@);
                    }
                }
            },
        }
    }
}


/// Parses a single-line basic string (`"..."`), decoding its escapes.
pub fn parse_basic_string<'a>(text: &mut Text<'a>) -> (r: Result<CowSpan<'a>, TomlError<'a>>)
    requires
        old(text).wf(),
        old(text).cur() == Some(0x22u8),
    ensures
        final(text).text == old(text).text,
        final(text).wf(),
        parsed_as(basic_rest(old(text).bytes(), old(text).pos() + 1, false), r, final(text).pos()),
        r is Ok && (forall|m: int| old(text).pos() < m < final(text).pos() - 1 ==> old(text).bytes()[m] != 0x5C)
            ==> r->Ok_0 is Raw,
        r matches Ok(CowSpan::Raw(sp)) ==> sp.start == old(text).pos() + 1 && sp.source == old(text).text,
        r is Ok && (exists|m: int| old(text).pos() < m < final(text).pos() - 1 && old(text).bytes()[m] == 0x5C)
            ==> r->Ok_0 is Modified,
    r is Ok ==> final(text).pos() > old(text).pos(),
        r is Err && r->Err_0.kind == TomlErrorKind::UnclosedBasicString ==> r->Err_0.src.start == old(text).pos(),
{
    let start = text.idx();
    text.next();
    basic_body(text, false, start)
}

/// Parses a multi-line basic string (`"""..."""`), decoding its escapes and
/// dropping a newline right after the opening delimiter.
pub fn parse_multiline_basic_string<'a>(text: &mut Text<'a>) -> (r: Result<CowSpan<'a>, TomlError<'a>>)
    requires
        old(text).wf(),
        is_triple(old(text).bytes(), old(text).pos(), 0x22),
    ensures
        final(text).text == old(text).text,
        final(text).wf(),
        parsed_as(
            basic_rest(old(text).bytes(), ml_start(old(text).bytes(), old(text).pos()), true),
            r,
            final(text).pos(),
        ),
        r is Ok ==> final(text).pos() > old(text).pos(),
        r is Err && r->Err_0.kind == TomlErrorKind::UnclosedBasicString ==> r->Err_0.src.start == old(text).pos(),
{
    let start = text.idx();
    text.next_n(3);
    skip_leading_newline(text);
    basic_body(text, true, start)
}

/// Steps over a newline (LF or CRLF) under the cursor.
fn skip_leading_newline(text: &mut Text)
    requires
        old(text).wf(),
        old(text).pos() >= 3,
    ensures
        final(text).text == old(text).text,
        final(text).wf(),
        final(text).pos() == ml_start(old(text).bytes(), old(text).pos() - 3),
{
    if text.current_byte() == Some(0x0Au8) {
        text.next();
    } else if text.current_byte() == Some(0x0Du8) && text.next_byte() == Some(0x0Au8) {
        text.next_n(2);
    }
}

/// Parses a single-line literal string (`'...'`): its text is the input
/// between the quotes, with no escapes.
pub fn parse_literal_string<'a>(text: &mut Text<'a>) -> (r: Result<CowSpan<'a>, TomlError<'a>>)
    requires
        old(text).wf(),
        old(text).cur() == Some(0x27u8),
    ensures
        final(text).text == old(text).text,
        final(text).wf(),
        parsed_as(literal_spec(old(text).bytes(), old(text).pos()), r, final(text).pos()),
    r is Ok ==> final(text).pos() > old(text).pos(),
        r is Ok && final(text).pos() > old(text).pos() + 2 ==> r->Ok_0 is Raw,
        r is Err ==> r->Err_0.src.start == old(text).pos(),
{
    let ghost s = text.bytes();
    let quote = text.idx();
    text.next();
    let start = text.idx();
    while text.current_byte().is_some() && text.current_byte() != Some(0x27u8) && text.current_byte() != Some(0x0Au8)
        invariant
            text.text == old(text).text,
            text.wf(),
            s == text.bytes(),
            start <= text.pos(),
            literal_end(s, start as int) == literal_end(s, text.pos()),
        decreases s.len() - text.pos(),
    {
        text.next();
    }
    let end = text.idx();
    if text.current_byte() == Some(0x27u8) {
        text.next();
        if end == start {
            assert(s.subrange(start as int, end as int) =~= Seq::<u8>::empty());
            Ok(CowSpan::Modified(text.absolute_excerpt(quote, end), Vec::new()))
        } else {
            Ok(CowSpan::Raw(text.absolute_excerpt(start, end - 1)))
        }
    } else {
        Err(TomlError { src: text.excerpt_before_idx(quote), kind: TomlErrorKind::UnclosedLiteralString })
    }
}

/// Parses a multi-line literal string (`'''...'''`): its text is the
/// input between the delimiters, less a newline right after the opening one.
pub fn parse_multiline_literal_string<'a>(text: &mut Text<'a>) -> (r: Result<CowSpan<'a>, TomlError<'a>>)
    requires
        old(text).wf(),
        is_triple(old(text).bytes(), old(text).pos(), 0x27),
    ensures
        final(text).text == old(text).text,
        final(text).wf(),
        parsed_as(ml_literal_spec(old(text).bytes(), old(text).pos()), r, final(text).pos()),
        r is Ok ==> final(text).pos() > old(text).pos(),
        r is Err ==> r->Err_0.src.start == old(text).pos(),
{
    let ghost s = text.bytes();
    let quote = text.idx();
    text.next_n(3);
    skip_leading_newline(text);
    let start = text.idx();
    while text.current_byte().is_some() && !triple_at(text, 0x27)
        invariant
            text.text == old(text).text,
            text.wf(),
            s == text.bytes(),
            start <= text.pos(),
            triple_end(s, start as int, 0x27) == triple_end(s, text.pos(), 0x27),
        decreases s.len() - text.pos(),
    {
        text.next();
    }
    if text.current_byte().is_none() {
        return Err(TomlError { src: text.excerpt_before_idx(quote), kind: TomlErrorKind::UnclosedLiteralString });
    }
    let ghost j = text.pos();
    let mut end = text.idx();
    text.next_n(3);
    if text.current_byte() == Some(0x27u8) {
        text.next();
        end = end + 1;
        if text.current_byte() == Some(0x27u8) {
            text.next();
            end = end + 1;
        }
    }
    proof {
        let e = closing_extra(s, j, 0x27);
        assert(end == j + e.len());
        assert(s.subrange(start as int, end as int) =~= s.subrange(start as int, j) + e);
    }
    if end == start {
        assert(s.subrange(start as int, end as int) =~= Seq::<u8>::empty());
        Ok(CowSpan::Modified(text.absolute_excerpt(quote, end), Vec::new()))
    } else {
        Ok(CowSpan::Raw(text.absolute_excerpt(start, end - 1)))
    }
}

/// Parses a string of any of the four kinds under the cursor.
pub fn parse_string<'a>(text: &mut Text<'a>) -> (r: Result<CowSpan<'a>, TomlError<'a>>)
    requires
        old(text).wf(),
        old(text).cur() == Some(0x27u8) || old(text).cur() == Some(0x22u8),
    ensures
        final(text).text == old(text).text,
        final(text).wf(),
        parsed_as(string_spec(old(text).bytes(), old(text).pos()), r, final(text).pos()),
        r is Ok ==> final(text).pos() > old(text).pos(),
{
    if text.current_byte() == Some(0x27u8) {
        if triple_at(text, 0x27) {
            parse_multiline_literal_string(text)
        } else {
            parse_literal_string(text)
        }
    } else if triple_at(text, 0x22) {
        parse_multiline_basic_string(text)
    } else {
        parse_basic_string(text)
    }
}

} // verus!
