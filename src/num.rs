//! Parses integers (in four bases), floats, and the numbers that begin dates
//! and times.

use vstd::prelude::*;

use crate::text::{Text, is_ws};
use crate::time::{is_digit, digit_run_end, date_spec, time_spec, parse_date, parse_time};
use crate::types::{TomlFloat, TomlValue};
use crate::{TomlError, TomlErrorKind};

verus! {

/// What a number literal stands for, before it becomes a value: an integer,
/// a float (its literal without underscores), or a date or time value.
pub enum Num<'a> {
    /// An integer.
    Int(int),
    /// A float, as its literal.
    Float(Seq<u8>),
    /// A date, time, date-time or offset date-time.
    Moment(TomlValue<'a>),
}

/// A byte that ends an integer token.
pub open spec fn ends_int(b: u8) -> bool {
    is_ws(b) || b == 0x0C || b == 0x2C || b == 0x2E || b == 0x5D || b == 0x7D || b == 0x23
}

/// A byte that ends a float token.
pub open spec fn ends_float(b: u8) -> bool {
    is_ws(b) || b == 0x0C || b == 0x2C || b == 0x5D || b == 0x7D || b == 0x23
}

/// The value of a digit in bases up to 16.
pub open spec fn digit_val(b: u8) -> int {
    if 0x30 <= b <= 0x39 {
        b - 0x30
    } else if 0x61 <= b <= 0x66 {
        b - 0x61 + 10
    } else if 0x41 <= b <= 0x46 {
        b - 0x41 + 10
    } else {
        16
    }
}

/// A digit of the given base.
pub open spec fn is_base_digit(b: u8, base: int) -> bool {
    digit_val(b) < base
}

/// The first index from `i` on that holds neither a digit of the base nor `_`.
pub open spec fn run_end(s: Seq<u8>, i: int, base: int) -> int
    decreases s.len() - i,
{
    if i < 0 || i >= s.len() || !(is_base_digit(s[i], base) || s[i] == 0x5F) {
        i
    } else {
        run_end(s, i + 1, base)
    }
}

/// The number that the digits in `s[i..j]` spell in the base, underscores
/// left out.
pub open spec fn run_value(s: Seq<u8>, i: int, j: int, base: int) -> int
    decreases j - i,
{
    if j <= i {
        0
    } else if s[j - 1] == 0x5F {
        run_value(s, i, j - 1, base)
    } else {
        run_value(s, i, j - 1, base) * base + digit_val(s[j - 1])
    }
}

/// `v`, negated if asked, as an integer when it fits in 64 bits.
pub open spec fn int_range<'a>(negative: bool, v: int, e: int) -> Result<(Num<'a>, int), TomlErrorKind> {
    let sv = if negative { -v } else { v };
    if i64::MIN <= sv <= i64::MAX {
        Ok((Num::Int(sv), e))
    } else {
        Err(TomlErrorKind::NumberTooLarge)
    }
}

/// The bytes of `x` with every `_` left out.
pub open spec fn strip_us(x: Seq<u8>) -> Seq<u8>
    decreases x.len(),
{
    if x.len() == 0 {
        x
    } else if x.last() == 0x5F {
        strip_us(x.drop_last())
    } else {
        strip_us(x.drop_last()).push(x.last())
    }
}

/// The first index from `i` on that ends a float token (or the end).
pub open spec fn float_end(s: Seq<u8>, i: int) -> int
    decreases s.len() - i,
{
    if i < 0 || i >= s.len() || ends_float(s[i]) {
        i
    } else {
        float_end(s, i + 1)
    }
}

/// A float literal without sign or underscores: digits, then a fraction
/// (`.` and digits) and/or an exponent (`e` or `E`, a sign, digits).
pub open spec fn valid_float(t: Seq<u8>) -> bool {
    let a = digit_run_end(t, 0);
    let b = if a < t.len() && t[a] == 0x2E { digit_run_end(t, a + 1) } else { a };
    let c0 = if b < t.len() && (t[b] == 0x65 || t[b] == 0x45) {
        if b + 1 < t.len() && (t[b + 1] == 0x2B || t[b + 1] == 0x2D) {
            b + 2
        } else {
            b + 1
        }
    } else {
        b
    };
    let c = if c0 > b { digit_run_end(t, c0) } else { b };
    &&& a > 0
    &&& (b == a || b > a + 1)
    &&& (c0 == b || c > c0)
    &&& c == t.len()
    &&& (b > a || c > b)
}

/// The float whose token starts at `p`.
pub open spec fn float_spec<'a>(s: Seq<u8>, p: int) -> Result<(Num<'a>, int), TomlErrorKind> {
    let e = float_end(s, p);
    if valid_float(strip_us(s.subrange(p, e))) {
        Ok((Num::Float(strip_us(s.subrange(p, e))), e))
    } else {
        Err(TomlErrorKind::InvalidNumber)
    }
}

/// The three bytes at `p` are `a`, `b`, `c`.
pub open spec fn is_word3(s: Seq<u8>, p: int, a: u8, b: u8, c: u8) -> bool {
    0 <= p && p + 3 <= s.len() && s[p] == a && s[p + 1] == b && s[p + 2] == c
}

/// An integer written in base 16, 8 or 2, whose digits start at `i`.
pub open spec fn based_spec<'a>(s: Seq<u8>, i: int, base: int, negative: bool) -> Result<(Num<'a>, int), TomlErrorKind> {
    let e = run_end(s, i, base);
    if e < s.len() && is_base_digit(s[e], 16) {
        Err(TomlErrorKind::NumberHasInvalidBase)
    } else if e == i {
        Err(TomlErrorKind::InvalidNumber)
    } else if e < s.len() && !ends_int(s[e]) {
        Err(TomlErrorKind::InvalidNumber)
    } else {
        int_range(negative, run_value(s, i, e, base), e)
    }
}

/// The digits from `p` to `e` are all decimal digits (no underscore).
pub open spec fn plain_digits(s: Seq<u8>, p: int, e: int) -> bool {
    forall|j: int| p <= j < e ==> is_digit(#[trigger] s[j])
}

/// A number literal (sign already read) whose first byte stands at `p`.
pub open spec fn number_spec<'a>(s: Seq<u8>, p: int, negative: bool) -> Result<(Num<'a>, int), TomlErrorKind> {
    if is_word3(s, p, 0x69, 0x6E, 0x66) {
        Ok((Num::Float(seq![0x69u8, 0x6Eu8, 0x66u8]), p + 3))
    } else if is_word3(s, p, 0x6E, 0x61, 0x6E) {
        Ok((Num::Float(seq![0x6Eu8, 0x61u8, 0x6Eu8]), p + 3))
    } else if 0 <= p && p + 1 < s.len() && s[p] == 0x30 && s[p + 1] == 0x78 {
        based_spec(s, p + 2, 16, negative)
    } else if 0 <= p && p + 1 < s.len() && s[p] == 0x30 && s[p + 1] == 0x6F {
        based_spec(s, p + 2, 8, negative)
    } else if 0 <= p && p + 1 < s.len() && s[p] == 0x30 && s[p + 1] == 0x62 {
        based_spec(s, p + 2, 2, negative)
    } else {
        let e = run_end(s, p, 10);
        let leading_zero = s[p] == 0x30 && e > p + 1;
        if e == p {
            Err(TomlErrorKind::InvalidNumber)
        } else if e < s.len() && (s[e] == 0x2E || s[e] == 0x65 || s[e] == 0x45) {
            if leading_zero {
                Err(TomlErrorKind::NumberHasLeadingZero)
            } else {
                float_spec(s, p)
            }
        } else if e < s.len() && s[e] == 0x2D {
            if e - p == 4 && plain_digits(s, p, e) {
                match date_spec(s, e, run_value(s, p, e, 10) as u16) {
                    Ok((v, k)) => Ok((Num::Moment(v), k)),
                    Err(k) => Err(k),
                }
            } else {
                Err(TomlErrorKind::DateTimeTooManyDigits)
            }
        } else if e < s.len() && s[e] == 0x3A {
            if e - p == 2 && plain_digits(s, p, e) {
                match time_spec(s, e, run_value(s, p, e, 10) as u8) {
                    Ok((t, k)) => Ok((Num::Moment(TomlValue::Time(t)), k)),
                    Err(k) => Err(k),
                }
            } else {
                Err(TomlErrorKind::DateTimeTooManyDigits)
            }
        } else if e < s.len() && !ends_int(s[e]) {
            Err(TomlErrorKind::InvalidNumber)
        } else if leading_zero {
            Err(TomlErrorKind::NumberHasLeadingZero)
        } else {
            int_range(negative, run_value(s, p, e, 10), e)
        }
    }
}

/// What a number parser promises, given what the literal stands for.
pub open spec fn num_parsed_as<'a>(
    d: Result<(Num<'a>, int), TomlErrorKind>,
    negative: bool,
    r: Result<TomlValue<'a>, TomlError<'a>>,
    after: int,
) -> bool {
    match d {
        Ok((Num::Int(v), e)) => r matches Ok(TomlValue::Integer(x)) && x as int == v && after == e,
        Ok((Num::Float(t), e)) => r matches Ok(TomlValue::Float(f)) && f.negative == negative
            && f.literal@ == t && after == e,
        Ok((Num::Moment(v), e)) => r matches Ok(x) && x == v && after == e,
        Err(k) => r is Err && r->Err_0.kind == k,
    }
}

pub proof fn lemma_run_end_bounds(s: Seq<u8>, i: int, base: int)
    requires
        0 <= i <= s.len(),
    ensures
        i <= run_end(s, i, base) <= s.len(),
        forall|j: int| i <= j < run_end(s, i, base) ==> is_base_digit(#[trigger] s[j], base) || s[j] == 0x5F,
    decreases s.len() - i,
{
    if i < s.len() && (is_base_digit(s[i], base) || s[i] == 0x5F) {
        lemma_run_end_bounds(s, i + 1, base);
    }
}

proof fn lemma_run_value_mono(s: Seq<u8>, i: int, j: int, k: int, base: int)
    requires
        i <= j <= k,
        base >= 2,
        forall|m: int| i <= m < k ==> is_base_digit(#[trigger] s[m], base) || s[m] == 0x5F,
    ensures
        0 <= run_value(s, i, j, base) <= run_value(s, i, k, base),
    decreases k - i,
{
    if k > j {
        lemma_run_value_mono(s, i, j, k - 1, base);
        lemma_run_value_nonneg(s, i, k - 1, base);
        if s[k - 1] != 0x5F {
            assert(run_value(s, i, k - 1, base) * base >= run_value(s, i, k - 1, base)) by (nonlinear_arith)
                requires
                    run_value(s, i, k - 1, base) >= 0,
                    base >= 2,
            ;
        }
    } else {
        lemma_run_value_nonneg(s, i, j, base);
    }
}

proof fn lemma_run_value_nonneg(s: Seq<u8>, i: int, j: int, base: int)
    requires
        base >= 2,
        forall|m: int| i <= m < j ==> is_base_digit(#[trigger] s[m], base) || s[m] == 0x5F,
    ensures
        run_value(s, i, j, base) >= 0,
    decreases j - i,
{
    if j > i {
        lemma_run_value_nonneg(s, i, j - 1, base);
        assert(run_value(s, i, j - 1, base) * base >= 0) by (nonlinear_arith)
            requires
                run_value(s, i, j - 1, base) >= 0,
                base >= 2,
        ;
    }
}

/// The value of a digit in bases up to 16 (16 for other bytes).
fn digit_val_exec(b: u8) -> (r: u64)
    ensures
        r as int == digit_val(b),
{
    if 0x30 <= b && b <= 0x39 {
        (b - 0x30) as u64
    } else if 0x61 <= b && b <= 0x66 {
        (b - 0x61 + 10) as u64
    } else if 0x41 <= b && b <= 0x46 {
        (b - 0x41 + 10) as u64
    } else {
        16
    }
}

/// Whether `b` ends an integer token.
pub fn is_end_of_int(b: u8) -> (r: bool)
    ensures
        r == ends_int(b),
{
    crate::text::is_ws_byte(b) || b == 0x0C || b == 0x2C || b == 0x2E || b == 0x5D || b == 0x7D || b == 0x23
}

/// Whether `b` ends a float token.
pub fn is_end_of_float(b: u8) -> (r: bool)
    ensures
        r == ends_float(b),
{
    crate::text::is_ws_byte(b) || b == 0x0C || b == 0x2C || b == 0x5D || b == 0x7D || b == 0x23
}

/// Moves the cursor over digits of the base and underscores.
fn skip_run(text: &mut Text, base: u64)
    requires
        old(text).wf(),
        2 <= base <= 16,
    ensures
        final(text).text == old(text).text,
        final(text).wf(),
        final(text).pos() == run_end(old(text).bytes(), old(text).pos(), base as int),
{
    while text.current_byte().is_some() && (digit_val_exec(text.current_byte().unwrap()) < base
        || text.current_byte().unwrap() == 0x5F)
        invariant
            text.text == old(text).text,
            text.wf(),
            run_end(text.bytes(), text.pos(), base as int) == run_end(old(text).bytes(), old(text).pos(), base as int),
        decreases text.bytes().len() - text.pos(),
    {
        text.next();
    }
}

/// The value of the digits in `from..to` of the text, in the base, as an
/// integer that fits in 64 bits (negated if asked), or `None` when it does
/// not fit.
fn run_to_int(text: &Text, from: usize, to: usize, base: u64, negative: bool) -> (r: Option<i64>)
    requires
        text.wf(),
        2 <= base <= 16,
        from <= to <= text.bytes().len(),
        forall|m: int| from <= m < to ==> is_base_digit(#[trigger] text.bytes()[m], base as int) || text.bytes()[m] == 0x5F,
    ensures
        ({
            let v = run_value(text.bytes(), from as int, to as int, base as int);
            let sv = if negative { -v } else { v };
            match r {
                Some(x) => i64::MIN <= sv <= i64::MAX && x as int == sv,
                None => !(i64::MIN <= sv <= i64::MAX),
            }
        }),
{
    let ghost s = text.bytes();
    let b = text.text.as_bytes();
    let limit: u64 = 0x8000_0000_0000_0000;
    let mut mag: u64 = 0;
    let mut j: usize = from;
    while j < to
        invariant
            from <= j <= to <= s.len(),
            b@ == s,
            s == text.bytes(),
            2 <= base <= 16,
            forall|m: int| from <= m < to ==> is_base_digit(#[trigger] s[m], base as int) || s[m] == 0x5F,
            mag as int == run_value(s, from as int, j as int, base as int),
            limit == 0x8000_0000_0000_0000u64,
            mag <= limit,
        decreases to - j,
    {
        let c = b[j];
        if c != 0x5F {
            let d = digit_val_exec(c);
            assert(is_base_digit(s[j as int], base as int));
            let q = (limit - d) / base;
            if mag > q {
                proof {
                    let (mi, bi, di, qi, li) = (mag as int, base as int, d as int, q as int, limit as int);
                    assert(mi * bi + di > li) by (nonlinear_arith)
                        requires
                            mi > qi,
                            qi == (li - di) / bi,
                            bi >= 2,
                            0 <= di < bi,
                            li >= di,
                    ;
                    lemma_run_value_mono(s, from as int, j + 1, to as int, base as int);
                    assert(run_value(s, from as int, j + 1, base as int) == mi * bi + di);
                }
                return None;
            }
            proof {
                let (mi, bi, di, qi, li) = (mag as int, base as int, d as int, q as int, limit as int);
                assert(mi * bi + di <= li) by (nonlinear_arith)
                    requires
                        mi <= qi,
                        qi == (li - di) / bi,
                        bi >= 2,
                        0 <= di < bi,
                        li >= di,
                ;
            }
            mag = mag * base + d;
        }
        j = j + 1;
    }
    if negative {
        if mag == limit {
            Some(i64::MIN)
        } else {
            Some(-(mag as i64))
        }
    } else if mag == limit {
        None
    } else {
        Some(mag as i64)
    }
}

/// Parses an integer in base 16, 8 or 2 whose digits start at the cursor.
fn parse_int_with_base<'a>(text: &mut Text<'a>, base: u64, negative: bool, start: usize) -> (r: Result<i64, TomlError<'a>>)
    requires
        old(text).wf(),
        base == 16 || base == 8 || base == 2,
    ensures
        final(text).text == old(text).text,
        final(text).wf(),
        match based_spec(old(text).bytes(), old(text).pos(), base as int, negative) {
            Ok((Num::Int(v), e)) => r matches Ok(x) && x as int == v && final(text).pos() == e,
            Ok(_) => false,
            Err(k) => r is Err && r->Err_0.kind == k,
        },
        r is Ok ==> final(text).pos() > old(text).pos(),
{
    let ghost s = text.bytes();
    let from = text.idx();
    proof {
        lemma_run_end_bounds(s, from as int, base as int);
    }
    skip_run(text, base);
    let to = text.idx();
    if let Some(c) = text.current_byte() {
        if digit_val_exec(c) < 16 {
            return Err(TomlError { src: text.excerpt_to_idx(start), kind: TomlErrorKind::NumberHasInvalidBase });
        }
    }
    if to == from {
        return Err(TomlError { src: text.excerpt_to_idx(start), kind: TomlErrorKind::InvalidNumber });
    }
    if let Some(c) = text.current_byte() {
        if !is_end_of_int(c) {
            return Err(TomlError { src: text.excerpt_to_idx(start), kind: TomlErrorKind::InvalidNumber });
        }
    }
    match run_to_int(text, from, to, base, negative) {
        Some(x) => Ok(x),
        None => Err(TomlError { src: text.excerpt_before_idx(start), kind: TomlErrorKind::NumberTooLarge }),
    }
}

/// An integer in base 16 (after `0x`).
fn parse_hex_int<'a>(text: &mut Text<'a>, negative: bool, start: usize) -> (r: Result<i64, TomlError<'a>>)
    requires
        old(text).wf(),
    ensures
        final(text).text == old(text).text,
        final(text).wf(),
        match based_spec(old(text).bytes(), old(text).pos(), 16, negative) {
            Ok((Num::Int(v), e)) => r matches Ok(x) && x as int == v && final(text).pos() == e,
            Ok(_) => false,
            Err(k) => r is Err && r->Err_0.kind == k,
        },
        r is Ok ==> final(text).pos() > old(text).pos(),
{
    parse_int_with_base(text, 16, negative, start)
}

/// An integer in base 8 (after `0o`).
fn parse_oct_int<'a>(text: &mut Text<'a>, negative: bool, start: usize) -> (r: Result<i64, TomlError<'a>>)
    requires
        old(text).wf(),
    ensures
        final(text).text == old(text).text,
        final(text).wf(),
        match based_spec(old(text).bytes(), old(text).pos(), 8, negative) {
            Ok((Num::Int(v), e)) => r matches Ok(x) && x as int == v && final(text).pos() == e,
            Ok(_) => false,
            Err(k) => r is Err && r->Err_0.kind == k,
        },
        r is Ok ==> final(text).pos() > old(text).pos(),
{
    parse_int_with_base(text, 8, negative, start)
}

/// An integer in base 2 (after `0b`).
fn parse_bin_int<'a>(text: &mut Text<'a>, negative: bool, start: usize) -> (r: Result<i64, TomlError<'a>>)
    requires
        old(text).wf(),
    ensures
        final(text).text == old(text).text,
        final(text).wf(),
        match based_spec(old(text).bytes(), old(text).pos(), 2, negative) {
            Ok((Num::Int(v), e)) => r matches Ok(x) && x as int == v && final(text).pos() == e,
            Ok(_) => false,
            Err(k) => r is Err && r->Err_0.kind == k,
        },
        r is Ok ==> final(text).pos() > old(text).pos(),
{
    parse_int_with_base(text, 2, negative, start)
}


/// The first index from `i` on of `t` that does not hold a decimal digit.
fn digit_run(t: &[u8], i: usize) -> (r: usize)
    requires
        i <= t@.len(),
    ensures
        r as int == digit_run_end(t@, i as int),
        i <= r <= t@.len(),
{
    let mut j = i;
    while j < t.len() && 0x30 <= t[j] && t[j] <= 0x39
        invariant
            i <= j <= t@.len(),
            digit_run_end(t@, i as int) == digit_run_end(t@, j as int),
        decreases t@.len() - j,
    {
        j = j + 1;
    }
    j
}

/// Whether `t` is a float literal without sign or underscores.
pub fn valid_float_exec(t: &[u8]) -> (r: bool)
    ensures
        r == valid_float(t@),
{
    let n = t.len();
    let a = digit_run(t, 0);
    let b = if a < n && t[a] == 0x2E { digit_run(t, a + 1) } else { a };
    let c0 = if b < n && (t[b] == 0x65 || t[b] == 0x45) {
        if b + 1 < n && (t[b + 1] == 0x2B || t[b + 1] == 0x2D) {
            b + 2
        } else {
            b + 1
        }
    } else {
        b
    };
    let c = if c0 > b {
        if c0 <= n {
            digit_run(t, c0)
        } else {
            c0
        }
    } else {
        b
    };
    proof {
        if c0 > n {
            assert(digit_run_end(t@, c0 as int) == c0);
        }
    }
    a > 0 && (b == a || b > a + 1) && (c0 == b || c > c0) && c == n && (b > a || c > b)
}

/// Parses a float token at the cursor: everything up to a byte that ends
/// it, underscores left out, which must be a float literal.
fn parse_float<'a>(text: &mut Text<'a>, negative: bool) -> (r: Result<TomlValue<'a>, TomlError<'a>>)
    requires
        old(text).wf(),
    ensures
        final(text).text == old(text).text,
        final(text).wf(),
        num_parsed_as(float_spec(old(text).bytes(), old(text).pos()), negative, r, final(text).pos()),
        r is Ok && old(text).pos() < old(text).bytes().len() && !ends_float(old(text).bytes()[old(text).pos()]) ==> final(text).pos() > old(text).pos(),
{
    let ghost s = text.bytes();
    let p = text.idx();
    let mut lit: Vec<u8> = Vec::new();
    assert(s.subrange(p as int, p as int) =~= Seq::<u8>::empty());
    while text.current_byte().is_some() && !is_end_of_float(text.current_byte().unwrap())
        invariant
            text.text == old(text).text,
            text.wf(),
            s == text.bytes(),
            p <= text.pos(),
            p == old(text).pos(),
            lit@ == strip_us(s.subrange(p as int, text.pos())),
            float_end(s, p as int) == float_end(s, text.pos()),
        decreases s.len() - text.pos(),
    {
        let b = text.current_byte().unwrap();
        let ghost i = text.pos();
        if b != 0x5F {
            lit.push(b);
        }
        text.next();
        proof {
            assert(s.subrange(p as int, i + 1).drop_last() =~= s.subrange(p as int, i));
        }
    }
    if valid_float_exec(lit.as_slice()) {
        Ok(TomlValue::Float(TomlFloat { negative, literal: lit }))
    } else {
        Err(TomlError { src: text.excerpt_before_idx(p), kind: TomlErrorKind::InvalidNumber })
    }
}

/// Parses a number literal whose sign (if any) has been read: an integer in
/// any base, a float, `inf`, `nan`, or a date or time.
pub fn parse_number<'a>(text: &mut Text<'a>, negative: bool) -> (r: Result<TomlValue<'a>, TomlError<'a>>)
    requires
        old(text).wf(),
        old(text).pos() < old(text).bytes().len(),
    ensures
        final(text).text == old(text).text,
        final(text).wf(),
        num_parsed_as(number_spec(old(text).bytes(), old(text).pos(), negative), negative, r, final(text).pos()),
        r is Ok ==> final(text).pos() > old(text).pos(),
{
    let ghost s = text.bytes();
    let start = text.idx();
    let c0 = text.current_byte();
    let c1 = text.byte_at(1);
    let c2 = text.byte_at(2);
    if c0 == Some(0x69u8) && c1 == Some(0x6Eu8) && c2 == Some(0x66u8) {
        text.next_n(3);
        let mut lit: Vec<u8> = Vec::new();
        lit.push(0x69u8);
        lit.push(0x6Eu8);
        lit.push(0x66u8);
        assert(lit@ =~= seq![0x69u8, 0x6Eu8, 0x66u8]);
        return Ok(TomlValue::Float(TomlFloat { negative, literal: lit }));
    }
    if c0 == Some(0x6Eu8) && c1 == Some(0x61u8) && c2 == Some(0x6Eu8) {
        text.next_n(3);
        let mut lit: Vec<u8> = Vec::new();
        lit.push(0x6Eu8);
        lit.push(0x61u8);
        lit.push(0x6Eu8);
        assert(lit@ =~= seq![0x6Eu8, 0x61u8, 0x6Eu8]);
        return Ok(TomlValue::Float(TomlFloat { negative, literal: lit }));
    }
    if c0 == Some(0x30u8) && c1 == Some(0x78u8) {
        text.next_n(2);
        return match parse_hex_int(text, negative, start) {
            Ok(v) => Ok(TomlValue::Integer(v)),
            Err(e) => Err(e),
        };
    }
    if c0 == Some(0x30u8) && c1 == Some(0x6Fu8) {
        text.next_n(2);
        return match parse_oct_int(text, negative, start) {
            Ok(v) => Ok(TomlValue::Integer(v)),
            Err(e) => Err(e),
        };
    }
    if c0 == Some(0x30u8) && c1 == Some(0x62u8) {
        text.next_n(2);
        return match parse_bin_int(text, negative, start) {
            Ok(v) => Ok(TomlValue::Integer(v)),
            Err(e) => Err(e),
        };
    }
    parse_decimal(text, negative)
}

/// Parses a number literal that starts with a decimal digit and is neither
/// `inf`, `nan` nor in another base.
#[verifier::rlimit(40)]
fn parse_decimal<'a>(text: &mut Text<'a>, negative: bool) -> (r: Result<TomlValue<'a>, TomlError<'a>>)
    requires
        old(text).wf(),
        old(text).pos() < old(text).bytes().len(),
        !is_word3(old(text).bytes(), old(text).pos(), 0x69, 0x6E, 0x66),
        !is_word3(old(text).bytes(), old(text).pos(), 0x6E, 0x61, 0x6E),
        !(old(text).pos() + 1 < old(text).bytes().len() && old(text).bytes()[old(text).pos()] == 0x30
            && (old(text).bytes()[old(text).pos() + 1] == 0x78 || old(text).bytes()[old(text).pos() + 1] == 0x6F
            || old(text).bytes()[old(text).pos() + 1] == 0x62)),
    ensures
        final(text).text == old(text).text,
        final(text).wf(),
        num_parsed_as(number_spec(old(text).bytes(), old(text).pos(), negative), negative, r, final(text).pos()),
        r is Ok ==> final(text).pos() > old(text).pos(),
{
    let ghost s = text.bytes();
    let start = text.idx();
    let c0 = text.current_byte();
    proof {
        lemma_run_end_bounds(s, start as int, 10);
    }
    skip_run(text, 10);
    let e = text.idx();
    let leading_zero = c0 == Some(0x30u8) && e - start > 1;
    if e == start {
        return Err(TomlError { src: text.excerpt_to_idx(start), kind: TomlErrorKind::InvalidNumber });
    }
    let next = text.current_byte();
    if next == Some(0x2Eu8) || next == Some(0x65u8) || next == Some(0x45u8) {
        if leading_zero {
            return Err(TomlError { src: text.excerpt_to_idx(start), kind: TomlErrorKind::NumberHasLeadingZero });
        }
        text.idx = start;
        return parse_float(text, negative);
    }
    if next == Some(0x2Du8) || next == Some(0x3Au8) {
        return parse_moment(text, start);
    }
    if next.is_some() && !is_end_of_int(next.unwrap()) {
        return Err(TomlError { src: text.excerpt_to_idx(start), kind: TomlErrorKind::InvalidNumber });
    }
    if leading_zero {
        return Err(TomlError { src: text.excerpt_to_idx(start), kind: TomlErrorKind::NumberHasLeadingZero });
    }
    match run_to_int(text, start, e, 10, negative) {
        Some(v) => Ok(TomlValue::Integer(v)),
        None => Err(TomlError { src: text.excerpt_before_idx(start), kind: TomlErrorKind::NumberTooLarge }),
    }
}


/// Parses a date or time whose leading digits run from the cursor to a `-`
/// or `:`.
fn parse_moment<'a>(text: &mut Text<'a>, start: usize) -> (r: Result<TomlValue<'a>, TomlError<'a>>)
    requires
        old(text).wf(),
        start <= old(text).pos() < old(text).bytes().len(),
        old(text).pos() == run_end(old(text).bytes(), start as int, 10),
        old(text).cur() == Some(0x2Du8) || old(text).cur() == Some(0x3Au8),
    ensures
        final(text).text == old(text).text,
        final(text).wf(),
        ({
            let s = old(text).bytes();
            let e = old(text).pos();
            let p = start as int;
            if s[e] == 0x2D {
                if e - p == 4 && plain_digits(s, p, e) {
                    match date_spec(s, e, run_value(s, p, e, 10) as u16) {
                        Ok((v, k)) => r matches Ok(x) && x == v && final(text).pos() == k,
                        Err(k) => r is Err && r->Err_0.kind == k,
                    }
                } else {
                    r is Err && r->Err_0.kind == TomlErrorKind::DateTimeTooManyDigits
                }
            } else {
                if e - p == 2 && plain_digits(s, p, e) {
                    match time_spec(s, e, run_value(s, p, e, 10) as u8) {
                        Ok((t, k)) => r == Ok::<TomlValue<'a>, TomlError<'a>>(TomlValue::Time(t)) && final(text).pos() == k,
                        Err(k) => r is Err && r->Err_0.kind == k,
                    }
                } else {
                    r is Err && r->Err_0.kind == TomlErrorKind::DateTimeTooManyDigits
                }
            }
        }),
        r is Ok ==> final(text).pos() > old(text).pos(),
{
    let ghost s = text.bytes();
    let e = text.idx();
    let next = text.current_byte();
    proof {
        lemma_run_end_bounds(s, start as int, 10);
    }
        let want: usize = if next == Some(0x2Du8) { 4 } else { 2 };
        let plain = all_digits(text, start, e);
        if e - start != want || !plain {
            return Err(TomlError { src: text.excerpt_to_idx(start), kind: TomlErrorKind::DateTimeTooManyDigits });
        }
        let v = match run_to_int(text, start, e, 10, false) {
            Some(v) => v,
            None => {
                proof {
                    lemma_small_run(s, start as int, e as int);
                    reveal_with_fuel(crate::time::pow10, 5);
                }
                return Err(TomlError { src: text.excerpt_to_idx(start), kind: TomlErrorKind::DateTimeTooManyDigits });
            },
        };
        proof {
            lemma_small_run(s, start as int, e as int);
            reveal_with_fuel(crate::time::pow10, 5);
        }
        if want == 4 {
            return parse_date(v as u16, start, text);
        } else {
            return match parse_time(v as u8, start, text) {
                Ok(t) => Ok(TomlValue::Time(t)),
                Err(err) => Err(err),
            };
        }
}

/// A run of plain decimal digits spells a number below ten to its length.
proof fn lemma_small_run(s: Seq<u8>, p: int, e: int)
    requires
        p <= e,
        plain_digits(s, p, e),
    ensures
        0 <= run_value(s, p, e, 10) < crate::time::pow10((e - p) as nat),
    decreases e - p,
{
    if e > p {
        lemma_small_run(s, p, e - 1);
        assert(is_digit(s[e - 1]));
        let v = run_value(s, p, e - 1, 10);
        assert(crate::time::pow10((e - p) as nat) == 10 * crate::time::pow10((e - 1 - p) as nat));
        assert(v * 10 + digit_val(s[e - 1]) < 10 * crate::time::pow10((e - 1 - p) as nat)) by (nonlinear_arith)
            requires
                0 <= v < crate::time::pow10((e - 1 - p) as nat),
                0 <= digit_val(s[e - 1]) < 10,
        ;
    }
}

/// Whether the bytes `from..to` of the text are all decimal digits.
fn all_digits(text: &Text, from: usize, to: usize) -> (r: bool)
    requires
        text.wf(),
        from <= to <= text.bytes().len(),
    ensures
        r == plain_digits(text.bytes(), from as int, to as int),
{
    let b = text.text.as_bytes();
    let mut j = from;
    while j < to
        invariant
            from <= j <= to <= b@.len(),
            b@ == text.bytes(),
            forall|m: int| from <= m < j ==> is_digit(#[trigger] b@[m]),
        decreases to - j,
    {
        if !(0x30 <= b[j] && b[j] <= 0x39) {
            return false;
        }
        j = j + 1;
    }
    true
}

/// Parses a number with a leading `+` or `-` under the cursor. A date or time
/// may not carry a sign.
pub fn parse_sign<'a>(text: &mut Text<'a>) -> (r: Result<TomlValue<'a>, TomlError<'a>>)
    requires
        old(text).wf(),
        old(text).cur() == Some(0x2Bu8) || old(text).cur() == Some(0x2Du8),
    ensures
        final(text).text == old(text).text,
        final(text).wf(),
        ({
            let neg = old(text).cur() == Some(0x2Du8);
            let p = old(text).pos() + 1;
            if p >= old(text).bytes().len() {
                r is Err && r->Err_0.kind == TomlErrorKind::InvalidNumber
            } else {
                match number_spec(old(text).bytes(), p, neg) {
                    Ok((Num::Moment(_), _)) => r is Err && r->Err_0.kind == TomlErrorKind::InvalidNumber,
                    d => num_parsed_as(d, neg, r, final(text).pos()),
                }
            }
        }),
        r is Ok ==> final(text).pos() > old(text).pos(),
{
    let start = text.idx();
    let negative = text.current_byte() == Some(0x2Du8);
    text.next();
    if text.current_byte().is_none() {
        return Err(TomlError { src: text.excerpt_before_idx(start), kind: TomlErrorKind::InvalidNumber });
    }
    let r = parse_number(text, negative);
    match r {
        Ok(TomlValue::Integer(_)) | Ok(TomlValue::Float(_)) | Err(_) => r,
        Ok(_) => Err(TomlError { src: text.excerpt_before_idx(start), kind: TomlErrorKind::InvalidNumber }),
    }
}

} // verus!
