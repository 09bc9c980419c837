//! Parses dates, times, date-times and offset date-times (their shape only).

use vstd::prelude::*;

use crate::text::Text;
use crate::types::{OffsetTomlDateTime, TomlDate, TomlDateTime, TomlOffset, TomlTime, TomlValue};
use crate::{TomlError, TomlErrorKind};

verus! {

/// An ASCII decimal digit.
pub open spec fn is_digit(b: u8) -> bool {
    0x30 <= b <= 0x39
}

/// The two decimal digits at `i`, as a number.
pub open spec fn two_digits(s: Seq<u8>, i: int) -> Option<u8> {
    if 0 <= i && i + 2 <= s.len() && is_digit(s[i]) && is_digit(s[i + 1]) {
        Some(((s[i] - 0x30) * 10 + (s[i + 1] - 0x30)) as u8)
    } else {
        None
    }
}

/// The first index from `i` on that does not hold a decimal digit.
pub open spec fn digit_run_end(s: Seq<u8>, i: int) -> int
    decreases s.len() - i,
{
    if i < 0 || i >= s.len() || !is_digit(s[i]) {
        i
    } else {
        digit_run_end(s, i + 1)
    }
}

/// The number that the `n` decimal digits from `i` on spell.
pub open spec fn digits_value(s: Seq<u8>, i: int, n: int) -> int
    decreases n,
{
    if n <= 0 {
        0
    } else {
        digits_value(s, i, n - 1) * 10 + (s[i + n - 1] - 0x30)
    }
}

/// `10` to the power `n`.
pub open spec fn pow10(n: nat) -> int
    decreases n,
{
    if n == 0 {
        1
    } else {
        10 * pow10((n - 1) as nat)
    }
}

/// The nanoseconds that a fraction of a second spells from `i` on: its first
/// nine digits, padded with zeros; later digits are dropped.
pub open spec fn nanos_spec(s: Seq<u8>, i: int) -> int {
    let n = digit_run_end(s, i) - i;
    let m = if n < 9 { n } else { 9 };
    digits_value(s, i, m) * pow10((9 - m) as nat)
}

/// A time whose hour is given and whose `:` after the hour stands at `i`:
/// `:MM:SS` and an optional fraction.
pub open spec fn time_spec(s: Seq<u8>, i: int, hour: u8) -> Result<(TomlTime, int), TomlErrorKind> {
    if !(0 <= i < s.len() && s[i] == 0x3A) {
        Err(TomlErrorKind::TimeMissingColon)
    } else {
    match two_digits(s, i + 1) {
        None => Err(TomlErrorKind::TimeMissingMinute),
        Some(minute) => if !(i + 3 < s.len() && s[i + 3] == 0x3A) {
            Err(TomlErrorKind::TimeMissingColon)
        } else {
            match two_digits(s, i + 4) {
                None => Err(TomlErrorKind::TimeMissingSecond),
                Some(second) => if i + 6 < s.len() && s[i + 6] == 0x2E {
                    Ok(
                        (
                            TomlTime { hour, minute, second, nanosecond: nanos_spec(s, i + 7) as u32 },
                            digit_run_end(s, i + 7),
                        ),
                    )
                } else {
                    Ok((TomlTime { hour, minute, second, nanosecond: 0 }, i + 6))
                },
            }
        },
    }
    }
}

/// The offset after a date-time's time, which ends at `j`: `Z`, or a sign
/// with `HH:MM`; none at all gives a local date-time.
pub open spec fn offset_spec(s: Seq<u8>, j: int) -> Result<(Option<TomlOffset>, int), TomlErrorKind> {
    if 0 <= j < s.len() && (s[j] == 0x5A || s[j] == 0x7A) {
        Ok((Some(TomlOffset { hour: 0, minute: 0 }), j + 1))
    } else if 0 <= j < s.len() && (s[j] == 0x2B || s[j] == 0x2D) {
        match two_digits(s, j + 1) {
            None => Err(TomlErrorKind::OffsetMissingHour),
            Some(h) => if !(j + 3 < s.len() && s[j + 3] == 0x3A) {
                Err(TomlErrorKind::OffsetMissingMinute)
            } else {
                match two_digits(s, j + 4) {
                    None => Err(TomlErrorKind::OffsetMissingMinute),
                    Some(m) => Ok(
                        (
                            Some(
                                TomlOffset {
                                    hour: if s[j] == 0x2D { -(h as int) } else { h as int } as i8,
                                    minute: m,
                                },
                            ),
                            j + 6,
                        ),
                    ),
                }
            },
        }
    } else {
        Ok((None, j))
    }
}

/// A date whose year is given and whose `-` after the year stands at `i`:
/// `-MM-DD`, then, after `T`, `t` or a space, an optional time and offset.
pub open spec fn date_spec<'a>(s: Seq<u8>, i: int, year: u16) -> Result<(TomlValue<'a>, int), TomlErrorKind> {
    match two_digits(s, i + 1) {
        None => Err(TomlErrorKind::DateMissingMonth),
        Some(month) => if !(i + 3 < s.len() && s[i + 3] == 0x2D) {
            Err(TomlErrorKind::DateMissingDash)
        } else {
            match two_digits(s, i + 4) {
                None => Err(TomlErrorKind::DateMissingDay),
                Some(month_day) => {
                    let date = TomlDate { year, month, month_day };
                    let j = i + 6;
                    if j < s.len() && (s[j] == 0x20 || s[j] == 0x54 || s[j] == 0x74) && two_digits(
                        s,
                        j + 1,
                    ) is Some {
                        let hour = two_digits(s, j + 1).unwrap();
                        match time_spec(s, j + 3, hour) {
                            Err(e) => Err(e),
                            Ok((time, k)) => match offset_spec(s, k) {
                                Err(e) => Err(e),
                                Ok((None, m)) => Ok((TomlValue::DateTime(TomlDateTime { date, time }), m)),
                                Ok((Some(offset), m)) => Ok(
                                    (TomlValue::OffsetDateTime(OffsetTomlDateTime { offset, date, time }), m),
                                ),
                            },
                        }
                    } else {
                        Ok((TomlValue::Date(date), j))
                    }
                },
            }
        },
    }
}

/// Reads two decimal digits at the cursor and steps over them; on failure the
/// cursor stays.
pub fn parse_two_digits(text: &mut Text) -> (r: Option<u8>)
    requires
        old(text).wf(),
    ensures
        final(text).text == old(text).text,
        final(text).wf(),
        r == two_digits(old(text).bytes(), old(text).pos()),
        final(text).pos() == old(text).pos() + (if r is Some { 2int } else { 0int }),
{
    let first = match text.current_byte() {
        Some(b) => b,
        None => {
            return None;
        },
    };
    let second = match text.next_byte() {
        Some(b) => b,
        None => {
            return None;
        },
    };
    if !(0x30 <= first && first <= 0x39 && 0x30 <= second && second <= 0x39) {
        return None;
    }
    text.next_n(2);
    Some((first - 0x30) * 10 + (second - 0x30))
}

pub proof fn lemma_digit_run_bounds(s: Seq<u8>, i: int)
    requires
        0 <= i <= s.len(),
    ensures
        i <= digit_run_end(s, i) <= s.len(),
    decreases s.len() - i,
{
    if i < s.len() && is_digit(s[i]) {
        lemma_digit_run_bounds(s, i + 1);
    }
}

proof fn lemma_pow10_bound(n: nat)
    requires
        n <= 9,
    ensures
        1 <= pow10(n) <= 1_000_000_000,
    decreases n,
{
    reveal_with_fuel(pow10, 10);
    if n > 0 {
        lemma_pow10_bound((n - 1) as nat);
    }
}

/// Reads the digits of a fraction of a second at the cursor, keeping nine.
fn parse_nanos(text: &mut Text) -> (r: u32)
    requires
        old(text).wf(),
    ensures
        final(text).text == old(text).text,
        final(text).wf(),
        r as int == nanos_spec(old(text).bytes(), old(text).pos()),
        final(text).pos() == digit_run_end(old(text).bytes(), old(text).pos()),
        final(text).pos() >= old(text).pos(),
{
    let ghost s = text.bytes();
    let ghost i = text.pos();
    let mut count: usize = 0;
    let mut ns: u32 = 0;
    while count < 9 && text.current_byte().is_some() && 0x30 <= text.current_byte().unwrap()
        && text.current_byte().unwrap() <= 0x39
        invariant
            text.text == old(text).text,
            text.wf(),
            s == text.bytes(),
            i == old(text).pos(),
            count <= 9,
            text.pos() == i + count,
            digit_run_end(s, i) == digit_run_end(s, text.pos()),
            ns as int == digits_value(s, i, count as int),
            (ns as int) < pow10(count as nat),
        decreases 9 - count,
    {
        let d = text.current_byte().unwrap() - 0x30;
        proof {
            lemma_pow10_bound((count + 1) as nat);
            assert(pow10((count + 1) as nat) == 10 * pow10(count as nat));
            assert((ns as int) * 10 + (d as int) < 10 * pow10(count as nat)) by (nonlinear_arith)
                requires
                    (ns as int) < pow10(count as nat),
                    d < 10,
            ;
        }
        ns = ns * 10 + d as u32;
        text.next();
        count = count + 1;
    }
    let ghost m = count;
    let ghost v = ns;
    proof {
        if count < 9 {
            assert(digit_run_end(s, i) == i + count);
        }
    }
    while text.current_byte().is_some() && 0x30 <= text.current_byte().unwrap()
        && text.current_byte().unwrap() <= 0x39
        invariant
            text.text == old(text).text,
            text.wf(),
            s == text.bytes(),
            digit_run_end(s, i) == digit_run_end(s, text.pos()),
            count == m,
            count <= 9,
            ns as int == digits_value(s, i, count as int),
            (ns as int) < pow10(count as nat),
        decreases s.len() - text.pos(),
    {
        text.next();
    }
    proof {
        lemma_digit_run_bounds(s, i + m);
        let n = digit_run_end(s, i) - i;
        assert(n >= m);
        if m < 9 {
            assert(n == m);
        }
    }
    let mut k: usize = count;
    proof {
        assert((k - m) as nat == 0nat);
        assert(pow10(0) == 1);
        assert(digits_value(s, i, m as int) * 1 == digits_value(s, i, m as int));
    }
    while k < 9
        invariant
            m <= k <= 9,
            m == count,
            ns as int == digits_value(s, i, m as int) * pow10((k - m) as nat),
            (ns as int) < pow10(k as nat),
        decreases 9 - k,
    {
        proof {
            lemma_pow10_bound((k + 1) as nat);
            assert(pow10((k + 1) as nat) == 10 * pow10(k as nat));
            assert(pow10((k + 1 - m) as nat) == 10 * pow10((k - m) as nat));
            assert((ns as int) * 10 < 10 * pow10(k as nat)) by (nonlinear_arith)
                requires
                    (ns as int) < pow10(k as nat),
            ;
            assert(digits_value(s, i, m as int) * pow10((k - m) as nat) * 10 == digits_value(s, i, m as int) * (10 * pow10((k - m) as nat))) by (nonlinear_arith);
        }
        ns = ns * 10;
        k = k + 1;
    }
    ns
}

/// Parses the rest of a time whose two-digit hour has been read; the cursor
/// stands on the `:` after it.
pub fn parse_time<'a>(hour: u8, start: usize, text: &mut Text<'a>) -> (r: Result<TomlTime, TomlError<'a>>)
    requires
        old(text).wf(),
        old(text).cur() == Some(0x3Au8),
    ensures
        final(text).text == old(text).text,
        final(text).wf(),
        match time_spec(old(text).bytes(), old(text).pos(), hour) {
            Ok((t, e)) => r == Ok::<TomlTime, TomlError<'a>>(t) && final(text).pos() == e,
            Err(k) => r is Err && r->Err_0.kind == k,
        },
        r is Ok ==> final(text).pos() > old(text).pos(),
{
    text.next();
    let minute = match parse_two_digits(text) {
        Some(m) => m,
        None => {
            return Err(TomlError { src: text.excerpt_to_idx(start), kind: TomlErrorKind::TimeMissingMinute });
        },
    };
    if text.current_byte() != Some(0x3Au8) {
        return Err(TomlError { src: text.excerpt_to_idx(start), kind: TomlErrorKind::TimeMissingColon });
    }
    text.next();
    let second = match parse_two_digits(text) {
        Some(s) => s,
        None => {
            return Err(TomlError { src: text.excerpt_to_idx(start), kind: TomlErrorKind::TimeMissingSecond });
        },
    };
    let nanosecond = if text.current_byte() == Some(0x2Eu8) {
        text.next();
        parse_nanos(text)
    } else {
        0
    };
    Ok(TomlTime { hour, minute, second, nanosecond })
}

/// Parses an offset after a date-time's time, if one stands at the cursor.
fn parse_offset<'a>(start: usize, text: &mut Text<'a>) -> (r: Result<Option<TomlOffset>, TomlError<'a>>)
    requires
        old(text).wf(),
    ensures
        final(text).text == old(text).text,
        final(text).wf(),
        match offset_spec(old(text).bytes(), old(text).pos()) {
            Ok((o, e)) => r == Ok::<Option<TomlOffset>, TomlError<'a>>(o) && final(text).pos() == e,
            Err(k) => r is Err && r->Err_0.kind == k,
        },
{
    match text.current_byte() {
        Some(b) => {
            if b == 0x5A || b == 0x7A {
                text.next();
                return Ok(Some(TomlOffset { hour: 0, minute: 0 }));
            }
            if b != 0x2B && b != 0x2D {
                return Ok(None);
            }
            let negative = b == 0x2D;
            text.next();
            let hour = match parse_two_digits(text) {
                Some(h) => h,
                None => {
                    return Err(TomlError { src: text.excerpt_to_idx(start), kind: TomlErrorKind::OffsetMissingHour });
                },
            };
            if text.current_byte() != Some(0x3Au8) {
                return Err(TomlError { src: text.excerpt_to_idx(start), kind: TomlErrorKind::OffsetMissingMinute });
            }
            text.next();
            let minute = match parse_two_digits(text) {
                Some(m) => m,
                None => {
                    return Err(TomlError { src: text.excerpt_to_idx(start), kind: TomlErrorKind::OffsetMissingMinute });
                },
            };
            let h: i8 = if negative { -(hour as i8) } else { hour as i8 };
            Ok(Some(TomlOffset { hour: h, minute }))
        },
        None => Ok(None),
    }
}

/// Parses the rest of a date whose four-digit year has been read; the cursor
/// stands on the `-` after it. A time and an offset may follow.
pub fn parse_date<'a>(year: u16, start: usize, text: &mut Text<'a>) -> (r: Result<TomlValue<'a>, TomlError<'a>>)
    requires
        old(text).wf(),
        old(text).cur() == Some(0x2Du8),
    ensures
        final(text).text == old(text).text,
        final(text).wf(),
        match date_spec(old(text).bytes(), old(text).pos(), year) {
            Ok((v, e)) => r matches Ok(v2) && v2 == v && final(text).pos() == e,
            Err(k) => r is Err && r->Err_0.kind == k,
        },
        r is Ok ==> final(text).pos() > old(text).pos(),
{
    let ghost s = text.bytes();
    let ghost i = text.pos();
    text.next();
    let month = match parse_two_digits(text) {
        Some(m) => m,
        None => {
            return Err(TomlError { src: text.excerpt_to_idx(start), kind: TomlErrorKind::DateMissingMonth });
        },
    };
    if text.current_byte() != Some(0x2Du8) {
        return Err(TomlError { src: text.excerpt_to_idx(start), kind: TomlErrorKind::DateMissingDash });
    }
    text.next();
    let month_day = match parse_two_digits(text) {
        Some(d) => d,
        None => {
            return Err(TomlError { src: text.excerpt_to_idx(start), kind: TomlErrorKind::DateMissingDay });
        },
    };
    let date = TomlDate { year, month, month_day };
    let sep = text.current_byte();
    if sep == Some(0x20u8) || sep == Some(0x54u8) || sep == Some(0x74u8) {
        let saved = text.idx();
        text.next();
        if let Some(hour) = parse_two_digits(text) {
            if text.current_byte() != Some(0x3Au8) {
                return Err(TomlError { src: text.excerpt_to_idx(start), kind: TomlErrorKind::TimeMissingColon });
            }
            let time = match parse_time(hour, start, text) {
                Ok(t) => t,
                Err(e) => {
                    return Err(e);
                },
            };
            return match parse_offset(start, text) {
                Err(e) => Err(e),
                Ok(None) => Ok(TomlValue::DateTime(TomlDateTime { date, time })),
                Ok(Some(offset)) => Ok(TomlValue::OffsetDateTime(OffsetTomlDateTime { offset, date, time })),
            };
        }
        text.idx = saved;
    }
    Ok(TomlValue::Date(date))
}

} // verus!
