//! Parses bare, quoted and dotted keys.

use vstd::prelude::*;

use crate::string::{Decoded, literal_spec, basic_rest, parse_literal_string, parse_basic_string};
use crate::text::{Text, CowSpan, skip_inline_from, lemma_skip_inline_bounds};
use crate::{TomlError, TomlErrorKind};

verus! {

/// A byte allowed in a bare key: `A-Z`, `a-z`, `0-9`, `-` and `_`.
pub open spec fn is_bare_key_byte(b: u8) -> bool {
    (0x41 <= b <= 0x5A) || (0x61 <= b <= 0x7A) || (0x30 <= b <= 0x39) || b == 0x2D || b == 0x5F
}

/// The first index from `i` on that does not hold a bare-key byte.
pub open spec fn bare_end(s: Seq<u8>, i: int) -> int
    decreases s.len() - i,
{
    if i < 0 || i >= s.len() || !is_bare_key_byte(s[i]) {
        i
    } else {
        bare_end(s, i + 1)
    }
}

pub proof fn lemma_bare_end_bounds(s: Seq<u8>, i: int)
    requires
        0 <= i <= s.len(),
    ensures
        i <= bare_end(s, i) <= s.len(),
    decreases s.len() - i,
{
    if i < s.len() && is_bare_key_byte(s[i]) {
        lemma_bare_end_bounds(s, i + 1);
    }
}

/// One key segment starting at `p`: a literal string, a basic string, or the
/// longest non-empty run of bare-key bytes.
pub open spec fn key_spec(s: Seq<u8>, p: int) -> Decoded {
    if 0 <= p < s.len() && s[p] == 0x27 {
        literal_spec(s, p)
    } else if 0 <= p < s.len() && s[p] == 0x22 {
        basic_rest(s, p + 1, false)
    } else if bare_end(s, p) == p {
        Err(TomlErrorKind::NoKeyInAssignment)
    } else {
        Ok((s.subrange(p, bare_end(s, p)), bare_end(s, p)))
    }
}

/// A dotted key starting at `p`: its segments' texts and the index after it
/// and the spaces that follow it.
pub open spec fn dotted_spec(s: Seq<u8>, p: int) -> Result<(Seq<Seq<u8>>, int), TomlErrorKind>
    decreases s.len() - p,
{
    match key_spec(s, p) {
        Err(e) => Err(e),
        Ok((k, j)) => {
            let q = skip_inline_from(s, j);
            if 0 <= q < s.len() && s[q] == 0x2E {
                let r = skip_inline_from(s, q + 1);
                if p < r <= s.len() {
                    match dotted_spec(s, r) {
                        Ok((ks, e)) => Ok((seq![k] + ks, e)),
                        Err(e) => Err(e),
                    }
                } else {
                    Ok((seq![k], q))
                }
            } else {
                Ok((seq![k], q))
            }
        },
    }
}

/// The texts of a list of key segments.
pub open spec fn key_texts<'a>(keys: Seq<CowSpan<'a>>) -> Seq<Seq<u8>> {
    keys.map_values(|k: CowSpan<'a>| k.content())
}

/// Whether `b` may stand in a bare key.
pub fn is_bare_key_byte_exec(b: u8) -> (r: bool)
    ensures
        r == is_bare_key_byte(b),
{
    (0x41 <= b && b <= 0x5A) || (0x61 <= b && b <= 0x7A) || (0x30 <= b && b <= 0x39) || b == 0x2D || b == 0x5F
}

/// Parses one key segment under the cursor.
pub fn parse_key<'a>(text: &mut Text<'a>) -> (r: Result<CowSpan<'a>, TomlError<'a>>)
    requires
        old(text).wf(),
    ensures
        final(text).text == old(text).text,
        final(text).wf(),
        crate::string::parsed_as(key_spec(old(text).bytes(), old(text).pos()), r, final(text).pos()),
        r is Ok ==> final(text).pos() > old(text).pos(),
        r is Ok && !(old(text).cur() == Some(0x27u8) || old(text).cur() == Some(0x22u8)) ==> r->Ok_0 is Raw,
        r is Err && !(old(text).cur() == Some(0x27u8) || old(text).cur() == Some(0x22u8)) ==> r->Err_0.kind
            == TomlErrorKind::NoKeyInAssignment && r->Err_0.src.start == old(text).pos() && final(text).pos() == old(text).pos()
            && (old(text).pos() < old(text).bytes().len() ==> r->Err_0.src.end == old(text).pos()),
{
    if text.current_byte() == Some(0x27u8) {
        return parse_literal_string(text);
    } else if text.current_byte() == Some(0x22u8) {
        return parse_basic_string(text);
    }
    let ghost s = text.bytes();
    let start = text.idx();
    while text.current_byte().is_some() && is_bare_key_byte_exec(text.current_byte().unwrap())
        invariant
            text.text == old(text).text,
            text.wf(),
            s == text.bytes(),
            start <= text.pos(),
            bare_end(s, start as int) == bare_end(s, text.pos()),
        decreases s.len() - text.pos(),
    {
        text.next();
    }
    let end = text.idx();
    if end == start {
        return Err(TomlError { src: text.absolute_excerpt(start, start), kind: TomlErrorKind::NoKeyInAssignment });
    }
    Ok(CowSpan::Raw(text.absolute_excerpt(start, end - 1)))
}

/// Parses a dotted key (`a . "b" . 'c'`) under the cursor, and the spaces
/// after it.
pub fn parse_dotted_key<'a>(text: &mut Text<'a>) -> (r: Result<Vec<CowSpan<'a>>, TomlError<'a>>)
    requires
        old(text).wf(),
    ensures
        final(text).text == old(text).text,
        final(text).wf(),
        match dotted_spec(old(text).bytes(), old(text).pos()) {
            Ok((ks, e)) => r matches Ok(keys) && key_texts(keys@) == ks && final(text).pos() == e
                && keys@.len() >= 1 && forall|i: int| 0 <= i < keys@.len() ==> (#[trigger] keys@[i]).wf(),
            Err(e) => r is Err && r->Err_0.kind == e,
        },
        r is Ok ==> final(text).pos() > old(text).pos(),
    decreases old(text).bytes().len() - old(text).pos(),
{
    let ghost s = text.bytes();
    let ghost p = text.pos();
    let key = match parse_key(text) {
        Ok(k) => k,
        Err(e) => {
            return Err(e);
        },
    };
    let ghost j = text.pos();
    proof {
        lemma_skip_inline_bounds(s, j);
    }
    text.skip_inline_whitespace();
    let ghost q = text.pos();
    if text.current_byte() == Some(0x2Eu8) {
        text.next();
        proof {
            lemma_skip_inline_bounds(s, q + 1);
        }
        text.skip_inline_whitespace();
        assert(text.pos() > p);
        match parse_dotted_key(text) {
            Ok(rest) => {
                let ghost rest_view = rest@;
                let mut keys: Vec<CowSpan<'a>> = Vec::new();
                keys.push(key);
                let mut rest = rest;
                keys.append(&mut rest);
                proof {
                    assert(key_texts(keys@) =~= seq![key.content()] + key_texts(rest_view));
                    assert forall|i: int| 0 <= i < keys@.len() implies (#[trigger] keys@[i]).wf() by {
                        if i > 0 {
                            assert(keys@[i] == rest_view[i - 1]);
                        }
                    }
                }
                return Ok(keys);
            },
            Err(e) => {
                return Err(e);
            },
        }
    }
    let mut keys: Vec<CowSpan<'a>> = Vec::new();
    keys.push(key);
    assert(key_texts(keys@) =~= seq![key.content()]);
    Ok(keys)
}

} // verus!
