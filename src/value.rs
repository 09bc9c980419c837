//! Parses values: strings, numbers, booleans, dates and times, arrays and
//! inline tables.

use vstd::prelude::*;

use crate::key::{dotted_spec, key_texts, parse_dotted_key};
use crate::num::{Num, number_spec, num_parsed_as, parse_number, parse_sign};
use crate::string::{string_spec, parse_string};
use crate::table::{Action, Entry, blocked, done, insert_path, empty_table};
use crate::text::{Text, skip_inline_from, skip_ws_comments_from};
use crate::shape::{same_entries, same_shape, lemma_done_congr};
use crate::laws::{tree_keys_unique, value_keys_unique, lemma_tree_keys_stay_unique};
use crate::types::{TableOrigin, TomlString, TomlTable, TomlValue};
use crate::{TomlError, TomlErrorKind};

verus! {

/// The bytes at `p` spell `true`.
pub open spec fn is_true_at(s: Seq<u8>, p: int) -> bool {
    0 <= p && p + 4 <= s.len() && s[p] == 0x74 && s[p + 1] == 0x72 && s[p + 2] == 0x75 && s[p + 3] == 0x65
}

/// The bytes at `p` spell `false`.
pub open spec fn is_false_at(s: Seq<u8>, p: int) -> bool {
    0 <= p && p + 5 <= s.len() && s[p] == 0x66 && s[p + 1] == 0x61 && s[p + 2] == 0x6C && s[p + 3] == 0x73
        && s[p + 4] == 0x65
}

/// A byte that may begin a value.
pub open spec fn may_start_value(c: u8) -> bool {
    c == 0x27 || c == 0x22 || c == 0x5B || c == 0x7B || (0x30 <= c <= 0x39) || c == 0x2B || c == 0x2D || c == 0x74
        || c == 0x66 || c == 0x69 || c == 0x6E
}

/// No value starts at `p`: the input, the line, or the statement ends there.
pub open spec fn no_value_at(s: Seq<u8>, p: int) -> bool {
    p >= s.len() || s[p] == 0x0A || s[p] == 0x0D || s[p] == 0x23
}

/// What parsing a value at `p` gives, for every value that is not an array
/// or an inline table: the value, the cursor after it, or the error.
pub open spec fn scalar_parsed_as<'a>(
    s: Seq<u8>,
    p: int,
    r: Result<TomlValue<'a>, TomlError<'a>>,
    after: int,
) -> bool {
    if 0 <= p < s.len() && (s[p] == 0x27 || s[p] == 0x22) {
        match string_spec(s, p) {
            Ok((c, k)) => r matches Ok(TomlValue::String(ts)) && ts.content() == c && ts.wf() && after == k,
            Err(e) => r is Err && r->Err_0.kind == e,
        }
    } else if is_true_at(s, p) {
        r == Ok::<TomlValue<'a>, TomlError<'a>>(TomlValue::Boolean(true)) && after == p + 4
    } else if is_false_at(s, p) {
        r == Ok::<TomlValue<'a>, TomlError<'a>>(TomlValue::Boolean(false)) && after == p + 5
    } else if 0 <= p < s.len() && (s[p] == 0x2B || s[p] == 0x2D) {
        if p + 1 >= s.len() {
            r is Err && r->Err_0.kind == TomlErrorKind::InvalidNumber
        } else {
            match number_spec(s, p + 1, s[p] == 0x2D) {
                Ok((Num::Moment(_), _)) => r is Err && r->Err_0.kind == TomlErrorKind::InvalidNumber,
                d => num_parsed_as(d, s[p] == 0x2D, r, after),
            }
        }
    } else if 0 <= p < s.len() && (0x30 <= s[p] <= 0x39 || s[p] == 0x69 || s[p] == 0x6E) && (
    0x30 <= s[p] <= 0x39 || crate::num::is_word3(s, p, 0x69, 0x6E, 0x66) || crate::num::is_word3(
        s,
        p,
        0x6E,
        0x61,
        0x6E,
    )) {
        num_parsed_as(number_spec(s, p, false), false, r, after)
    } else if no_value_at(s, p) {
        r is Err && r->Err_0.kind == TomlErrorKind::NoValueInAssignment
    } else {
        r is Err && r->Err_0.kind == TomlErrorKind::UnrecognisedValue
    }
}

/// The positions that a parse passes through inside a value: for an array,
/// where each element ends and their own shapes; for an inline table, where
/// each value ends, their shapes, the values, and the entries after each
/// pair was taken in.
pub enum Shape<'a> {
    /// A value with nothing inside.
    Leaf,
    /// The elements of an array.
    Items(Seq<int>, Seq<Shape<'a>>),
    /// The pairs of an inline table.
    Pairs(Seq<int>, Seq<Shape<'a>>, Seq<TomlValue<'a>>, Seq<Seq<Entry<'a>>>),
}

/// `v` is what parsing the value at `p` yields, passing through `t`, and the
/// value ends at `e`.
pub open spec fn value_at<'a>(s: Seq<u8>, p: int, v: TomlValue<'a>, e: int, t: Shape<'a>) -> bool
    decreases s.len() - p, 0nat,
{
    if 0 <= p < s.len() && s[p] == 0x5B {
        match v {
            TomlValue::Array(a, aot) => match t {
                Shape::Items(ends, kids) => !aot && p < s.len() && items_at(s, p + 1, a@, e, ends, kids),
                _ => false,
            },
            _ => false,
        }
    } else if 0 <= p < s.len() && s[p] == 0x7B {
        match v {
            TomlValue::Table(tb) => tb.origin == TableOrigin::Inline && match t {
                Shape::Pairs(ends, kids, vals, mids) => {
                    let j = skip_inline_from(s, p + 1);
                    if 0 <= j < s.len() && s[j] == 0x7D {
                        tb.entries@.len() == 0 && e == j + 1
                    } else {
                        p < j <= s.len() && entries_at(s, j, Seq::empty(), tb.entries@, e, ends, kids, vals, mids)
                    }
                },
                _ => false,
            },
            _ => false,
        }
    } else {
        scalar_parsed_as(s, p, Ok(v), e)
    }
}

/// The array elements read from `i` (just after `[` or a `,`) are `items`,
/// ending at `ends` with shapes `kids`, and the array's `]` ends before `e`.
/// Whitespace, newlines and comments may stand around elements; a trailing
/// comma is allowed.
pub open spec fn items_at<'a>(
    s: Seq<u8>,
    i: int,
    items: Seq<TomlValue<'a>>,
    e: int,
    ends: Seq<int>,
    kids: Seq<Shape<'a>>,
) -> bool
    decreases s.len() - i, 1nat,
{
    let j = skip_ws_comments_from(s, i);
    if 0 <= j < s.len() && s[j] == 0x5D {
        items.len() == 0 && e == j + 1
    } else {
        items.len() >= 1 && ends.len() >= 1 && kids.len() >= 1 && 0 <= i <= j < ends[0] <= s.len() && value_at(
            s,
            j,
            items[0],
            ends[0],
            kids[0],
        ) && {
            let m = skip_ws_comments_from(s, ends[0]);
            (0 <= m < s.len() && s[m] == 0x5D && items.len() == 1 && e == m + 1) || (0 <= m < s.len() && s[m]
                == 0x2C && ends[0] <= m && items_at(
                s,
                m + 1,
                items.drop_first(),
                e,
                ends.drop_first(),
                kids.drop_first(),
            ))
        }
    }
}

/// The `key = value` pairs of an inline table read from `j`, taken into a
/// table whose entries were `before`, make its entries `after`; the table's
/// `}` ends before `e`. The n-th value is `vals[n]`, ends at `ends[n]` with
/// shape `kids[n]`, and leaves the entries `mids[n]`.
pub open spec fn entries_at<'a>(
    s: Seq<u8>,
    j: int,
    before: Seq<Entry<'a>>,
    after: Seq<Entry<'a>>,
    e: int,
    ends: Seq<int>,
    kids: Seq<Shape<'a>>,
    vals: Seq<TomlValue<'a>>,
    mids: Seq<Seq<Entry<'a>>>,
) -> bool
    decreases s.len() - j, 1nat,
{
    match dotted_spec(s, j) {
        Err(_) => false,
        Ok((ks, q)) => {
            let r = skip_inline_from(s, q + 1);
            &&& 0 <= q < s.len()
            &&& s[q] == 0x3D
            &&& ends.len() >= 1 && kids.len() >= 1 && vals.len() >= 1 && mids.len() >= 1
            &&& 0 <= j < r < ends[0] <= s.len()
            &&& value_at(s, r, vals[0], ends[0], kids[0])
            &&& !blocked(before, ks, Action::Assign(vals[0]))
            &&& done(before, ks, Action::Assign(vals[0]), mids[0])
            &&& {
                let m = skip_inline_from(s, ends[0]);
                (0 <= m < s.len() && s[m] == 0x7D && after == mids[0] && e == m + 1) || (0 <= m < s.len()
                    && s[m] == 0x2C && ends[0] <= m && m < skip_inline_from(s, m + 1) <= s.len()
                    && entries_at(
                    s,
                    skip_inline_from(s, m + 1),
                    mids[0],
                    after,
                    e,
                    ends.drop_first(),
                    kids.drop_first(),
                    vals.drop_first(),
                    mids.drop_first(),
                ))
            }
        },
    }
}

/// Two parses of the value at `p` end at the same place and agree in
/// structure.
pub proof fn lemma_value_unique<'a>(
    s: Seq<u8>,
    p: int,
    v1: TomlValue<'a>,
    e1: int,
    t1: Shape<'a>,
    v2: TomlValue<'a>,
    e2: int,
    t2: Shape<'a>,
)
    requires
        value_at(s, p, v1, e1, t1),
        value_at(s, p, v2, e2, t2),
    ensures
        e1 == e2,
        same_shape(v1, v2),
    decreases s.len() - p, 0nat,
{
    if 0 <= p < s.len() && s[p] == 0x5B {
        let a1 = v1->Array_0;
        let a2 = v2->Array_0;
        let (n1, k1) = (t1->Items_0, t1->Items_1);
        let (n2, k2) = (t2->Items_0, t2->Items_1);
        lemma_items_unique(s, p + 1, a1@, e1, n1, k1, a2@, e2, n2, k2);
    } else if 0 <= p < s.len() && s[p] == 0x7B {
        let b1 = v1->Table_0;
        let b2 = v2->Table_0;
        let j = skip_inline_from(s, p + 1);
        if 0 <= j < s.len() && s[j] == 0x7D {
            assert(same_entries(b1.entries@, b2.entries@));
        } else {
            assert(same_entries(Seq::<Entry<'a>>::empty(), Seq::<Entry<'a>>::empty()));
            lemma_entries_unique(
                s,
                j,
                Seq::empty(),
                b1.entries@,
                e1,
                t1->Pairs_0,
                t1->Pairs_1,
                t1->Pairs_2,
                t1->Pairs_3,
                Seq::empty(),
                b2.entries@,
                e2,
                t2->Pairs_0,
                t2->Pairs_1,
                t2->Pairs_2,
                t2->Pairs_3,
            );
        }
    } else {
        lemma_scalar_unique(s, p, v1, e1, v2, e2);
    }
}

/// Two readings of one scalar agree.
proof fn lemma_scalar_unique<'a>(s: Seq<u8>, p: int, v1: TomlValue<'a>, e1: int, v2: TomlValue<'a>, e2: int)
    requires
        scalar_parsed_as(s, p, Ok(v1), e1),
        scalar_parsed_as(s, p, Ok(v2), e2),
    ensures
        e1 == e2,
        !(v1 is Table) && !(v1 is Array) && !(v2 is Table) && !(v2 is Array),
        same_shape(v1, v2),
{
    if 0 <= p < s.len() && (s[p] == 0x2B || s[p] == 0x2D) && p + 1 < s.len() {
        lemma_number_not_structured(s, p + 1, s[p] == 0x2D);
    } else if 0 <= p < s.len() && !(s[p] == 0x27 || s[p] == 0x22) {
        lemma_number_not_structured(s, p, false);
    }
}

/// A number literal never stands for a table or an array.
proof fn lemma_number_not_structured<'a>(s: Seq<u8>, p: int, negative: bool)
    ensures
        number_spec::<'a>(s, p, negative) matches Ok((Num::Moment(v), _)) ==> !(v is Table) && !(v is Array),
{
    let e = crate::num::run_end(s, p, 10);
    if e < s.len() && s[e] == 0x2D && e - p == 4 && crate::num::plain_digits(s, p, e) {
        let y = crate::num::run_value(s, p, e, 10) as u16;
        match crate::time::date_spec::<'a>(s, e, y) {
            Ok((v, k)) => {
                let j = e + 6;
                if j < s.len() && (s[j] == 0x20 || s[j] == 0x54 || s[j] == 0x74) && crate::time::two_digits(s, j + 1) is Some {
                    let hour = crate::time::two_digits(s, j + 1).unwrap();
                    match crate::time::time_spec(s, j + 3, hour) {
                        Ok((tm, kk)) => match crate::time::offset_spec(s, kk) {
                            _ => {},
                        },
                        _ => {},
                    }
                }
            },
            _ => {},
        }
    }
}

/// Two readings of the elements of one array agree in count, end and the
/// structure of the last element.
proof fn lemma_items_unique<'a>(
    s: Seq<u8>,
    i: int,
    it1: Seq<TomlValue<'a>>,
    e1: int,
    n1: Seq<int>,
    k1: Seq<Shape<'a>>,
    it2: Seq<TomlValue<'a>>,
    e2: int,
    n2: Seq<int>,
    k2: Seq<Shape<'a>>,
)
    requires
        items_at(s, i, it1, e1, n1, k1),
        items_at(s, i, it2, e2, n2, k2),
    ensures
        e1 == e2,
        it1.len() == it2.len(),
        forall|x: int| 0 <= x < it1.len() ==> same_shape(#[trigger] it1[x], it2[x]),
    decreases s.len() - i, 1nat,
{
    let j = skip_ws_comments_from(s, i);
    if !(0 <= j < s.len() && s[j] == 0x5D) {
        lemma_value_unique(s, j, it1[0], n1[0], k1[0], it2[0], n2[0], k2[0]);
        let m = skip_ws_comments_from(s, n1[0]);
        if s[m] == 0x2C {
            lemma_items_unique(s, m + 1, it1.drop_first(), e1, n1.drop_first(), k1.drop_first(), it2.drop_first(), e2, n2.drop_first(), k2.drop_first());
            assert forall|x: int| 0 <= x < it1.len() implies same_shape(#[trigger] it1[x], it2[x]) by {
                if x > 0 {
                    assert(it1[x] == it1.drop_first()[x - 1]);
                    assert(it2[x] == it2.drop_first()[x - 1]);
                }
            }
        }
    }
}

/// Two readings of the pairs of one inline table, taken into tables of one
/// structure, agree in end and in the structure of the result.
proof fn lemma_entries_unique<'a>(
    s: Seq<u8>,
    j: int,
    b1: Seq<Entry<'a>>,
    a1: Seq<Entry<'a>>,
    e1: int,
    n1: Seq<int>,
    k1: Seq<Shape<'a>>,
    w1: Seq<TomlValue<'a>>,
    m1: Seq<Seq<Entry<'a>>>,
    b2: Seq<Entry<'a>>,
    a2: Seq<Entry<'a>>,
    e2: int,
    n2: Seq<int>,
    k2: Seq<Shape<'a>>,
    w2: Seq<TomlValue<'a>>,
    m2: Seq<Seq<Entry<'a>>>,
)
    requires
        entries_at(s, j, b1, a1, e1, n1, k1, w1, m1),
        entries_at(s, j, b2, a2, e2, n2, k2, w2, m2),
        same_entries(b1, b2),
    ensures
        e1 == e2,
        same_entries(a1, a2),
    decreases s.len() - j, 1nat,
{
    let (ks, q) = dotted_spec(s, j).unwrap();
    let r = skip_inline_from(s, q + 1);
    lemma_value_unique(s, r, w1[0], n1[0], k1[0], w2[0], n2[0], k2[0]);
    lemma_done_congr(b1, b2, ks, Action::Assign(w1[0]), Action::Assign(w2[0]), m1[0], m2[0]);
    let m = skip_inline_from(s, n1[0]);
    if s[m] == 0x2C {
        lemma_entries_unique(
            s,
            skip_inline_from(s, m + 1),
            m1[0],
            a1,
            e1,
            n1.drop_first(),
            k1.drop_first(),
            w1.drop_first(),
            m1.drop_first(),
            m2[0],
            a2,
            e2,
            n2.drop_first(),
            k2.drop_first(),
            w2.drop_first(),
            m2.drop_first(),
        );
    }
}

/// A parse of the elements from `i` that passes the element read at `j`
/// (ending at `k`) and the comma at `m` goes on from `m + 1`.
proof fn lemma_items_next<'a>(
    s: Seq<u8>,
    i: int,
    j: int,
    v: TomlValue<'a>,
    k: int,
    t: Shape<'a>,
    m: int,
    suf: Seq<TomlValue<'a>>,
    e: int,
    en: Seq<int>,
    kd: Seq<Shape<'a>>,
)
    requires
        j == skip_ws_comments_from(s, i),
        0 <= j < s.len(),
        s[j] != 0x5D,
        value_at(s, j, v, k, t),
        m == skip_ws_comments_from(s, k),
        items_at(s, i, suf, e, en, kd),
    ensures
        suf.len() >= 1,
        en.len() >= 1,
        kd.len() >= 1,
        en[0] == k,
        0 <= m < s.len(),
        s[m] == 0x2C || s[m] == 0x5D,
        s[m] == 0x2C ==> items_at(s, m + 1, suf.drop_first(), e, en.drop_first(), kd.drop_first()),
        s[m] == 0x5D ==> suf.len() == 1 && e == m + 1,
{
    lemma_value_unique(s, j, suf[0], en[0], kd[0], v, k, t);
}

/// No parse of the elements from `i` exists when the input ends there or
/// when no value can be read at the first element.
proof fn lemma_items_stuck<'a>(s: Seq<u8>, i: int, suf: Seq<TomlValue<'a>>, e: int, en: Seq<int>, kd: Seq<Shape<'a>>)
    requires
        skip_ws_comments_from(s, i) >= s.len() || (s[skip_ws_comments_from(s, i)] != 0x5D && forall|
            v: TomlValue<'a>,
            k: int,
            t: Shape<'a>,
        | !value_at(s, skip_ws_comments_from(s, i), v, k, t)),
    ensures
        !items_at(s, i, suf, e, en, kd),
{
    let j = skip_ws_comments_from(s, i);
    if j < s.len() && suf.len() >= 1 && en.len() >= 1 && kd.len() >= 1 {
        assert(!value_at(s, j, suf[0], en[0], kd[0]));
    }
}

/// A parse of the array whose `[` stands at `p` passes through the state of
/// the loop: `n` elements read, the rest from `i` on.
proof fn lemma_array_stuck<'a>(s: Seq<u8>, p: int, done_items: Seq<TomlValue<'a>>, i: int)
    requires
        0 <= p < s.len(),
        s[p] == 0x5B,
        array_resumes(s, p, done_items, i),
        skip_ws_comments_from(s, i) >= s.len() || (s[skip_ws_comments_from(s, i)] != 0x5D && forall|
            v: TomlValue<'a>,
            k: int,
            t: Shape<'a>,
        | !value_at(s, skip_ws_comments_from(s, i), v, k, t)),
    ensures
        forall|v: TomlValue<'a>, e: int, t: Shape<'a>| !value_at(s, p, v, e, t),
{
    reveal(array_resumes);
    assert forall|v: TomlValue<'a>, e: int, t: Shape<'a>| !value_at(s, p, v, e, t) by {
        if value_at(s, p, v, e, t) {
            let it = v->Array_0@;
            let en = t->Items_0;
            let kd = t->Items_1;
            assert(items_at(s, p + 1, it, e, en, kd));
            lemma_items_stuck(
                s,
                i,
                it.subrange(done_items.len() as int, it.len() as int),
                e,
                en.subrange(done_items.len() as int, en.len() as int),
                kd.subrange(done_items.len() as int, kd.len() as int),
            );
        }
    }
}

/// Every parse of the array whose `[` stands at `p` reads `done_items.len()`
/// elements and then goes on from `i`.
#[verifier::opaque]
pub open spec fn array_resumes<'a>(s: Seq<u8>, p: int, done_items: Seq<TomlValue<'a>>, i: int) -> bool {
    forall|it: Seq<TomlValue<'a>>, e: int, en: Seq<int>, kd: Seq<Shape<'a>>|
        #[trigger] items_at(s, p + 1, it, e, en, kd) ==> it.len() >= done_items.len() && en.len() >= done_items.len()
            && kd.len() >= done_items.len() && items_at(
            s,
            i,
            it.subrange(done_items.len() as int, it.len() as int),
            e,
            en.subrange(done_items.len() as int, en.len() as int),
            kd.subrange(done_items.len() as int, kd.len() as int),
        )
}

/// A parse that resumes after an element and a comma.
proof fn lemma_array_resume_comma<'a>(s: Seq<u8>, p: int, done_items: Seq<TomlValue<'a>>, v: TomlValue<'a>, k: int)
    requires
        array_after(s, p, done_items, k),
        0 <= skip_ws_comments_from(s, k) < s.len(),
        s[skip_ws_comments_from(s, k)] == 0x2C,
    ensures
        array_resumes(s, p, done_items.push(v), skip_ws_comments_from(s, k) + 1),
{
    reveal(array_after);
    reveal(array_resumes);
}

/// Every parse of the array at `p` reads, after the `n` elements before `i`,
/// the element read at `j` (ending at `k`), then stands at the byte after it.
#[verifier::opaque]
pub open spec fn array_after<'a>(s: Seq<u8>, p: int, done_items: Seq<TomlValue<'a>>, k: int) -> bool {
    let n = done_items.len() as int;
    forall|it: Seq<TomlValue<'a>>, ee: int, en: Seq<int>, kd: Seq<Shape<'a>>|
        #[trigger] items_at(s, p + 1, it, ee, en, kd) ==> it.len() >= n + 1 && en.len() >= n + 1 && kd.len() >= n + 1 && {
            let m = skip_ws_comments_from(s, k);
            &&& 0 <= m < s.len()
            &&& (s[m] == 0x2C || s[m] == 0x5D)
            &&& (s[m] == 0x2C ==> items_at(
                s,
                m + 1,
                it.subrange(n + 1, it.len() as int),
                ee,
                en.subrange(n + 1, en.len() as int),
                kd.subrange(n + 1, kd.len() as int),
            ))
            &&& (s[m] == 0x5D ==> it.len() == n + 1)
        }
}

proof fn lemma_array_advance<'a>(s: Seq<u8>, p: int, done_items: Seq<TomlValue<'a>>, i: int, v: TomlValue<'a>, k: int, t: Shape<'a>)
    requires
        array_resumes(s, p, done_items, i),
        0 <= skip_ws_comments_from(s, i) < s.len(),
        s[skip_ws_comments_from(s, i)] != 0x5D,
        value_at(s, skip_ws_comments_from(s, i), v, k, t),
    ensures
        array_after(s, p, done_items, k),
{
    reveal(array_after);
    reveal(array_resumes);
    let n0 = done_items.len() as int;
    let j = skip_ws_comments_from(s, i);
    assert forall|it: Seq<TomlValue<'a>>, ee: int, en: Seq<int>, kd: Seq<Shape<'a>>|
        #[trigger] items_at(s, p + 1, it, ee, en, kd) implies it.len() >= n0 + 1 && en.len() >= n0 + 1 && kd.len() >= n0 + 1 && {
            let m = skip_ws_comments_from(s, k);
            &&& 0 <= m < s.len()
            &&& (s[m] == 0x2C || s[m] == 0x5D)
            &&& (s[m] == 0x2C ==> items_at(
                s,
                m + 1,
                it.subrange(n0 + 1, it.len() as int),
                ee,
                en.subrange(n0 + 1, en.len() as int),
                kd.subrange(n0 + 1, kd.len() as int),
            ))
            &&& (s[m] == 0x5D ==> it.len() == n0 + 1)
        } by {
        let suf = it.subrange(n0, it.len() as int);
        let sen = en.subrange(n0, en.len() as int);
        let skd = kd.subrange(n0, kd.len() as int);
        lemma_items_next(s, i, j, v, k, t, skip_ws_comments_from(s, k), suf, ee, sen, skd);
        assert(suf.drop_first() =~= it.subrange(n0 + 1, it.len() as int));
        assert(sen.drop_first() =~= en.subrange(n0 + 1, en.len() as int));
        assert(skd.drop_first() =~= kd.subrange(n0 + 1, kd.len() as int));
    }
}

/// The elements read from `i` are `items` (ending at `ends`, with shapes
/// `kids`), and then the array stops with the error `kind`: the input ends
/// before its `]`, or after an element stands neither `,` nor `]`.
pub open spec fn items_stop<'a>(
    s: Seq<u8>,
    i: int,
    kind: TomlErrorKind,
    items: Seq<TomlValue<'a>>,
    ends: Seq<int>,
    kids: Seq<Shape<'a>>,
) -> bool
    decreases s.len() - i,
{
    let j = skip_ws_comments_from(s, i);
    if !(0 <= i <= j <= s.len()) {
        false
    } else if j == s.len() {
        items.len() == 0 && kind == TomlErrorKind::UnclosedArrayBracket
    } else if s[j] == 0x5D {
        false
    } else {
        items.len() >= 1 && ends.len() >= 1 && kids.len() >= 1 && j < ends[0] <= s.len() && value_at(
            s,
            j,
            items[0],
            ends[0],
            kids[0],
        ) && {
            let m = skip_ws_comments_from(s, ends[0]);
            &&& ends[0] <= m <= s.len()
            &&& ((m == s.len() && items.len() == 1 && kind == TomlErrorKind::UnclosedArrayBracket) || (m < s.len()
                && s[m] != 0x2C && s[m] != 0x5D && items.len() == 1 && kind == TomlErrorKind::NoCommaDelimeter) || (m
                < s.len() && s[m] == 0x2C && items_stop(
                s,
                m + 1,
                kind,
                items.drop_first(),
                ends.drop_first(),
                kids.drop_first(),
            )))
        }
    }
}

/// Every reading of the array at `p` up to where it stops reads
/// `done_items.len()` elements and then goes on from `i`.
#[verifier::opaque]
pub open spec fn stop_resumes<'a>(s: Seq<u8>, p: int, done_items: Seq<TomlValue<'a>>, i: int) -> bool {
    let n = done_items.len() as int;
    forall|kind: TomlErrorKind, it: Seq<TomlValue<'a>>, en: Seq<int>, kd: Seq<Shape<'a>>|
        #[trigger] items_stop(s, p + 1, kind, it, en, kd) ==> it.len() >= n && en.len() >= n && kd.len() >= n
            && items_stop(
            s,
            i,
            kind,
            it.subrange(n, it.len() as int),
            en.subrange(n, en.len() as int),
            kd.subrange(n, kd.len() as int),
        )
}

/// The error kind that every reading of the array at `p` (with elements of
/// the type of `like`) stops with: `None` when no reading stops.
pub open spec fn stop_kind_is<'a>(s: Seq<u8>, p: int, like: Seq<TomlValue<'a>>, kind: Option<TomlErrorKind>) -> bool {
    forall|k2: TomlErrorKind, it: Seq<TomlValue<'a>>, en: Seq<int>, kd: Seq<Shape<'a>>|
        #[trigger] items_stop(s, p + 1, k2, it, en, kd) ==> kind == Some(k2)
}

proof fn lemma_stop_start<'a>(s: Seq<u8>, p: int, none_yet: Seq<TomlValue<'a>>)
    requires
        0 <= p < s.len(),
        none_yet.len() == 0,
    ensures
        stop_resumes(s, p, none_yet, p + 1),
{
    reveal(stop_resumes);
    assert forall|kind: TomlErrorKind, it: Seq<TomlValue<'a>>, en: Seq<int>, kd: Seq<Shape<'a>>|
        #[trigger] items_stop(s, p + 1, kind, it, en, kd) implies items_stop(
        s,
        p + 1,
        kind,
        it.subrange(0, it.len() as int),
        en.subrange(0, en.len() as int),
        kd.subrange(0, kd.len() as int),
    ) by {
        assert(it.subrange(0, it.len() as int) =~= it);
        assert(en.subrange(0, en.len() as int) =~= en);
        assert(kd.subrange(0, kd.len() as int) =~= kd);
    }
}

/// At the head of the loop: the input ends (the array stops unclosed), or a
/// `]` closes it, or no element can be read (no reading stops there).
proof fn lemma_stop_head<'a>(s: Seq<u8>, p: int, done_items: Seq<TomlValue<'a>>, i: int)
    requires
        stop_resumes(s, p, done_items, i),
        0 <= i <= skip_ws_comments_from(s, i) <= s.len(),
    ensures
        skip_ws_comments_from(s, i) == s.len() ==> stop_kind_is(s, p, done_items, Some(TomlErrorKind::UnclosedArrayBracket)),
        skip_ws_comments_from(s, i) < s.len() && s[skip_ws_comments_from(s, i)] == 0x5D ==> stop_kind_is(s, p, done_items, None),
        skip_ws_comments_from(s, i) < s.len() && (forall|v: TomlValue<'a>, k: int, t: Shape<'a>|
            !(#[trigger] value_at(s, skip_ws_comments_from(s, i), v, k, t))) ==> stop_kind_is(s, p, done_items, None),
{
    reveal(stop_resumes);
    let n = done_items.len() as int;
    let j = skip_ws_comments_from(s, i);
    assert forall|k2: TomlErrorKind, it: Seq<TomlValue<'a>>, en: Seq<int>, kd: Seq<Shape<'a>>|
        #[trigger] items_stop(s, p + 1, k2, it, en, kd) implies (j == s.len() ==> k2
        == TomlErrorKind::UnclosedArrayBracket) && !(j < s.len() && s[j] == 0x5D) && !(j < s.len() && (forall|v: TomlValue<'a>, k: int, t: Shape<'a>|
            !(#[trigger] value_at(s, j, v, k, t)))) by {
        let suf = it.subrange(n, it.len() as int);
        let sen = en.subrange(n, en.len() as int);
        let skd = kd.subrange(n, kd.len() as int);
        assert(items_stop(s, i, k2, suf, sen, skd));
        if j < s.len() && s[j] != 0x5D {
            assert(value_at(s, j, suf[0], sen[0], skd[0]));
        }
    }
}

/// After an element read at `j` (ending at `k`): the input ends, or another
/// byte than `,` or `]` stands, or `]` closes the array; or a comma lets the
/// reading go on.
proof fn lemma_stop_after<'a>(s: Seq<u8>, p: int, done_items: Seq<TomlValue<'a>>, i: int, v: TomlValue<'a>, k: int, t: Shape<'a>)
    requires
        stop_resumes(s, p, done_items, i),
        0 <= i <= skip_ws_comments_from(s, i) < s.len(),
        s[skip_ws_comments_from(s, i)] != 0x5D,
        value_at(s, skip_ws_comments_from(s, i), v, k, t),
        k <= skip_ws_comments_from(s, k) <= s.len(),
    ensures
        skip_ws_comments_from(s, k) == s.len() ==> stop_kind_is(s, p, done_items, Some(TomlErrorKind::UnclosedArrayBracket)),
        skip_ws_comments_from(s, k) < s.len() && s[skip_ws_comments_from(s, k)] != 0x2C
            && s[skip_ws_comments_from(s, k)] != 0x5D ==> stop_kind_is(s, p, done_items, Some(TomlErrorKind::NoCommaDelimeter)),
        skip_ws_comments_from(s, k) < s.len() && s[skip_ws_comments_from(s, k)] == 0x5D ==> stop_kind_is(s, p, done_items, None),
        skip_ws_comments_from(s, k) < s.len() && s[skip_ws_comments_from(s, k)] == 0x2C ==> stop_resumes(
            s,
            p,
            done_items.push(v),
            skip_ws_comments_from(s, k) + 1,
        ),
{
    reveal(stop_resumes);
    let n = done_items.len() as int;
    let j = skip_ws_comments_from(s, i);
    let m = skip_ws_comments_from(s, k);
    assert forall|k2: TomlErrorKind, it: Seq<TomlValue<'a>>, en: Seq<int>, kd: Seq<Shape<'a>>|
        #[trigger] items_stop(s, p + 1, k2, it, en, kd) implies it.len() >= n + 1 && en.len() >= n + 1 && kd.len()
            >= n + 1 && (m == s.len() ==> k2 == TomlErrorKind::UnclosedArrayBracket) && (m < s.len() && s[m] != 0x2C
            && s[m] != 0x5D ==> k2 == TomlErrorKind::NoCommaDelimeter) && !(m < s.len() && s[m] == 0x5D) && (m
            < s.len() && s[m] == 0x2C ==> items_stop(
            s,
            m + 1,
            k2,
            it.subrange(n + 1, it.len() as int),
            en.subrange(n + 1, en.len() as int),
            kd.subrange(n + 1, kd.len() as int),
        )) by {
        let suf = it.subrange(n, it.len() as int);
        let sen = en.subrange(n, en.len() as int);
        let skd = kd.subrange(n, kd.len() as int);
        assert(items_stop(s, i, k2, suf, sen, skd));
        lemma_value_unique(s, j, suf[0], sen[0], skd[0], v, k, t);
        assert(suf.drop_first() =~= it.subrange(n + 1, it.len() as int));
        assert(sen.drop_first() =~= en.subrange(n + 1, en.len() as int));
        assert(skd.drop_first() =~= kd.subrange(n + 1, kd.len() as int));
    }
}

/// The pairs of an inline table read from `j` (taken into entries `before`)
/// are read as in `entries_at`, and then the table stops with the error
/// `kind`: the input ends, or after a value stands neither `,` nor `}`.
pub open spec fn entries_stop<'a>(
    s: Seq<u8>,
    j: int,
    before: Seq<Entry<'a>>,
    kind: TomlErrorKind,
    ends: Seq<int>,
    kids: Seq<Shape<'a>>,
    vals: Seq<TomlValue<'a>>,
    mids: Seq<Seq<Entry<'a>>>,
) -> bool
    decreases s.len() - j,
{
    if j == s.len() {
        kind == TomlErrorKind::UnclosedInlineTableBracket
    } else {
        match dotted_spec(s, j) {
            Err(_) => false,
            Ok((ks, q)) => {
                let r = skip_inline_from(s, q + 1);
                &&& 0 <= q < s.len()
                &&& s[q] == 0x3D
                &&& ends.len() >= 1 && kids.len() >= 1 && vals.len() >= 1 && mids.len() >= 1
                &&& 0 <= j < r < ends[0] <= s.len()
                &&& value_at(s, r, vals[0], ends[0], kids[0])
                &&& !blocked(before, ks, Action::Assign(vals[0]))
                &&& done(before, ks, Action::Assign(vals[0]), mids[0])
                &&& {
                    let m = skip_inline_from(s, ends[0]);
                    &&& ends[0] <= m <= s.len()
                    &&& ((m == s.len() && kind == TomlErrorKind::UnclosedInlineTableBracket) || (m < s.len() && s[m]
                        != 0x2C && s[m] != 0x7D && kind == TomlErrorKind::UnclosedInlineTableBracket) || (m < s.len()
                        && s[m] == 0x2C && m < skip_inline_from(s, m + 1) <= s.len() && entries_stop(
                        s,
                        skip_inline_from(s, m + 1),
                        mids[0],
                        kind,
                        ends.drop_first(),
                        kids.drop_first(),
                        vals.drop_first(),
                        mids.drop_first(),
                    )))
                }
            },
        }
    }
}

/// Every reading of the inline table whose first pair stands at `j0` up to
/// where it stops reads `done_vals.len()` pairs, then goes on from `j` with
/// entries that agree in structure with `cur`.
#[verifier::opaque]
pub open spec fn tstop_resumes<'a>(s: Seq<u8>, j0: int, done_vals: Seq<TomlValue<'a>>, j: int, cur: Seq<Entry<'a>>) -> bool {
    let n = done_vals.len() as int;
    forall|kind: TomlErrorKind, en: Seq<int>, kd: Seq<Shape<'a>>, vl: Seq<TomlValue<'a>>, md: Seq<Seq<Entry<'a>>>|
        #[trigger] entries_stop(s, j0, Seq::empty(), kind, en, kd, vl, md) ==> en.len() >= n && kd.len() >= n
            && vl.len() >= n && md.len() >= n && same_entries(entries_before(md, n), cur) && entries_stop(
            s,
            j,
            entries_before(md, n),
            kind,
            en.subrange(n, en.len() as int),
            kd.subrange(n, kd.len() as int),
            vl.subrange(n, vl.len() as int),
            md.subrange(n, md.len() as int),
        )
}

/// The error kind that every reading of the inline table from `j0` stops
/// with (values of the type of `like`): `None` when no reading stops.
pub open spec fn tstop_kind_is<'a>(s: Seq<u8>, j0: int, like: Seq<TomlValue<'a>>, kind: Option<TomlErrorKind>) -> bool {
    forall|k2: TomlErrorKind, en: Seq<int>, kd: Seq<Shape<'a>>, vl: Seq<TomlValue<'a>>, md: Seq<Seq<Entry<'a>>>|
        #[trigger] entries_stop(s, j0, Seq::empty(), k2, en, kd, vl, md) ==> kind == Some(k2)
}

proof fn lemma_tstop_start<'a>(s: Seq<u8>, j0: int, none_yet: Seq<TomlValue<'a>>, cur: Seq<Entry<'a>>)
    requires
        none_yet.len() == 0,
        cur.len() == 0,
    ensures
        tstop_resumes(s, j0, none_yet, j0, cur),
{
    reveal(tstop_resumes);
    assert forall|kind: TomlErrorKind, en: Seq<int>, kd: Seq<Shape<'a>>, vl: Seq<TomlValue<'a>>, md: Seq<Seq<Entry<'a>>>|
        #[trigger] entries_stop(s, j0, Seq::empty(), kind, en, kd, vl, md) implies same_entries(entries_before(md, 0), cur)
            && entries_stop(
            s,
            j0,
            entries_before(md, 0),
            kind,
            en.subrange(0, en.len() as int),
            kd.subrange(0, kd.len() as int),
            vl.subrange(0, vl.len() as int),
            md.subrange(0, md.len() as int),
        ) by {
        assert(en.subrange(0, en.len() as int) =~= en);
        assert(kd.subrange(0, kd.len() as int) =~= kd);
        assert(vl.subrange(0, vl.len() as int) =~= vl);
        assert(md.subrange(0, md.len() as int) =~= md);
        assert(same_entries(Seq::<Entry<'a>>::empty(), cur));
    }
}

/// At the head of the loop: the input ends (the table stops unclosed), or
/// the pair cannot be read (no reading stops there).
proof fn lemma_tstop_head<'a>(s: Seq<u8>, j0: int, done_vals: Seq<TomlValue<'a>>, j: int, cur: Seq<Entry<'a>>)
    requires
        tstop_resumes(s, j0, done_vals, j, cur),
        0 <= j <= s.len(),
    ensures
        j == s.len() ==> tstop_kind_is(s, j0, done_vals, Some(TomlErrorKind::UnclosedInlineTableBracket)),
        j < s.len() && match dotted_spec(s, j) {
            Err(_) => true,
            Ok((ks, q)) => !(0 <= q < s.len() && s[q] == 0x3D) || forall|v: TomlValue<'a>, k: int, t: Shape<'a>|
                !(#[trigger] value_at(s, skip_inline_from(s, q + 1), v, k, t)),
        } ==> tstop_kind_is(s, j0, done_vals, None),
{
    reveal(tstop_resumes);
    let n = done_vals.len() as int;
    assert forall|k2: TomlErrorKind, en: Seq<int>, kd: Seq<Shape<'a>>, vl: Seq<TomlValue<'a>>, md: Seq<Seq<Entry<'a>>>|
        #[trigger] entries_stop(s, j0, Seq::empty(), k2, en, kd, vl, md) implies (j == s.len() ==> k2
        == TomlErrorKind::UnclosedInlineTableBracket) && !(j < s.len() && match dotted_spec(s, j) {
            Err(_) => true,
            Ok((ks, q)) => !(0 <= q < s.len() && s[q] == 0x3D) || forall|v: TomlValue<'a>, k: int, t: Shape<'a>|
                !(#[trigger] value_at(s, skip_inline_from(s, q + 1), v, k, t)),
        }) by {
        let (en1, kd1, vl1, md1) = (
            en.subrange(n, en.len() as int),
            kd.subrange(n, kd.len() as int),
            vl.subrange(n, vl.len() as int),
            md.subrange(n, md.len() as int),
        );
        assert(entries_stop(s, j, entries_before(md, n), k2, en1, kd1, vl1, md1));
        if j < s.len() && dotted_spec(s, j) is Ok {
            let (ks, q) = dotted_spec(s, j).unwrap();
            assert(value_at(s, skip_inline_from(s, q + 1), vl1[0], en1[0], kd1[0]));
        }
    }
}

/// After a pair whose value `v` ends at `k`: if the key was reused no reading
/// stops; otherwise the input ends or another byte than `,` or `}` stands
/// (the table stops unclosed), or `}` closes it, or a comma lets the reading
/// go on.
proof fn lemma_tstop_after<'a>(
    s: Seq<u8>,
    j0: int,
    done_vals: Seq<TomlValue<'a>>,
    j: int,
    cur: Seq<Entry<'a>>,
    ks: Seq<Seq<u8>>,
    q: int,
    v: TomlValue<'a>,
    k: int,
    t: Shape<'a>,
    mid: Seq<Entry<'a>>,
)
    requires
        tstop_resumes(s, j0, done_vals, j, cur),
        0 <= j < s.len(),
        dotted_spec(s, j) == Ok::<(Seq<Seq<u8>>, int), TomlErrorKind>((ks, q)),
        value_at(s, skip_inline_from(s, q + 1), v, k, t),
        k <= skip_inline_from(s, k) <= s.len(),
    ensures
        blocked(cur, ks, Action::Assign(v)) ==> tstop_kind_is(s, j0, done_vals, None),
        !blocked(cur, ks, Action::Assign(v)) && done(cur, ks, Action::Assign(v), mid) ==> {
            let m = skip_inline_from(s, k);
            &&& (m == s.len() || (s[m] != 0x2C && s[m] != 0x7D)) ==> tstop_kind_is(
                s,
                j0,
                done_vals,
                Some(TomlErrorKind::UnclosedInlineTableBracket),
            )
            &&& (m < s.len() && s[m] == 0x7D) ==> tstop_kind_is(s, j0, done_vals, None)
            &&& (m < s.len() && s[m] == 0x2C && m < skip_inline_from(s, m + 1) <= s.len()) ==> tstop_resumes(
                s,
                j0,
                done_vals.push(v),
                skip_inline_from(s, m + 1),
                mid,
            )
        },
{
    reveal(tstop_resumes);
    let n = done_vals.len() as int;
    let r = skip_inline_from(s, q + 1);
    let m = skip_inline_from(s, k);
    assert forall|k2: TomlErrorKind, en: Seq<int>, kd: Seq<Shape<'a>>, vl: Seq<TomlValue<'a>>, md: Seq<Seq<Entry<'a>>>|
        #[trigger] entries_stop(s, j0, Seq::empty(), k2, en, kd, vl, md) implies !blocked(cur, ks, Action::Assign(v))
            && (done(cur, ks, Action::Assign(v), mid) ==> (en.len() >= n + 1 && kd.len() >= n + 1 && vl.len()
            >= n + 1 && md.len() >= n + 1 && ((m == s.len() || (s[m] != 0x2C && s[m] != 0x7D)) ==> k2
            == TomlErrorKind::UnclosedInlineTableBracket) && !(m < s.len() && s[m] == 0x7D) && ((m < s.len() && s[m]
            == 0x2C && m < skip_inline_from(s, m + 1) <= s.len()) ==> same_entries(entries_before(md, n + 1), mid)
            && entries_stop(
            s,
            skip_inline_from(s, m + 1),
            entries_before(md, n + 1),
            k2,
            en.subrange(n + 1, en.len() as int),
            kd.subrange(n + 1, kd.len() as int),
            vl.subrange(n + 1, vl.len() as int),
            md.subrange(n + 1, md.len() as int),
        )))) by {
        let b = entries_before(md, n);
        let (en1, kd1, vl1, md1) = (
            en.subrange(n, en.len() as int),
            kd.subrange(n, kd.len() as int),
            vl.subrange(n, vl.len() as int),
            md.subrange(n, md.len() as int),
        );
        assert(entries_stop(s, j, b, k2, en1, kd1, vl1, md1));
        lemma_value_unique(s, r, vl1[0], en1[0], kd1[0], v, k, t);
        crate::shape::lemma_blocked_congr(b, cur, ks, Action::Assign(vl1[0]), Action::Assign(v));
        if done(cur, ks, Action::Assign(v), mid) && !blocked(cur, ks, Action::Assign(v)) {
            lemma_done_congr(b, cur, ks, Action::Assign(vl1[0]), Action::Assign(v), md1[0], mid);
            assert(md1[0] == md[n]);
            assert(en1.drop_first() =~= en.subrange(n + 1, en.len() as int));
            assert(kd1.drop_first() =~= kd.subrange(n + 1, kd.len() as int));
            assert(vl1.drop_first() =~= vl.subrange(n + 1, vl.len() as int));
            assert(md1.drop_first() =~= md.subrange(n + 1, md.len() as int));
        }
    }
}

/// After an element, an array needs a `,` or a `]`.
proof fn lemma_array_stuck_after<'a>(s: Seq<u8>, p: int, done_items: Seq<TomlValue<'a>>, k: int)
    requires
        0 <= p < s.len(),
        s[p] == 0x5B,
        array_after(s, p, done_items, k),
        !(0 <= skip_ws_comments_from(s, k) < s.len() && (s[skip_ws_comments_from(s, k)] == 0x2C
            || s[skip_ws_comments_from(s, k)] == 0x5D)),
    ensures
        forall|v: TomlValue<'a>, e: int, t: Shape<'a>| !value_at(s, p, v, e, t),
{
    reveal(array_after);
    assert forall|v: TomlValue<'a>, e: int, t: Shape<'a>| !value_at(s, p, v, e, t) by {
        if value_at(s, p, v, e, t) {
            assert(items_at(s, p + 1, v->Array_0@, e, t->Items_0, t->Items_1));
        }
    }
}

/// The entries before the next pair of a parse that has read `n` pairs.
pub open spec fn entries_before<'a>(mids: Seq<Seq<Entry<'a>>>, n: int) -> Seq<Entry<'a>> {
    if n == 0 {
        Seq::empty()
    } else {
        mids[n - 1]
    }
}

/// Every parse of the pairs of the inline table whose first pair stands at
/// `j0` reads `done_vals.len()` pairs, then goes on from `j` with entries
/// that agree in structure with `cur`.
#[verifier::opaque]
pub open spec fn table_resumes<'a>(s: Seq<u8>, j0: int, done_vals: Seq<TomlValue<'a>>, j: int, cur: Seq<Entry<'a>>) -> bool {
    let n = done_vals.len() as int;
    forall|after: Seq<Entry<'a>>, e: int, en: Seq<int>, kd: Seq<Shape<'a>>, vl: Seq<TomlValue<'a>>, md: Seq<Seq<Entry<'a>>>|
        #[trigger] entries_at(s, j0, Seq::empty(), after, e, en, kd, vl, md) ==> en.len() >= n && kd.len() >= n
            && vl.len() >= n && md.len() >= n && same_entries(entries_before(md, n), cur) && entries_at(
            s,
            j,
            entries_before(md, n),
            after,
            e,
            en.subrange(n, en.len() as int),
            kd.subrange(n, kd.len() as int),
            vl.subrange(n, vl.len() as int),
            md.subrange(n, md.len() as int),
        )
}

/// No parse of pairs from `j` exists, from entries of the structure of `cur`.
pub open spec fn table_stuck<'a>(s: Seq<u8>, j: int, cur: Seq<Entry<'a>>) -> bool {
    forall|b: Seq<Entry<'a>>, after: Seq<Entry<'a>>, e: int, en: Seq<int>, kd: Seq<Shape<'a>>, vl: Seq<TomlValue<'a>>, md: Seq<Seq<Entry<'a>>>|
        same_entries(b, cur) ==> !(#[trigger] entries_at(s, j, b, after, e, en, kd, vl, md))
}

/// A parse of the inline table at `p` that cannot go on has no value.
proof fn lemma_table_stuck<'a>(s: Seq<u8>, p: int, done_vals: Seq<TomlValue<'a>>, j: int, cur: Seq<Entry<'a>>)
    requires
        0 <= p < s.len(),
        s[p] == 0x7B,
        p < skip_inline_from(s, p + 1) <= s.len(),
        !(skip_inline_from(s, p + 1) < s.len() && s[skip_inline_from(s, p + 1)] == 0x7D),
        table_resumes(s, skip_inline_from(s, p + 1), done_vals, j, cur),
        table_stuck(s, j, cur),
    ensures
        forall|v: TomlValue<'a>, e: int, t: Shape<'a>| !value_at(s, p, v, e, t),
{
    reveal(table_resumes);
    let n = done_vals.len() as int;
    assert forall|v: TomlValue<'a>, e: int, t: Shape<'a>| !value_at(s, p, v, e, t) by {
        if value_at(s, p, v, e, t) {
            let tb = v->Table_0;
            let (en, kd, vl, md) = (t->Pairs_0, t->Pairs_1, t->Pairs_2, t->Pairs_3);
            assert(entries_at(s, skip_inline_from(s, p + 1), Seq::empty(), tb.entries@, e, en, kd, vl, md));
            assert(!entries_at(
                s,
                j,
                entries_before(md, n),
                tb.entries@,
                e,
                en.subrange(n, en.len() as int),
                kd.subrange(n, kd.len() as int),
                vl.subrange(n, vl.len() as int),
                md.subrange(n, md.len() as int),
            ));
        }
    }
}

/// A parse that resumes after a pair and a comma.
proof fn lemma_table_advance<'a>(
    s: Seq<u8>,
    j0: int,
    done_vals: Seq<TomlValue<'a>>,
    j: int,
    cur: Seq<Entry<'a>>,
    ks: Seq<Seq<u8>>,
    q: int,
    v: TomlValue<'a>,
    k: int,
    t: Shape<'a>,
    mid: Seq<Entry<'a>>,
)
    requires
        table_resumes(s, j0, done_vals, j, cur),
        dotted_spec(s, j) == Ok::<(Seq<Seq<u8>>, int), TomlErrorKind>((ks, q)),
        0 <= q < s.len(),
        s[q] == 0x3D,
        value_at(s, skip_inline_from(s, q + 1), v, k, t),
        !blocked(cur, ks, Action::Assign(v)),
        done(cur, ks, Action::Assign(v), mid),
        0 <= skip_inline_from(s, k) < s.len(),
        s[skip_inline_from(s, k)] == 0x2C,
    ensures
        table_resumes(s, j0, done_vals.push(v), skip_inline_from(s, skip_inline_from(s, k) + 1), mid),
{
    reveal(table_resumes);
    let n = done_vals.len() as int;
    let m = skip_inline_from(s, k);
    let r = skip_inline_from(s, q + 1);
    assert forall|after: Seq<Entry<'a>>, e: int, en: Seq<int>, kd: Seq<Shape<'a>>, vl: Seq<TomlValue<'a>>, md: Seq<Seq<Entry<'a>>>|
        #[trigger] entries_at(s, j0, Seq::empty(), after, e, en, kd, vl, md) implies en.len() >= n + 1 && kd.len() >= n + 1
            && vl.len() >= n + 1 && md.len() >= n + 1 && same_entries(entries_before(md, n + 1), mid) && entries_at(
            s,
            skip_inline_from(s, m + 1),
            entries_before(md, n + 1),
            after,
            e,
            en.subrange(n + 1, en.len() as int),
            kd.subrange(n + 1, kd.len() as int),
            vl.subrange(n + 1, vl.len() as int),
            md.subrange(n + 1, md.len() as int),
        ) by {
        let b = entries_before(md, n);
        let (en1, kd1, vl1, md1) = (
            en.subrange(n, en.len() as int),
            kd.subrange(n, kd.len() as int),
            vl.subrange(n, vl.len() as int),
            md.subrange(n, md.len() as int),
        );
        assert(entries_at(s, j, b, after, e, en1, kd1, vl1, md1));
        lemma_value_unique(s, r, vl1[0], en1[0], kd1[0], v, k, t);
        crate::shape::lemma_blocked_congr(b, cur, ks, Action::Assign(vl1[0]), Action::Assign(v));
        lemma_done_congr(b, cur, ks, Action::Assign(vl1[0]), Action::Assign(v), md1[0], mid);
        assert(md1[0] == md[n]);
        assert(en1.drop_first() =~= en.subrange(n + 1, en.len() as int));
        assert(kd1.drop_first() =~= kd.subrange(n + 1, kd.len() as int));
        assert(vl1.drop_first() =~= vl.subrange(n + 1, vl.len() as int));
        assert(md1.drop_first() =~= md.subrange(n + 1, md.len() as int));
    }
}

/// A pair whose key cannot be read, or lacks its `=`, or whose value cannot
/// be read, stops every parse.
proof fn lemma_table_stuck_pair<'a>(s: Seq<u8>, j: int, cur: Seq<Entry<'a>>)
    requires
        match dotted_spec(s, j) {
            Err(_) => true,
            Ok((ks, q)) => !(0 <= q < s.len() && s[q] == 0x3D) || forall|v: TomlValue<'a>, k: int, t: Shape<'a>|
                !(#[trigger] value_at(s, skip_inline_from(s, q + 1), v, k, t)),
        },
    ensures
        table_stuck(s, j, cur),
{
    assert forall|b: Seq<Entry<'a>>, after: Seq<Entry<'a>>, e: int, en: Seq<int>, kd: Seq<Shape<'a>>, vl: Seq<TomlValue<'a>>, md: Seq<Seq<Entry<'a>>>|
        same_entries(b, cur) implies !(#[trigger] entries_at(s, j, b, after, e, en, kd, vl, md)) by {
        if entries_at(s, j, b, after, e, en, kd, vl, md) {
            let (ks, q) = dotted_spec(s, j).unwrap();
            assert(value_at(s, skip_inline_from(s, q + 1), vl[0], en[0], kd[0]));
        }
    }
}

/// A pair whose value was read (as `v`, ending at `k`) but whose key is
/// reused, or after which neither `,` nor `}` stands, stops every parse.
proof fn lemma_table_stuck_after<'a>(
    s: Seq<u8>,
    j: int,
    cur: Seq<Entry<'a>>,
    ks: Seq<Seq<u8>>,
    q: int,
    v: TomlValue<'a>,
    k: int,
    t: Shape<'a>,
)
    requires
        dotted_spec(s, j) == Ok::<(Seq<Seq<u8>>, int), TomlErrorKind>((ks, q)),
        value_at(s, skip_inline_from(s, q + 1), v, k, t),
        blocked(cur, ks, Action::Assign(v)) || !(0 <= skip_inline_from(s, k) < s.len() && (s[skip_inline_from(s, k)]
            == 0x2C || s[skip_inline_from(s, k)] == 0x7D)),
    ensures
        table_stuck(s, j, cur),
{
    assert forall|b: Seq<Entry<'a>>, after: Seq<Entry<'a>>, e: int, en: Seq<int>, kd: Seq<Shape<'a>>, vl: Seq<TomlValue<'a>>, md: Seq<Seq<Entry<'a>>>|
        same_entries(b, cur) implies !(#[trigger] entries_at(s, j, b, after, e, en, kd, vl, md)) by {
        if entries_at(s, j, b, after, e, en, kd, vl, md) {
            lemma_value_unique(s, skip_inline_from(s, q + 1), vl[0], en[0], kd[0], v, k, t);
            crate::shape::lemma_blocked_congr(b, cur, ks, Action::Assign(vl[0]), Action::Assign(v));
        }
    }
}

/// One more element before the rest of an array.
proof fn lemma_items_step<'a>(
    s: Seq<u8>,
    i: int,
    j: int,
    k: int,
    m: int,
    v: TomlValue<'a>,
    t: Shape<'a>,
    tail: Seq<TomlValue<'a>>,
    e: int,
    tends: Seq<int>,
    tkids: Seq<Shape<'a>>,
)
    requires
        j == skip_ws_comments_from(s, i),
        0 <= i <= j < k <= s.len(),
        s[j] != 0x5D,
        value_at(s, j, v, k, t),
        m == skip_ws_comments_from(s, k),
        k <= m < s.len(),
        s[m] == 0x2C,
        items_at(s, m + 1, tail, e, tends, tkids),
    ensures
        items_at(s, i, seq![v] + tail, e, seq![k] + tends, seq![t] + tkids),
{
    assert((seq![v] + tail).drop_first() =~= tail);
    assert((seq![k] + tends).drop_first() =~= tends);
    assert((seq![t] + tkids).drop_first() =~= tkids);
    assert((seq![v] + tail)[0] == v);
    assert((seq![k] + tends)[0] == k);
    assert((seq![t] + tkids)[0] == t);
}

/// The last element of an array.
proof fn lemma_items_last<'a>(s: Seq<u8>, i: int, j: int, k: int, m: int, v: TomlValue<'a>, t: Shape<'a>)
    requires
        j == skip_ws_comments_from(s, i),
        0 <= i <= j < k <= s.len(),
        s[j] != 0x5D,
        value_at(s, j, v, k, t),
        m == skip_ws_comments_from(s, k),
        k <= m < s.len(),
        s[m] == 0x5D,
    ensures
        items_at(s, i, seq![v], m + 1, seq![k], seq![t]),
{
    assert(seq![v][0] == v);
    assert(seq![k][0] == k);
    assert(seq![t][0] == t);
}

/// One more `key = value` pair before the rest of an inline table.
proof fn lemma_entries_step<'a>(
    s: Seq<u8>,
    j: int,
    ks: Seq<Seq<u8>>,
    q: int,
    v: TomlValue<'a>,
    k: int,
    t: Shape<'a>,
    before: Seq<Entry<'a>>,
    mid: Seq<Entry<'a>>,
    m: int,
    after: Seq<Entry<'a>>,
    e: int,
    ends: Seq<int>,
    kids: Seq<Shape<'a>>,
    vals: Seq<TomlValue<'a>>,
    mids: Seq<Seq<Entry<'a>>>,
)
    requires
        dotted_spec(s, j) == Ok::<(Seq<Seq<u8>>, int), TomlErrorKind>((ks, q)),
        0 <= q < s.len(),
        s[q] == 0x3D,
        0 <= j < skip_inline_from(s, q + 1) < k <= s.len(),
        value_at(s, skip_inline_from(s, q + 1), v, k, t),
        !blocked(before, ks, Action::Assign(v)),
        done(before, ks, Action::Assign(v), mid),
        m == skip_inline_from(s, k),
        k <= m < s.len(),
        (s[m] == 0x7D && after == mid && e == m + 1 && ends.len() == 0 && kids.len() == 0 && vals.len() == 0
            && mids.len() == 0) || (s[m] == 0x2C && m < skip_inline_from(s, m + 1) <= s.len() && entries_at(
            s,
            skip_inline_from(s, m + 1),
            mid,
            after,
            e,
            ends,
            kids,
            vals,
            mids,
        )),
    ensures
        entries_at(s, j, before, after, e, seq![k] + ends, seq![t] + kids, seq![v] + vals, seq![mid] + mids),
{
    assert((seq![k] + ends).drop_first() =~= ends);
    assert((seq![t] + kids).drop_first() =~= kids);
    assert((seq![v] + vals).drop_first() =~= vals);
    assert((seq![mid] + mids).drop_first() =~= mids);
    assert((seq![k] + ends)[0] == k);
    assert((seq![t] + kids)[0] == t);
    assert((seq![v] + vals)[0] == v);
    assert((seq![mid] + mids)[0] == mid);
}

/// Parses the value under the cursor.
pub fn parse_value<'a>(text: &mut Text<'a>) -> (r: Result<TomlValue<'a>, TomlError<'a>>)
    requires
        old(text).wf(),
    ensures
        final(text).text == old(text).text,
        final(text).wf(),
        r is Ok ==> final(text).pos() > old(text).pos(),
        r matches Ok(v) ==> exists|t: Shape<'a>| value_at(old(text).bytes(), old(text).pos(), v, final(text).pos(), t),
        !(old(text).cur() == Some(0x5Bu8) || old(text).cur() == Some(0x7Bu8)) ==> scalar_parsed_as(
            old(text).bytes(),
            old(text).pos(),
            r,
            final(text).pos(),
        ),
        r is Err ==> forall|v: TomlValue<'a>, e: int, t: Shape<'a>| !value_at(old(text).bytes(), old(text).pos(), v, e, t),
        r matches Ok(v) ==> value_keys_unique(v),
        old(text).cur() matches Some(c) && !may_start_value(c) ==> r is Err && r->Err_0.src.start == old(text).pos()
            && r->Err_0.src.end == old(text).pos(),
        old(text).cur() == Some(0x5Bu8) ==> forall|kind: TomlErrorKind, it: Seq<TomlValue<'a>>, en: Seq<int>, kd: Seq<Shape<'a>>|
            #[trigger] items_stop(old(text).bytes(), old(text).pos() + 1, kind, it, en, kd) ==> (r is Err
                && r->Err_0.kind == kind),
        old(text).cur() == Some(0x7Bu8) ==> forall|kind: TomlErrorKind, en: Seq<int>, kd: Seq<Shape<'a>>, vl: Seq<TomlValue<'a>>, md: Seq<Seq<Entry<'a>>>|
            #[trigger] entries_stop(
                old(text).bytes(),
                skip_inline_from(old(text).bytes(), old(text).pos() + 1),
                Seq::empty(),
                kind,
                en,
                kd,
                vl,
                md,
            ) ==> (r is Err && r->Err_0.kind == kind),
    decreases old(text).bytes().len() - old(text).pos(), 1nat,
{
    let c = text.current_byte();
    if c == Some(0x5Bu8) {
        return parse_array(text);
    }
    if c == Some(0x7Bu8) {
        return parse_inline_table(text);
    }
    let ghost s = text.bytes();
    let ghost p = text.pos();
    let r = parse_scalar(text);
    proof {
        if r is Ok {
            assert(value_at(s, p, r->Ok_0, text.pos(), Shape::Leaf));
        } else {
            assert forall|v: TomlValue<'a>, e: int, t: Shape<'a>| !value_at(s, p, v, e, t) by {
                if value_at(s, p, v, e, t) {
                    assert(scalar_parsed_as(s, p, Ok(v), e));
                }
            }
        }
    }
    r
}

/// Parses a value that is neither an array nor an inline table.
fn parse_scalar<'a>(text: &mut Text<'a>) -> (r: Result<TomlValue<'a>, TomlError<'a>>)
    requires
        old(text).wf(),
        !(old(text).cur() == Some(0x5Bu8) || old(text).cur() == Some(0x7Bu8)),
    ensures
        final(text).text == old(text).text,
        final(text).wf(),
        r is Ok ==> final(text).pos() > old(text).pos(),
        scalar_parsed_as(old(text).bytes(), old(text).pos(), r, final(text).pos()),
        r matches Ok(v) ==> value_keys_unique(v),
        old(text).cur() matches Some(c) && !may_start_value(c) ==> r is Err && r->Err_0.src.start == old(text).pos()
            && r->Err_0.src.end == old(text).pos(),
{
    let start = text.idx();
    let c = match text.current_byte() {
        Some(c) => c,
        None => {
            return Err(TomlError { src: text.excerpt_before_idx(start), kind: TomlErrorKind::NoValueInAssignment });
        },
    };
    if c == 0x27 || c == 0x22 {
        let r = parse_string(text);
        return match r {
            Ok(cs) => Ok(TomlValue::String(TomlString::from_cow(cs))),
            Err(e) => Err(e),
        };
    }
    if c == 0x74 && text.byte_at(1) == Some(0x72u8) && text.byte_at(2) == Some(0x75u8) && text.byte_at(3) == Some(0x65u8) {
        text.next_n(4);
        return Ok(TomlValue::Boolean(true));
    }
    if c == 0x66 && text.byte_at(1) == Some(0x61u8) && text.byte_at(2) == Some(0x6Cu8) && text.byte_at(3) == Some(0x73u8)
        && text.byte_at(4) == Some(0x65u8) {
        text.next_n(5);
        return Ok(TomlValue::Boolean(false));
    }
    if c == 0x2B || c == 0x2D {
        return parse_sign(text);
    }
    let word = (c == 0x69 && text.byte_at(1) == Some(0x6Eu8) && text.byte_at(2) == Some(0x66u8)) || (c == 0x6E
        && text.byte_at(1) == Some(0x61u8) && text.byte_at(2) == Some(0x6Eu8));
    if (0x30 <= c && c <= 0x39) || word {
        return parse_number(text, false);
    }
    if c == 0x0A || c == 0x0D || c == 0x23 {
        return Err(TomlError { src: text.absolute_excerpt(start, start), kind: TomlErrorKind::NoValueInAssignment });
    }
    Err(TomlError { src: text.absolute_excerpt(start, start), kind: TomlErrorKind::UnrecognisedValue })
}

/// Parses an array literal `[ ... ]` under the cursor. Whitespace, newlines
/// and comments may stand between elements; a trailing comma is allowed.
#[verifier::rlimit(100)]
#[verifier::spinoff_prover]
pub fn parse_array<'a>(text: &mut Text<'a>) -> (r: Result<TomlValue<'a>, TomlError<'a>>)
    requires
        old(text).wf(),
        old(text).cur() == Some(0x5Bu8),
    ensures
        final(text).text == old(text).text,
        final(text).wf(),
        r is Ok ==> final(text).pos() > old(text).pos(),
        r matches Ok(v) ==> exists|t: Shape<'a>| value_at(old(text).bytes(), old(text).pos(), v, final(text).pos(), t),
        r is Err ==> forall|v: TomlValue<'a>, e: int, t: Shape<'a>| !value_at(old(text).bytes(), old(text).pos(), v, e, t),
        r matches Ok(v) ==> value_keys_unique(v),
        forall|kind: TomlErrorKind, it: Seq<TomlValue<'a>>, en: Seq<int>, kd: Seq<Shape<'a>>|
            #[trigger] items_stop(old(text).bytes(), old(text).pos() + 1, kind, it, en, kd) ==> (r is Err
                && r->Err_0.kind == kind),
    decreases old(text).bytes().len() - old(text).pos(), 0nat,
{
    let ghost s = text.bytes();
    let start = text.idx();
    text.next();
    let mut array: Vec<TomlValue<'a>> = Vec::new();
    proof {
        lemma_stop_start(s, start as int, array@);
    }
    let ghost mut ends: Seq<int> = Seq::empty();
    let ghost mut kids: Seq<Shape<'a>> = Seq::empty();
    assert forall|tail: Seq<TomlValue<'a>>, e: int, tends: Seq<int>, tkids: Seq<Shape<'a>>|
        items_at(s, text.pos(), tail, e, tends, tkids) implies items_at(
        s,
        start + 1,
        array@ + tail,
        e,
        ends + tends,
        kids + tkids,
    ) by {
        assert(array@ + tail =~= tail);
        assert(ends + tends =~= tends);
        assert(kids + tkids =~= tkids);
    }
    proof {
        reveal(array_resumes);
        assert forall|it: Seq<TomlValue<'a>>, e: int, en: Seq<int>, kd: Seq<Shape<'a>>|
            #[trigger] items_at(s, start + 1, it, e, en, kd) implies items_at(
            s,
            text.pos(),
            it.subrange(0, it.len() as int),
            e,
            en.subrange(0, en.len() as int),
            kd.subrange(0, kd.len() as int),
        ) by {
            assert(it.subrange(0, it.len() as int) =~= it);
            assert(en.subrange(0, en.len() as int) =~= en);
            assert(kd.subrange(0, kd.len() as int) =~= kd);
        }
        assert(array_resumes(s, start as int, array@, text.pos()));
    }
    loop
        invariant
            text.text == old(text).text,
            text.wf(),
            s == text.bytes(),
            start == old(text).pos(),
            text.pos() > start,
            s[start as int] == 0x5B,
            array_resumes(s, start as int, array@, text.pos()),
            stop_resumes(s, start as int, array@, text.pos()),
            forall|x: int| 0 <= x < array@.len() ==> value_keys_unique(#[trigger] array@[x]),
            forall|tail: Seq<TomlValue<'a>>, e: int, tends: Seq<int>, tkids: Seq<Shape<'a>>|
                #[trigger] items_at(s, text.pos(), tail, e, tends, tkids) ==> items_at(
                    s,
                    start + 1,
                    array@ + tail,
                    e,
                    ends + tends,
                    kids + tkids,
                ),
        decreases s.len() - text.pos(),
    {
        let ghost i = text.pos();
        proof {
            crate::text::lemma_skip_ws_comments_bounds(s, text.pos());
        }
        text.skip_whitespace();
        let ghost j = text.pos();
        proof {
            lemma_stop_head(s, start as int, array@, i);
        }
        match text.current_byte() {
            None => {
                proof {
                    lemma_array_stuck(s, start as int, array@, i);
                }
                return Err(TomlError { src: text.excerpt_before_idx(start), kind: TomlErrorKind::UnclosedArrayBracket });
            },
            Some(0x5Du8) => {
                text.next();
                proof {
                    assert(items_at(s, i, Seq::empty(), j + 1, Seq::empty(), Seq::empty()));
                    assert(array@ + Seq::<TomlValue<'a>>::empty() =~= array@);
                    assert(ends + Seq::<int>::empty() =~= ends);
                    assert(kids + Seq::<Shape<'a>>::empty() =~= kids);
                    assert(value_at(s, start as int, TomlValue::Array(array, false), j + 1, Shape::Items(ends, kids)));
                }
                return Ok(TomlValue::Array(array, false));
            },
            Some(_) => {},
        }
        let ghost n0: int = array@.len() as int;
        let v = match parse_value(text) {
            Ok(v) => v,
            Err(e) => {
                proof {
                    lemma_array_stuck(s, start as int, array@, i);
                }
                return Err(e);
            },
        };
        let ghost k = text.pos();
        let ghost t = choose|t: Shape<'a>| value_at(s, j, v, k, t);
        proof {
            crate::text::lemma_skip_ws_comments_bounds(s, k);
            lemma_stop_after(s, start as int, array@, i, v, k, t);
        }
        let ghost before = array@;
        let ghost ends0 = ends;
        let ghost kids0 = kids;
        proof {
            lemma_array_advance(s, start as int, array@, i, v, k, t);
        }
        array.push(v);
        proof {
            ends = ends.push(k);
            kids = kids.push(t);
            crate::text::lemma_skip_ws_comments_bounds(s, text.pos());
        }
        text.skip_whitespace();
        let ghost m = text.pos();
        match text.current_byte() {
            Some(0x2Cu8) => {
                text.next();
                proof {
                    lemma_array_resume_comma(s, start as int, before, v, k);
                    assert(before.push(v) == array@);
                    assert forall|tail: Seq<TomlValue<'a>>, e: int, tends: Seq<int>, tkids: Seq<Shape<'a>>|
                        #[trigger] items_at(s, text.pos(), tail, e, tends, tkids) implies items_at(
                        s,
                        start + 1,
                        array@ + tail,
                        e,
                        ends + tends,
                        kids + tkids,
                    ) by {
                        lemma_items_step(s, i, j, k, m, v, t, tail, e, tends, tkids);
                        assert(before + (seq![v] + tail) =~= array@ + tail);
                        assert(ends0 + (seq![k] + tends) =~= ends + tends);
                        assert(kids0 + (seq![t] + tkids) =~= kids + tkids);
                    }
                }
            },
            Some(0x5Du8) => {
                text.next();
                proof {
                    lemma_items_last(s, i, j, k, m, v, t);
                    assert(before + seq![v] =~= array@);
                    assert(ends0 + seq![k] =~= ends);
                    assert(kids0 + seq![t] =~= kids);
                    assert(value_at(s, start as int, TomlValue::Array(array, false), m + 1, Shape::Items(ends, kids)));
                }
                return Ok(TomlValue::Array(array, false));
            },
            None => {
                proof {
                    lemma_array_stuck_after(s, start as int, before, k);
                }
                return Err(TomlError { src: text.excerpt_before_idx(start), kind: TomlErrorKind::UnclosedArrayBracket });
            },
            Some(_) => {
                proof {
                    lemma_array_stuck_after(s, start as int, before, k);
                }
                return Err(TomlError { src: text.excerpt_to_idx(start), kind: TomlErrorKind::NoCommaDelimeter });
            },
        }
    }
}

/// Parses an inline table `{ k = v, ... }` under the cursor, on one line; it
/// comes out closed to later headers and dotted keys.
#[verifier::rlimit(100)]
#[verifier::spinoff_prover]
pub fn parse_inline_table<'a>(text: &mut Text<'a>) -> (r: Result<TomlValue<'a>, TomlError<'a>>)
    requires
        old(text).wf(),
        old(text).cur() == Some(0x7Bu8),
    ensures
        final(text).text == old(text).text,
        final(text).wf(),
        r is Ok ==> final(text).pos() > old(text).pos(),
        r matches Ok(v) ==> exists|t: Shape<'a>| value_at(old(text).bytes(), old(text).pos(), v, final(text).pos(), t),
        r is Err ==> forall|v: TomlValue<'a>, e: int, t: Shape<'a>| !value_at(old(text).bytes(), old(text).pos(), v, e, t),
        r matches Ok(v) ==> value_keys_unique(v),
        forall|kind: TomlErrorKind, en: Seq<int>, kd: Seq<Shape<'a>>, vl: Seq<TomlValue<'a>>, md: Seq<Seq<Entry<'a>>>|
            #[trigger] entries_stop(
                old(text).bytes(),
                skip_inline_from(old(text).bytes(), old(text).pos() + 1),
                Seq::empty(),
                kind,
                en,
                kd,
                vl,
                md,
            ) ==> (r is Err && r->Err_0.kind == kind),
    decreases old(text).bytes().len() - old(text).pos(), 0nat,
{
    let ghost s = text.bytes();
    let start = text.idx();
    text.next();
    let mut table: TomlTable<'a> = empty_table(TableOrigin::Inline);
    proof {
        crate::text::lemma_skip_inline_bounds(s, text.pos());
    }
    text.skip_inline_whitespace();
    let ghost j0 = text.pos();
    if text.current_byte() == Some(0x7Du8) {
        proof {
            assert(crate::key::key_spec(s, j0) is Err);
        }
        text.next();
        proof {
            assert(table.entries@ =~= Seq::<Entry<'a>>::empty());
            assert(value_at(
                s,
                start as int,
                TomlValue::Table(table),
                text.pos(),
                Shape::Pairs(Seq::empty(), Seq::empty(), Seq::empty(), Seq::empty()),
            ));
        }
        proof {
            assert(tree_keys_unique(table.entries@));
        }
        return Ok(TomlValue::Table(table));
    }
    let ghost mut ends: Seq<int> = Seq::empty();
    let ghost mut kids: Seq<Shape<'a>> = Seq::empty();
    let ghost mut vals: Seq<TomlValue<'a>> = Seq::empty();
    let ghost mut mids: Seq<Seq<Entry<'a>>> = Seq::empty();
    assert(table.entries@ =~= Seq::<Entry<'a>>::empty());
    assert(tree_keys_unique(table.entries@));
    proof {
        lemma_tstop_start(s, j0, vals, table.entries@);
    }
    proof {
        reveal(table_resumes);
        assert forall|after: Seq<Entry<'a>>, e: int, en: Seq<int>, kd: Seq<Shape<'a>>, vl: Seq<TomlValue<'a>>, md: Seq<Seq<Entry<'a>>>|
            #[trigger] entries_at(s, j0, Seq::empty(), after, e, en, kd, vl, md) implies en.len() >= 0 && kd.len() >= 0
                && vl.len() >= 0 && md.len() >= 0 && same_entries(entries_before(md, 0), table.entries@) && entries_at(
                s,
                j0,
                entries_before(md, 0),
                after,
                e,
                en.subrange(0, en.len() as int),
                kd.subrange(0, kd.len() as int),
                vl.subrange(0, vl.len() as int),
                md.subrange(0, md.len() as int),
            ) by {
            assert(en.subrange(0, en.len() as int) =~= en);
            assert(kd.subrange(0, kd.len() as int) =~= kd);
            assert(vl.subrange(0, vl.len() as int) =~= vl);
            assert(md.subrange(0, md.len() as int) =~= md);
            assert(same_entries(Seq::<Entry<'a>>::empty(), Seq::<Entry<'a>>::empty()));
        }
        assert(vals.len() == 0);
        assert(table_resumes(s, j0, vals, text.pos(), table.entries@));
    }
    assert forall|after: Seq<Entry<'a>>, e: int, te: Seq<int>, tk: Seq<Shape<'a>>, tv: Seq<TomlValue<'a>>, tm: Seq<Seq<Entry<'a>>>|
        #[trigger] entries_at(s, text.pos(), table.entries@, after, e, te, tk, tv, tm) implies entries_at(
        s,
        j0,
        Seq::empty(),
        after,
        e,
        ends + te,
        kids + tk,
        vals + tv,
        mids + tm,
    ) by {
        assert(ends + te =~= te);
        assert(kids + tk =~= tk);
        assert(vals + tv =~= tv);
        assert(mids + tm =~= tm);
    }
    loop
        invariant
            text.text == old(text).text,
            text.wf(),
            s == text.bytes(),
            start == old(text).pos(),
            text.pos() > start,
            s[start as int] == 0x7B,
            j0 == skip_inline_from(s, start + 1),
            start < j0 <= s.len(),
            !(0 <= j0 < s.len() && s[j0] == 0x7D),
            table.origin == TableOrigin::Inline,
            table_resumes(s, j0, vals, text.pos(), table.entries@),
            tstop_resumes(s, j0, vals, text.pos(), table.entries@),
            tree_keys_unique(table.entries@),
            forall|after: Seq<Entry<'a>>, e: int, te: Seq<int>, tk: Seq<Shape<'a>>, tv: Seq<TomlValue<'a>>, tm: Seq<Seq<Entry<'a>>>|
                #[trigger] entries_at(s, text.pos(), table.entries@, after, e, te, tk, tv, tm) ==> entries_at(
                    s,
                    j0,
                    Seq::empty(),
                    after,
                    e,
                    ends + te,
                    kids + tk,
                    vals + tv,
                    mids + tm,
                ),
        decreases s.len() - text.pos(),
    {
        let here = text.idx();
        proof {
            lemma_tstop_head(s, j0, vals, here as int, table.entries@);
        }
        if text.current_byte().is_none() {
            proof {
                assert(crate::key::key_spec(s, here as int) is Err);
                lemma_table_stuck_pair(s, here as int, table.entries@);
            }
            proof {
                lemma_table_stuck(s, start as int, vals, here as int, table.entries@);
            }
            return Err(TomlError { src: text.excerpt_before_idx(start), kind: TomlErrorKind::UnclosedInlineTableBracket });
        }
        let keys = match parse_dotted_key(text) {
            Ok(k) => k,
            Err(e) => {
                proof {
                    lemma_table_stuck_pair(s, here as int, table.entries@);
                }
                proof {
                lemma_table_stuck(s, start as int, vals, here as int, table.entries@);
            }
                return Err(e);
            },
        };
        let ghost ks = key_texts(keys@);
        let ghost q = text.pos();
        if text.current_byte() != Some(0x3Du8) {
            proof {
                lemma_table_stuck_pair(s, here as int, table.entries@);
            }
            proof {
                lemma_table_stuck(s, start as int, vals, here as int, table.entries@);
            }
            return Err(TomlError { src: text.excerpt_to_idx(here), kind: TomlErrorKind::NoEqualsInAssignment });
        }
        text.next();
        proof {
            crate::text::lemma_skip_inline_bounds(s, text.pos());
        }
        text.skip_inline_whitespace();
        let ghost r0 = text.pos();
        let v = match parse_value(text) {
            Ok(v) => v,
            Err(e) => {
                proof {
                    lemma_table_stuck_pair(s, here as int, table.entries@);
                }
                proof {
                lemma_table_stuck(s, start as int, vals, here as int, table.entries@);
            }
                return Err(e);
            },
        };
        let ghost k = text.pos();
        let ghost vv = v;
        let ghost t = choose|t: Shape<'a>| value_at(s, r0, vv, k, t);
        let ghost before = table.entries@;
        proof {
            crate::text::lemma_skip_inline_bounds(s, k);
            lemma_tstop_after(s, j0, vals, here as int, before, ks, q, vv, k, t, before);
        }
        if insert_path(&mut table.entries, keys, Action::Assign(v)).is_err() {
            proof {
                lemma_table_stuck_after(s, here as int, before, ks, q, vv, k, t);
                lemma_table_stuck(s, start as int, vals, here as int, before);
            }
            return Err(TomlError { src: text.excerpt_before_idx(here), kind: TomlErrorKind::ReusedKey });
        }
        let ghost mid = table.entries@;
        proof {
            lemma_tstop_after(s, j0, vals, here as int, before, ks, q, vv, k, t, mid);
        }
        proof {
            lemma_tree_keys_stay_unique(before, ks, Action::Assign(vv), mid);
        }
        let ghost (ends0, kids0, vals0, mids0) = (ends, kids, vals, mids);
        proof {
            ends = ends.push(k);
            kids = kids.push(t);
            vals = vals.push(vv);
            mids = mids.push(mid);
            crate::text::lemma_skip_inline_bounds(s, text.pos());
        }
        text.skip_inline_whitespace();
        let ghost m = text.pos();
        match text.current_byte() {
            Some(0x2Cu8) => {
                text.next();
                proof {
                    crate::text::lemma_skip_inline_bounds(s, text.pos());
                }
                text.skip_inline_whitespace();
                proof {
                    lemma_table_advance(s, j0, vals0, here as int, before, ks, q, vv, k, t, mid);
                    assert(vals0.push(vv) == vals);
                    assert forall|after: Seq<Entry<'a>>, e: int, te: Seq<int>, tk: Seq<Shape<'a>>, tv: Seq<TomlValue<'a>>, tm: Seq<Seq<Entry<'a>>>|
                        #[trigger] entries_at(s, text.pos(), table.entries@, after, e, te, tk, tv, tm) implies entries_at(
                        s,
                        j0,
                        Seq::empty(),
                        after,
                        e,
                        ends + te,
                        kids + tk,
                        vals + tv,
                        mids + tm,
                    ) by {
                        lemma_entries_step(s, here as int, ks, q, vv, k, t, before, mid, m, after, e, te, tk, tv, tm);
                        assert(ends0 + (seq![k] + te) =~= ends + te);
                        assert(kids0 + (seq![t] + tk) =~= kids + tk);
                        assert(vals0 + (seq![vv] + tv) =~= vals + tv);
                        assert(mids0 + (seq![mid] + tm) =~= mids + tm);
                    }
                }
            },
            Some(0x7Du8) => {
                text.next();
                proof {
                    lemma_entries_step(
                        s,
                        here as int,
                        ks,
                        q,
                        vv,
                        k,
                        t,
                        before,
                        mid,
                        m,
                        mid,
                        m + 1,
                        Seq::empty(),
                        Seq::empty(),
                        Seq::empty(),
                        Seq::empty(),
                    );
                    assert(ends0 + (seq![k] + Seq::<int>::empty()) =~= ends);
                    assert(kids0 + (seq![t] + Seq::<Shape<'a>>::empty()) =~= kids);
                    assert(vals0 + (seq![vv] + Seq::<TomlValue<'a>>::empty()) =~= vals);
                    assert(mids0 + (seq![mid] + Seq::<Seq<Entry<'a>>>::empty()) =~= mids);
                    assert(value_at(s, start as int, TomlValue::Table(table), m + 1, Shape::Pairs(ends, kids, vals, mids)));
                }
                return Ok(TomlValue::Table(table));
            },
            None => {
                proof {
                    lemma_table_stuck_after(s, here as int, before, ks, q, vv, k, t);
                    lemma_table_stuck(s, start as int, vals0, here as int, before);
                }
                return Err(TomlError { src: text.excerpt_before_idx(start), kind: TomlErrorKind::UnclosedInlineTableBracket });
            },
            Some(_) => {
                proof {
                    lemma_table_stuck_after(s, here as int, before, ks, q, vv, k, t);
                    lemma_table_stuck(s, start as int, vals0, here as int, before);
                }
                return Err(TomlError { src: text.excerpt_to_idx(start), kind: TomlErrorKind::UnclosedInlineTableBracket });
            },
        }
    }
}

} // verus!
