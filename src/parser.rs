//! The top-level walker: headers rebind the table that key/value lines fill.

use vstd::prelude::*;

use crate::key::{dotted_spec, key_texts, parse_dotted_key};
use crate::table::{Action, Entry, blocked, done, empty_table, insert_path, keys_unique};
use crate::laws::{lemma_keys_stay_unique, lemma_tree_keys_stay_unique, tree_keys_unique};
use crate::text::{CowSpan, Text, skip_inline_from, skip_ws_comments_from};
use crate::types::{TableOrigin, TomlTable, TomlValue};
use vstd::string::StringSliceAdditionalSpecFns;
use crate::value::{Shape, parse_value, value_at};
use crate::shape::same_entries;
use crate::{TomlError, TomlErrorKind};

verus! {

/// A copy of a byte string.
fn copy_bytes(v: &[u8]) -> (r: Vec<u8>)
    ensures
        r@ == v@,
{
    let mut out: Vec<u8> = Vec::new();
    let mut i: usize = 0;
    while i < v.len()
        invariant
            i <= v@.len(),
            out@ == v@.subrange(0, i as int),
        decreases v@.len() - i,
    {
        out.push(v[i]);
        i = i + 1;
        assert(out@ =~= v@.subrange(0, i as int));
    }
    assert(v@.subrange(0, i as int) =~= v@);
    out
}

/// A copy of a key segment, with the same text and span.
pub fn copy_key<'a>(k: &CowSpan<'a>) -> (r: CowSpan<'a>)
    ensures
        r.content() == k.content(),
        r.wf() == k.wf(),
{
    match k {
        CowSpan::Raw(s) => CowSpan::Raw(*s),
        CowSpan::Modified(s, v) => CowSpan::Modified(*s, copy_bytes(v.as_slice())),
    }
}

/// A copy of a key path.
pub fn copy_keys<'a>(keys: &Vec<CowSpan<'a>>) -> (r: Vec<CowSpan<'a>>)
    ensures
        r@.len() == keys@.len(),
        key_texts(r@) == key_texts(keys@),
{
    let mut out: Vec<CowSpan<'a>> = Vec::new();
    let mut i: usize = 0;
    while i < keys.len()
        invariant
            i <= keys@.len(),
            out@.len() == i,
            forall|j: int| 0 <= j < i ==> (#[trigger] out@[j]).content() == keys@[j].content(),
        decreases keys@.len() - i,
    {
        let k = copy_key(&keys[i]);
        out.push(k);
        i = i + 1;
    }
    assert(key_texts(out@) =~= key_texts(keys@));
    out
}

/// The syntax of a header whose `[` stands at `p`: the key path and the
/// index after the closing bracket(s), or the error.
pub open spec fn header_spec(s: Seq<u8>, p: int) -> Result<(Seq<Seq<u8>>, int), TomlErrorKind> {
    let is_array = p + 1 < s.len() && s[p + 1] == 0x5B;
    let q = skip_inline_from(s, if is_array { p + 2 } else { p + 1 });
    match dotted_spec(s, q) {
        Err(k) => Err(k),
        Ok((ks, e)) => if is_array {
            if e + 1 < s.len() && s[e] == 0x5D && s[e + 1] == 0x5D {
                Ok((ks, e + 2))
            } else {
                Err(TomlErrorKind::UnclosedArrayOfTablesBracket)
            }
        } else {
            if 0 <= e < s.len() && s[e] == 0x5D {
                Ok((ks, e + 1))
            } else {
                Err(TomlErrorKind::UnclosedTableBracket)
            }
        },
    }
}

/// The action that the header at `p` takes.
pub open spec fn header_action<'a>(s: Seq<u8>, p: int) -> Action<'a> {
    if p + 1 < s.len() && s[p + 1] == 0x5B {
        Action::ArrayHeader
    } else {
        Action::Header
    }
}

/// The value after the `=` at `q` is `v` (passing through `t`) and ends at
/// `k`; taken in along `path`, it turns the entries `before` into `mid`.
pub open spec fn assigned<'a>(
    s: Seq<u8>,
    q: int,
    path: Seq<Seq<u8>>,
    before: Seq<Entry<'a>>,
    v: TomlValue<'a>,
    t: Shape<'a>,
    k: int,
    mid: Seq<Entry<'a>>,
) -> bool {
    &&& q < skip_inline_from(s, q + 1) < k <= s.len()
    &&& value_at(s, skip_inline_from(s, q + 1), v, k, t)
    &&& !blocked(before, path, Action::Assign(v))
    &&& done(before, path, Action::Assign(v), mid)
}

/// No value after the `=` at `q` can be taken in along `path` into entries
/// of the structure of `cur`: none can be read, or the path is blocked.
pub open spec fn assign_stuck<'a>(s: Seq<u8>, q: int, path: Seq<Seq<u8>>, cur: Seq<Entry<'a>>) -> bool {
    forall|v: TomlValue<'a>, k: int, t: Shape<'a>|
        #[trigger] value_at(s, skip_inline_from(s, q + 1), v, k, t) ==> blocked(cur, path, Action::Assign(v))
}

/// A value that is blocked blocks every parse of the same bytes.
proof fn lemma_assign_blocked<'a>(
    s: Seq<u8>,
    q: int,
    path: Seq<Seq<u8>>,
    cur: Seq<Entry<'a>>,
    v: TomlValue<'a>,
    k: int,
    t: Shape<'a>,
)
    requires
        path.len() >= 1,
        value_at(s, skip_inline_from(s, q + 1), v, k, t),
        blocked(cur, path, Action::Assign(v)),
    ensures
        assign_stuck(s, q, path, cur),
{
    assert forall|v2: TomlValue<'a>, k2: int, t2: Shape<'a>|
        #[trigger] value_at(s, skip_inline_from(s, q + 1), v2, k2, t2) implies blocked(cur, path, Action::Assign(v2)) by {
        crate::value::lemma_value_unique(s, skip_inline_from(s, q + 1), v2, k2, t2, v, k, t);
        crate::shape::lemma_blocked_any_value(cur, path, v2, v);
    }
}

/// One statement of a document, as a parse passes through it.
pub enum Statement<'a> {
    /// A header ending at the index, which left the root entries given.
    Header(int, Seq<Entry<'a>>),
    /// An assignment of the value (with its shape) ending at the index, which
    /// left the root entries given.
    Assign(TomlValue<'a>, Shape<'a>, int, Seq<Entry<'a>>),
}

/// The statements from `i` on, under the header path `hdr`, turn the root
/// entries `before` into `after`, passing through `stmts`. Whitespace,
/// newlines and comments may stand between statements.
pub open spec fn doc_from<'a>(
    s: Seq<u8>,
    i: int,
    hdr: Seq<Seq<u8>>,
    before: Seq<Entry<'a>>,
    after: Seq<Entry<'a>>,
    stmts: Seq<Statement<'a>>,
) -> bool
    decreases s.len() - i,
{
    let j = skip_ws_comments_from(s, i);
    if !(0 <= i <= j <= s.len()) {
        false
    } else if j == s.len() {
        after == before && stmts.len() == 0
    } else if stmts.len() == 0 {
        false
    } else if s[j] == 0x5B {
        match stmts[0] {
            Statement::Header(e, mid) => match header_spec(s, j) {
                Ok((ks, e2)) => e == e2 && j < e <= s.len() && !blocked(before, ks, header_action(s, j)) && done(
                    before,
                    ks,
                    header_action(s, j),
                    mid,
                ) && doc_from(s, e, ks, mid, after, stmts.drop_first()),
                Err(_) => false,
            },
            _ => false,
        }
    } else {
        match stmts[0] {
            Statement::Assign(v, t, k, mid) => match dotted_spec(s, j) {
                Ok((ks, q)) => 0 <= q < s.len() && s[q] == 0x3D && j < k && assigned(s, q, hdr + ks, before, v, t, k, mid)
                    && doc_from(s, k, hdr, mid, after, stmts.drop_first()),
                Err(_) => false,
            },
            _ => false,
        }
    }
}

/// Parses a `[header]` or `[[header]]` line under the cursor and applies it
/// to the root table. Returns the header's key path.
fn parse_header<'a>(text: &mut Text<'a>, root: &mut TomlTable<'a>) -> (r: Result<Vec<CowSpan<'a>>, TomlError<'a>>)
    requires
        old(text).wf(),
        old(text).cur() == Some(0x5Bu8),
    ensures
        final(text).text == old(text).text,
        final(text).wf(),
        r is Ok ==> final(text).pos() > old(text).pos(),
        final(root).origin == old(root).origin,
        match header_spec(old(text).bytes(), old(text).pos()) {
            Err(k) => r is Err && r->Err_0.kind == k,
            Ok((ks, e)) => if blocked(old(root).entries@, ks, header_action(old(text).bytes(), old(text).pos())) {
                r is Err && r->Err_0.kind == TomlErrorKind::ReusedKey && r->Err_0.src.start == old(text).pos()
                    && r->Err_0.src.end == e - 1 && e >= old(text).pos() + 3
            } else {
                r matches Ok(keys) && key_texts(keys@) == ks && keys@.len() >= 1 && final(text).pos() == e
                    && done(
                    old(root).entries@,
                    ks,
                    header_action(old(text).bytes(), old(text).pos()),
                    final(root).entries@,
                )
            },
        },
        tree_keys_unique(old(root).entries@) && r is Ok ==> tree_keys_unique(final(root).entries@),
{
    let start = text.idx();
    let is_array = text.next_byte() == Some(0x5Bu8);
    if is_array {
        text.next_n(2);
    } else {
        text.next();
    }
    proof {
        crate::text::lemma_skip_inline_bounds(text.bytes(), text.pos());
    }
    text.skip_inline_whitespace();
    let keys = match parse_dotted_key(text) {
        Ok(k) => k,
        Err(e) => {
            return Err(e);
        },
    };
    if is_array {
        if text.current_byte() != Some(0x5Du8) || text.next_byte() != Some(0x5Du8) {
            return Err(TomlError { src: text.excerpt_to_idx(start), kind: TomlErrorKind::UnclosedArrayOfTablesBracket });
        }
        text.next_n(2);
    } else {
        if text.current_byte() != Some(0x5Du8) {
            return Err(TomlError { src: text.excerpt_to_idx(start), kind: TomlErrorKind::UnclosedTableBracket });
        }
        text.next();
    }
    let path = copy_keys(&keys);
    let act = if is_array { Action::ArrayHeader } else { Action::Header };
    let ghost before = root.entries@;
    let ghost hact = act;
    let ghost ks = key_texts(path@);
    if insert_path(&mut root.entries, path, act).is_err() {
        return Err(TomlError { src: text.excerpt_before_idx(start), kind: TomlErrorKind::ReusedKey });
    }
    proof {
        if tree_keys_unique(before) {
            lemma_tree_keys_stay_unique(before, ks, hact, root.entries@);
        }
    }
    Ok(keys)
}

/// Parses a `key = value` line under the cursor and inserts it under the
/// current header's path.
fn parse_assignment<'a>(text: &mut Text<'a>, root: &mut TomlTable<'a>, header: &Vec<CowSpan<'a>>) -> (r: Result<(), TomlError<'a>>)
    requires
        old(text).wf(),
    ensures
        final(text).text == old(text).text,
        final(text).wf(),
        r is Ok ==> final(text).pos() > old(text).pos(),
        final(root).origin == old(root).origin,
        match dotted_spec(old(text).bytes(), old(text).pos()) {
            Err(k) => r is Err && r->Err_0.kind == k,
            Ok((ks, e)) => if !(0 <= e < old(text).bytes().len() && old(text).bytes()[e] == 0x3D) {
                r is Err && r->Err_0.kind == TomlErrorKind::NoEqualsInAssignment
            } else {
                &&& (r is Ok ==> exists|v: TomlValue<'a>, t: Shape<'a>|
                    #[trigger] assigned(
                        old(text).bytes(),
                        e,
                        key_texts(header@) + ks,
                        old(root).entries@,
                        v,
                        t,
                        final(text).pos(),
                        final(root).entries@,
                    ))
                &&& (r is Err ==> assign_stuck(old(text).bytes(), e, key_texts(header@) + ks, old(root).entries@))
                &&& (r is Err && (exists|v: TomlValue<'a>, k: int, t: Shape<'a>|
                    #[trigger] value_at(old(text).bytes(), skip_inline_from(old(text).bytes(), e + 1), v, k, t))
                    ==> r->Err_0.kind == TomlErrorKind::ReusedKey && r->Err_0.src.start == old(text).pos()
                    && r->Err_0.src.end >= old(text).pos() + 2)
            },
        },
        tree_keys_unique(old(root).entries@) && r is Ok ==> tree_keys_unique(final(root).entries@),
{
    let start = text.idx();
    let keys = match parse_dotted_key(text) {
        Ok(k) => k,
        Err(e) => {
            return Err(e);
        },
    };
    if text.current_byte() != Some(0x3Du8) {
        return Err(TomlError { src: text.excerpt_to_idx(start), kind: TomlErrorKind::NoEqualsInAssignment });
    }
    let ghost eq = text.pos();
    text.next();
    proof {
        crate::text::lemma_skip_inline_bounds(text.bytes(), text.pos());
    }
    text.skip_inline_whitespace();
    let ghost vpos = text.pos();
    let value = match parse_value(text) {
        Ok(v) => v,
        Err(e) => {
            return Err(e);
        },
    };
    let ghost vend = text.pos();
    let mut path = copy_keys(header);
    let ghost hk = path@;
    let mut keys = keys;
    let ghost kk = keys@;
    path.append(&mut keys);
    proof {
        assert(key_texts(path@) =~= key_texts(header@) + key_texts(kk));
    }
    let ghost v = value;
    let ghost t = choose|t: Shape<'a>| value_at(text.bytes(), vpos, v, text.pos(), t);
    if insert_path(&mut root.entries, path, Action::Assign(value)).is_err() {
        proof {
            lemma_assign_blocked(text.bytes(), eq, key_texts(header@) + key_texts(kk), old(root).entries@, v, vend, t);
        }
        return Err(TomlError { src: text.excerpt_before_idx(start), kind: TomlErrorKind::ReusedKey });
    }
    assert(assigned(text.bytes(), eq, key_texts(header@) + key_texts(kk), old(root).entries@, v, t, text.pos(), root.entries@));
    proof {
        if tree_keys_unique(old(root).entries@) {
            lemma_tree_keys_stay_unique(old(root).entries@, key_texts(header@) + key_texts(kk), Action::Assign(v), root.entries@);
        }
    }
    Ok(())
}

/// The root entries after the first `n` statements of a parse.
pub open spec fn state_after<'a>(stmts: Seq<Statement<'a>>, n: int) -> Seq<Entry<'a>> {
    if n <= 0 {
        Seq::empty()
    } else {
        match stmts[n - 1] {
            Statement::Header(_, mid) => mid,
            Statement::Assign(_, _, _, mid) => mid,
        }
    }
}

/// Every parse of the whole document reads `n` statements and then goes on
/// from `i`, under the header path `hdr`, with root entries that agree in
/// structure with `cur`.
#[verifier::opaque]
pub open spec fn doc_resumes<'a>(s: Seq<u8>, n: int, i: int, hdr: Seq<Seq<u8>>, cur: Seq<Entry<'a>>) -> bool {
    forall|after: Seq<Entry<'a>>, stmts: Seq<Statement<'a>>|
        #[trigger] doc_from(s, 0, Seq::empty(), Seq::empty(), after, stmts) ==> stmts.len() >= n && same_entries(
            state_after(stmts, n),
            cur,
        ) && doc_from(s, i, hdr, state_after(stmts, n), after, stmts.subrange(n, stmts.len() as int))
}

/// No parse of the statements from `i` exists, from root entries of the
/// structure of `cur`.
pub open spec fn doc_stuck<'a>(s: Seq<u8>, i: int, hdr: Seq<Seq<u8>>, cur: Seq<Entry<'a>>) -> bool {
    forall|b: Seq<Entry<'a>>, after: Seq<Entry<'a>>, stmts: Seq<Statement<'a>>|
        same_entries(b, cur) ==> !(#[trigger] doc_from(s, i, hdr, b, after, stmts))
}

proof fn lemma_doc_no_parse<'a>(s: Seq<u8>, n: int, i: int, hdr: Seq<Seq<u8>>, cur: Seq<Entry<'a>>)
    requires
        n >= 0,
        doc_resumes(s, n, i, hdr, cur),
        doc_stuck(s, i, hdr, cur),
    ensures
        forall|after: Seq<Entry<'a>>, stmts: Seq<Statement<'a>>| !doc_from(s, 0, Seq::empty(), Seq::empty(), after, stmts),
{
    reveal(doc_resumes);
    assert forall|after: Seq<Entry<'a>>, stmts: Seq<Statement<'a>>| !doc_from(s, 0, Seq::empty(), Seq::empty(), after, stmts) by {
        if doc_from(s, 0, Seq::empty(), Seq::empty(), after, stmts) {
            assert(!doc_from(s, i, hdr, state_after(stmts, n), after, stmts.subrange(n, stmts.len() as int)));
        }
    }
}

/// A header statement that cannot be read or is blocked stops every parse.
proof fn lemma_doc_stuck_header<'a>(s: Seq<u8>, i: int, hdr: Seq<Seq<u8>>, cur: Seq<Entry<'a>>)
    requires
        0 <= i <= skip_ws_comments_from(s, i) < s.len(),
        s[skip_ws_comments_from(s, i)] == 0x5B,
        match header_spec(s, skip_ws_comments_from(s, i)) {
            Err(_) => true,
            Ok((ks, e)) => ks.len() >= 1 && blocked(cur, ks, header_action(s, skip_ws_comments_from(s, i))),
        },
    ensures
        doc_stuck(s, i, hdr, cur),
{
    let j = skip_ws_comments_from(s, i);
    assert forall|b: Seq<Entry<'a>>, after: Seq<Entry<'a>>, stmts: Seq<Statement<'a>>|
        same_entries(b, cur) implies !(#[trigger] doc_from(s, i, hdr, b, after, stmts)) by {
        if header_spec(s, j) is Ok {
            let (ks, e) = header_spec(s, j).unwrap();
            crate::shape::lemma_blocked_congr(b, cur, ks, header_action(s, j), header_action(s, j));
        }
    }
}

/// An assignment statement that cannot be read or is blocked stops every
/// parse.
proof fn lemma_doc_stuck_assign<'a>(s: Seq<u8>, i: int, hdr: Seq<Seq<u8>>, cur: Seq<Entry<'a>>)
    requires
        0 <= i <= skip_ws_comments_from(s, i) < s.len(),
        s[skip_ws_comments_from(s, i)] != 0x5B,
        match dotted_spec(s, skip_ws_comments_from(s, i)) {
            Err(_) => true,
            Ok((ks, q)) => !(0 <= q < s.len() && s[q] == 0x3D) || (ks.len() >= 1 && assign_stuck(s, q, hdr + ks, cur)),
        },
    ensures
        doc_stuck(s, i, hdr, cur),
{
    let j = skip_ws_comments_from(s, i);
    assert forall|b: Seq<Entry<'a>>, after: Seq<Entry<'a>>, stmts: Seq<Statement<'a>>|
        same_entries(b, cur) implies !(#[trigger] doc_from(s, i, hdr, b, after, stmts)) by {
        if doc_from(s, i, hdr, b, after, stmts) {
            let (ks, q) = dotted_spec(s, j).unwrap();
            let st = stmts[0];
            let (v, t, k, mid) = (st->Assign_0, st->Assign_1, st->Assign_2, st->Assign_3);
            assert(value_at(s, skip_inline_from(s, q + 1), v, k, t));
            crate::shape::lemma_blocked_congr(b, cur, hdr + ks, Action::Assign(v), Action::Assign(v));
        }
    }
}

/// A parse that resumes after a header statement.
proof fn lemma_doc_advance_header<'a>(
    s: Seq<u8>,
    n: int,
    i: int,
    hdr: Seq<Seq<u8>>,
    cur: Seq<Entry<'a>>,
    ks: Seq<Seq<u8>>,
    e: int,
    mid: Seq<Entry<'a>>,
)
    requires
        n >= 0,
        doc_resumes(s, n, i, hdr, cur),
        0 <= i <= skip_ws_comments_from(s, i) < s.len(),
        s[skip_ws_comments_from(s, i)] == 0x5B,
        header_spec(s, skip_ws_comments_from(s, i)) == Ok::<(Seq<Seq<u8>>, int), TomlErrorKind>((ks, e)),
        ks.len() >= 1,
        !blocked(cur, ks, header_action(s, skip_ws_comments_from(s, i))),
        done(cur, ks, header_action(s, skip_ws_comments_from(s, i)), mid),
    ensures
        doc_resumes(s, n + 1, e, ks, mid),
{
    reveal(doc_resumes);
    let j = skip_ws_comments_from(s, i);
    assert forall|after: Seq<Entry<'a>>, stmts: Seq<Statement<'a>>|
        #[trigger] doc_from(s, 0, Seq::empty(), Seq::empty(), after, stmts) implies stmts.len() >= n + 1 && same_entries(
            state_after(stmts, n + 1),
            mid,
        ) && doc_from(s, e, ks, state_after(stmts, n + 1), after, stmts.subrange(n + 1, stmts.len() as int)) by {
        let b = state_after(stmts, n);
        let rest = stmts.subrange(n, stmts.len() as int);
        assert(doc_from(s, i, hdr, b, after, rest));
        let m2 = rest[0]->Header_1;
        crate::shape::lemma_blocked_congr(b, cur, ks, header_action(s, j), header_action(s, j));
        crate::shape::lemma_done_congr(b, cur, ks, header_action(s, j), header_action(s, j), m2, mid);
        assert(rest[0] == stmts[n]);
        assert(rest.drop_first() =~= stmts.subrange(n + 1, stmts.len() as int));
    }
}

/// A parse that resumes after an assignment statement.
proof fn lemma_doc_advance_assign<'a>(
    s: Seq<u8>,
    n: int,
    i: int,
    hdr: Seq<Seq<u8>>,
    cur: Seq<Entry<'a>>,
    ks: Seq<Seq<u8>>,
    q: int,
    v: TomlValue<'a>,
    t: Shape<'a>,
    k: int,
    mid: Seq<Entry<'a>>,
)
    requires
        n >= 0,
        doc_resumes(s, n, i, hdr, cur),
        0 <= i <= skip_ws_comments_from(s, i) < s.len(),
        s[skip_ws_comments_from(s, i)] != 0x5B,
        dotted_spec(s, skip_ws_comments_from(s, i)) == Ok::<(Seq<Seq<u8>>, int), TomlErrorKind>((ks, q)),
        ks.len() >= 1,
        assigned(s, q, hdr + ks, cur, v, t, k, mid),
    ensures
        doc_resumes(s, n + 1, k, hdr, mid),
{
    reveal(doc_resumes);
    assert forall|after: Seq<Entry<'a>>, stmts: Seq<Statement<'a>>|
        #[trigger] doc_from(s, 0, Seq::empty(), Seq::empty(), after, stmts) implies stmts.len() >= n + 1 && same_entries(
            state_after(stmts, n + 1),
            mid,
        ) && doc_from(s, k, hdr, state_after(stmts, n + 1), after, stmts.subrange(n + 1, stmts.len() as int)) by {
        let b = state_after(stmts, n);
        let rest = stmts.subrange(n, stmts.len() as int);
        assert(doc_from(s, i, hdr, b, after, rest));
        let st = rest[0];
        let (v2, t2, k2, m2) = (st->Assign_0, st->Assign_1, st->Assign_2, st->Assign_3);
        crate::value::lemma_value_unique(s, skip_inline_from(s, q + 1), v2, k2, t2, v, k, t);
        crate::shape::lemma_blocked_congr(b, cur, hdr + ks, Action::Assign(v2), Action::Assign(v));
        crate::shape::lemma_done_congr(b, cur, hdr + ks, Action::Assign(v2), Action::Assign(v), m2, mid);
        assert(rest[0] == stmts[n]);
        assert(rest.drop_first() =~= stmts.subrange(n + 1, stmts.len() as int));
    }
}

/// A dotted key has at least one segment.
proof fn lemma_dotted_nonempty(s: Seq<u8>, p: int)
    ensures
        dotted_spec(s, p) matches Ok((ks, _)) ==> ks.len() >= 1,
{
}

/// The statements from `i` on, under the header path `hdr` and from root
/// entries `before`, parse up to a well-formed statement at `j` whose key is
/// reused: a blocked header, or an assignment whose value (the statement in
/// `stmts` at that point) is read but whose path is blocked.
pub open spec fn reused_at<'a>(
    s: Seq<u8>,
    i: int,
    hdr: Seq<Seq<u8>>,
    before: Seq<Entry<'a>>,
    j: int,
    stmts: Seq<Statement<'a>>,
) -> bool
    decreases s.len() - i,
{
    let j0 = skip_ws_comments_from(s, i);
    if !(0 <= i <= j0 < s.len()) || stmts.len() == 0 {
        false
    } else if j0 == j {
        if s[j] == 0x5B {
            match header_spec(s, j) {
                Ok((ks, e)) => blocked(before, ks, header_action(s, j)),
                Err(_) => false,
            }
        } else {
            match dotted_spec(s, j) {
                Ok((ks, q)) => 0 <= q < s.len() && s[q] == 0x3D && match stmts[0] {
                    Statement::Assign(v, t, k, _) => value_at(s, skip_inline_from(s, q + 1), v, k, t) && blocked(
                        before,
                        hdr + ks,
                        Action::Assign(v),
                    ),
                    _ => false,
                },
                Err(_) => false,
            }
        }
    } else if s[j0] == 0x5B {
        match stmts[0] {
            Statement::Header(e, mid) => match header_spec(s, j0) {
                Ok((ks, e2)) => e == e2 && j0 < e <= s.len() && !blocked(before, ks, header_action(s, j0)) && done(
                    before,
                    ks,
                    header_action(s, j0),
                    mid,
                ) && reused_at(s, e, ks, mid, j, stmts.drop_first()),
                Err(_) => false,
            },
            _ => false,
        }
    } else {
        match stmts[0] {
            Statement::Assign(v, t, k, mid) => match dotted_spec(s, j0) {
                Ok((ks, q)) => 0 <= q < s.len() && s[q] == 0x3D && j0 < k && assigned(s, q, hdr + ks, before, v, t, k, mid)
                    && reused_at(s, k, hdr, mid, j, stmts.drop_first()),
                Err(_) => false,
            },
            _ => false,
        }
    }
}

/// Every parse of the document up to a reused key reads `n` statements and
/// then goes on from `i`, with root entries that agree in structure with
/// `cur`.
#[verifier::opaque]
pub open spec fn reused_resumes<'a>(s: Seq<u8>, n: int, i: int, hdr: Seq<Seq<u8>>, cur: Seq<Entry<'a>>) -> bool {
    forall|j: int, stmts: Seq<Statement<'a>>|
        #[trigger] reused_at(s, 0, Seq::empty(), Seq::empty(), j, stmts) ==> stmts.len() >= n && same_entries(
            state_after(stmts, n),
            cur,
        ) && reused_at(s, i, hdr, state_after(stmts, n), j, stmts.subrange(n, stmts.len() as int))
}

proof fn lemma_reused_advance_header<'a>(
    s: Seq<u8>,
    n: int,
    i: int,
    hdr: Seq<Seq<u8>>,
    cur: Seq<Entry<'a>>,
    ks: Seq<Seq<u8>>,
    e: int,
    mid: Seq<Entry<'a>>,
)
    requires
        n >= 0,
        reused_resumes(s, n, i, hdr, cur),
        0 <= i <= skip_ws_comments_from(s, i) < s.len(),
        s[skip_ws_comments_from(s, i)] == 0x5B,
        header_spec(s, skip_ws_comments_from(s, i)) == Ok::<(Seq<Seq<u8>>, int), TomlErrorKind>((ks, e)),
        ks.len() >= 1,
        !blocked(cur, ks, header_action(s, skip_ws_comments_from(s, i))),
        done(cur, ks, header_action(s, skip_ws_comments_from(s, i)), mid),
    ensures
        reused_resumes(s, n + 1, e, ks, mid),
{
    reveal(reused_resumes);
    let j0 = skip_ws_comments_from(s, i);
    assert forall|j: int, stmts: Seq<Statement<'a>>|
        #[trigger] reused_at(s, 0, Seq::empty(), Seq::empty(), j, stmts) implies stmts.len() >= n + 1 && same_entries(
            state_after(stmts, n + 1),
            mid,
        ) && reused_at(s, e, ks, state_after(stmts, n + 1), j, stmts.subrange(n + 1, stmts.len() as int)) by {
        let b = state_after(stmts, n);
        let rest = stmts.subrange(n, stmts.len() as int);
        assert(reused_at(s, i, hdr, b, j, rest));
        crate::shape::lemma_blocked_congr(b, cur, ks, header_action(s, j0), header_action(s, j0));
        if j != j0 {
            let m2 = rest[0]->Header_1;
            crate::shape::lemma_done_congr(b, cur, ks, header_action(s, j0), header_action(s, j0), m2, mid);
            assert(rest[0] == stmts[n]);
            assert(rest.drop_first() =~= stmts.subrange(n + 1, stmts.len() as int));
        }
    }
}

proof fn lemma_reused_advance_assign<'a>(
    s: Seq<u8>,
    n: int,
    i: int,
    hdr: Seq<Seq<u8>>,
    cur: Seq<Entry<'a>>,
    ks: Seq<Seq<u8>>,
    q: int,
    v: TomlValue<'a>,
    t: Shape<'a>,
    k: int,
    mid: Seq<Entry<'a>>,
)
    requires
        n >= 0,
        reused_resumes(s, n, i, hdr, cur),
        0 <= i <= skip_ws_comments_from(s, i) < s.len(),
        s[skip_ws_comments_from(s, i)] != 0x5B,
        dotted_spec(s, skip_ws_comments_from(s, i)) == Ok::<(Seq<Seq<u8>>, int), TomlErrorKind>((ks, q)),
        ks.len() >= 1,
        assigned(s, q, hdr + ks, cur, v, t, k, mid),
    ensures
        reused_resumes(s, n + 1, k, hdr, mid),
{
    reveal(reused_resumes);
    let j0 = skip_ws_comments_from(s, i);
    assert forall|j: int, stmts: Seq<Statement<'a>>|
        #[trigger] reused_at(s, 0, Seq::empty(), Seq::empty(), j, stmts) implies stmts.len() >= n + 1 && same_entries(
            state_after(stmts, n + 1),
            mid,
        ) && reused_at(s, k, hdr, state_after(stmts, n + 1), j, stmts.subrange(n + 1, stmts.len() as int)) by {
        let b = state_after(stmts, n);
        let rest = stmts.subrange(n, stmts.len() as int);
        assert(reused_at(s, i, hdr, b, j, rest));
        let st = rest[0];
        let (v2, t2, k2, m2) = (st->Assign_0, st->Assign_1, st->Assign_2, st->Assign_3);
        crate::value::lemma_value_unique(s, skip_inline_from(s, q + 1), v2, k2, t2, v, k, t);
        crate::shape::lemma_blocked_congr(b, cur, hdr + ks, Action::Assign(v2), Action::Assign(v));
        if j != j0 {
            crate::shape::lemma_done_congr(b, cur, hdr + ks, Action::Assign(v2), Action::Assign(v), m2, mid);
            assert(rest[0] == stmts[n]);
            assert(rest.drop_first() =~= stmts.subrange(n + 1, stmts.len() as int));
        }
    }
}

/// A statement that stops every parse also stops every parse up to a reused
/// key further on.
proof fn lemma_reused_stuck<'a>(s: Seq<u8>, i: int, hdr: Seq<Seq<u8>>, cur: Seq<Entry<'a>>, b: Seq<Entry<'a>>, j: int, stmts: Seq<Statement<'a>>)
    requires
        0 <= i <= skip_ws_comments_from(s, i) < s.len(),
        j != skip_ws_comments_from(s, i),
        same_entries(b, cur),
        s[skip_ws_comments_from(s, i)] == 0x5B ==> match header_spec(s, skip_ws_comments_from(s, i)) {
            Err(_) => true,
            Ok((ks, e)) => ks.len() >= 1 && blocked(cur, ks, header_action(s, skip_ws_comments_from(s, i))),
        },
        s[skip_ws_comments_from(s, i)] != 0x5B ==> match dotted_spec(s, skip_ws_comments_from(s, i)) {
            Err(_) => true,
            Ok((ks, q)) => !(0 <= q < s.len() && s[q] == 0x3D) || (ks.len() >= 1 && assign_stuck(s, q, hdr + ks, cur)),
        },
    ensures
        !reused_at(s, i, hdr, b, j, stmts),
{
    let j0 = skip_ws_comments_from(s, i);
    if !reused_at(s, i, hdr, b, j, stmts) {
    } else if s[j0] == 0x5B {
        let (ks, e) = header_spec(s, j0).unwrap();
        crate::shape::lemma_blocked_congr(b, cur, ks, header_action(s, j0), header_action(s, j0));
    } else {
        let (ks, q) = dotted_spec(s, j0).unwrap();
        let st = stmts[0];
        let (v, t, k, mid) = (st->Assign_0, st->Assign_1, st->Assign_2, st->Assign_3);
        assert(value_at(s, skip_inline_from(s, q + 1), v, k, t));
        crate::shape::lemma_blocked_congr(b, cur, hdr + ks, Action::Assign(v), Action::Assign(v));
    }
}

/// A header statement before the rest of a document.
proof fn lemma_doc_header<'a>(
    s: Seq<u8>,
    i: int,
    hdr: Seq<Seq<u8>>,
    before: Seq<Entry<'a>>,
    ks: Seq<Seq<u8>>,
    e: int,
    mid: Seq<Entry<'a>>,
    after: Seq<Entry<'a>>,
    tail: Seq<Statement<'a>>,
)
    requires
        0 <= i <= skip_ws_comments_from(s, i) < e <= s.len(),
        s[skip_ws_comments_from(s, i)] == 0x5B,
        header_spec(s, skip_ws_comments_from(s, i)) == Ok::<(Seq<Seq<u8>>, int), TomlErrorKind>((ks, e)),
        !blocked(before, ks, header_action(s, skip_ws_comments_from(s, i))),
        done(before, ks, header_action(s, skip_ws_comments_from(s, i)), mid),
        doc_from(s, e, ks, mid, after, tail),
    ensures
        doc_from(s, i, hdr, before, after, seq![Statement::Header(e, mid)] + tail),
{
    let stmts = seq![Statement::Header(e, mid)] + tail;
    assert(stmts[0] == Statement::Header(e, mid));
    assert(stmts.drop_first() =~= tail);
}

/// An assignment statement before the rest of a document.
proof fn lemma_doc_assign<'a>(
    s: Seq<u8>,
    i: int,
    hdr: Seq<Seq<u8>>,
    before: Seq<Entry<'a>>,
    ks: Seq<Seq<u8>>,
    q: int,
    v: TomlValue<'a>,
    t: Shape<'a>,
    k: int,
    mid: Seq<Entry<'a>>,
    after: Seq<Entry<'a>>,
    tail: Seq<Statement<'a>>,
)
    requires
        0 <= i <= skip_ws_comments_from(s, i) < k <= s.len(),
        s[skip_ws_comments_from(s, i)] != 0x5B,
        dotted_spec(s, skip_ws_comments_from(s, i)) == Ok::<(Seq<Seq<u8>>, int), TomlErrorKind>((ks, q)),
        0 <= q < s.len(),
        s[q] == 0x3D,
        assigned(s, q, hdr + ks, before, v, t, k, mid),
        doc_from(s, k, hdr, mid, after, tail),
    ensures
        doc_from(s, i, hdr, before, after, seq![Statement::Assign(v, t, k, mid)] + tail),
{
    let stmts = seq![Statement::Assign(v, t, k, mid)] + tail;
    assert(stmts[0] == Statement::Assign(v, t, k, mid));
    assert(stmts.drop_first() =~= tail);
}

/// Parses a whole document into its root table.
#[verifier::rlimit(80)]
#[verifier::spinoff_prover]
pub fn parse_str<'a>(str: &'a str) -> (r: Result<TomlTable<'a>, TomlError<'a>>)
    ensures
        r matches Ok(t) ==> t.origin == TableOrigin::Explicit && keys_unique(t.entries@) && tree_keys_unique(t.entries@) && exists|stmts: Seq<Statement<'a>>|
            doc_from(str.spec_bytes(), 0, Seq::empty(), Seq::empty(), t.entries@, stmts),
        r is Err ==> forall|es: Seq<Entry<'a>>, stmts: Seq<Statement<'a>>|
            !doc_from(str.spec_bytes(), 0, Seq::empty(), Seq::empty(), es, stmts),
        forall|j: int, stmts: Seq<Statement<'a>>|
            #[trigger] reused_at(str.spec_bytes(), 0, Seq::empty(), Seq::empty(), j, stmts) ==> (r is Err
                && r->Err_0.kind == TomlErrorKind::ReusedKey && r->Err_0.src.start == j && r->Err_0.src.end >= j + 2),
{
    let mut text = Text::new(str);
    let mut root = empty_table(TableOrigin::Explicit);
    let mut header: Vec<CowSpan<'a>> = Vec::new();
    let ghost s = text.bytes();
    let ghost mut stmts: Seq<Statement<'a>> = Seq::empty();
    proof {
        assert(root.entries@ =~= Seq::<Entry<'a>>::empty());
        assert(tree_keys_unique(root.entries@));
        assert(key_texts(header@) =~= Seq::<Seq<u8>>::empty());
        assert forall|after: Seq<Entry<'a>>, tail: Seq<Statement<'a>>|
            #[trigger] doc_from(s, text.pos(), key_texts(header@), root.entries@, after, tail) implies doc_from(
            s,
            0,
            Seq::empty(),
            Seq::empty(),
            after,
            stmts + tail,
        ) by {
            assert(stmts + tail =~= tail);
        }
        reveal(doc_resumes);
        assert forall|after: Seq<Entry<'a>>, st: Seq<Statement<'a>>|
            #[trigger] doc_from(s, 0, Seq::empty(), Seq::empty(), after, st) implies st.len() >= 0 && same_entries(
                state_after(st, 0),
                root.entries@,
            ) && doc_from(s, 0, key_texts(header@), state_after(st, 0), after, st.subrange(0, st.len() as int)) by {
            assert(st.subrange(0, st.len() as int) =~= st);
            assert(same_entries(Seq::<Entry<'a>>::empty(), Seq::<Entry<'a>>::empty()));
        }
        assert(doc_resumes(s, 0, text.pos(), key_texts(header@), root.entries@));
        reveal(reused_resumes);
        assert forall|j: int, st: Seq<Statement<'a>>|
            #[trigger] reused_at(s, 0, Seq::empty(), Seq::empty(), j, st) implies st.len() >= 0 && same_entries(
                state_after(st, 0),
                root.entries@,
            ) && reused_at(s, 0, key_texts(header@), state_after(st, 0), j, st.subrange(0, st.len() as int)) by {
            assert(st.subrange(0, st.len() as int) =~= st);
            assert(same_entries(Seq::<Entry<'a>>::empty(), Seq::<Entry<'a>>::empty()));
        }
        assert(reused_resumes(s, 0, text.pos(), key_texts(header@), root.entries@));
    }
    loop
        invariant
            text.wf(),
            text.text == str,
            s == text.bytes(),
            s == str.spec_bytes(),
            root.origin == TableOrigin::Explicit,
            keys_unique(root.entries@),
            tree_keys_unique(root.entries@),
            doc_resumes(s, stmts.len() as int, text.pos(), key_texts(header@), root.entries@),
            reused_resumes(s, stmts.len() as int, text.pos(), key_texts(header@), root.entries@),
            forall|after: Seq<Entry<'a>>, tail: Seq<Statement<'a>>|
                #[trigger] doc_from(s, text.pos(), key_texts(header@), root.entries@, after, tail) ==> doc_from(
                    s,
                    0,
                    Seq::empty(),
                    Seq::empty(),
                    after,
                    stmts + tail,
                ),
        decreases text.bytes().len() - text.pos(),
    {
        let ghost i = text.pos();
        let ghost hdr = key_texts(header@);
        let ghost es0 = root.entries@;
        let ghost stmts0 = stmts;
        proof {
            crate::text::lemma_skip_ws_comments_bounds(text.bytes(), text.pos());
        }
        text.skip_whitespace();
        let ghost j = text.pos();
        match text.current_byte() {
            None => {
                proof {
                    reveal(reused_resumes);
                    assert forall|jj: int, st: Seq<Statement<'a>>|
                        !(#[trigger] reused_at(s, 0, Seq::empty(), Seq::empty(), jj, st)) by {
                        if reused_at(s, 0, Seq::empty(), Seq::empty(), jj, st) {
                            assert(reused_at(s, i, hdr, state_after(st, stmts0.len() as int), jj, st.subrange(stmts0.len() as int, st.len() as int)));
                        }
                    }
                    assert(doc_from(s, i, hdr, es0, es0, Seq::empty()));
                    assert(stmts + Seq::<Statement<'a>>::empty() =~= stmts);
                }
                return Ok(root);
            },
            Some(0x5Bu8) => {
                header = match parse_header(&mut text, &mut root) {
                    Ok(keys) => keys,
                    Err(e) => {
                        proof {
                            if header_spec(s, j) is Ok {
                                let (ks, e2) = header_spec(s, j).unwrap();
                                lemma_dotted_nonempty(s, skip_inline_from(s, if j + 1 < s.len() && s[j + 1] == 0x5B { j + 2 } else { j + 1 }));
                            }
                            lemma_doc_stuck_header(s, i, hdr, es0);
                            lemma_doc_no_parse(s, stmts0.len() as int, i, hdr, es0);
                            reveal(reused_resumes);
                            assert forall|jj: int, st: Seq<Statement<'a>>|
                                #[trigger] reused_at(s, 0, Seq::empty(), Seq::empty(), jj, st) implies e.kind
                                    == TomlErrorKind::ReusedKey && e.src.start == jj by {
                                let bb = state_after(st, stmts0.len() as int);
                                let suf = st.subrange(stmts0.len() as int, st.len() as int);
                                assert(reused_at(s, i, hdr, bb, jj, suf));
                                if jj != j {
                                    lemma_reused_stuck(s, i, hdr, es0, bb, jj, suf);
                                } else {
                                    let (ks, e2) = header_spec(s, j).unwrap();
                                    crate::shape::lemma_blocked_congr(bb, es0, ks, header_action(s, j), header_action(s, j));
                                }
                            }
                        }
                        return Err(e);
                    },
                };
                proof {
                    let ks = header_spec(s, j).unwrap().0;
                    let e = text.pos();
                    let mid = root.entries@;
                    lemma_doc_advance_header(s, stmts0.len() as int, i, hdr, es0, ks, e, mid);
                    lemma_reused_advance_header(s, stmts0.len() as int, i, hdr, es0, ks, e, mid);
                    lemma_keys_stay_unique(es0, mid, ks, header_action(s, j));
                    stmts = stmts0.push(Statement::Header(e, mid));
                    assert forall|after: Seq<Entry<'a>>, tail: Seq<Statement<'a>>|
                        #[trigger] doc_from(s, text.pos(), key_texts(header@), root.entries@, after, tail) implies doc_from(
                        s,
                        0,
                        Seq::empty(),
                        Seq::empty(),
                        after,
                        stmts + tail,
                    ) by {
                        lemma_doc_header(s, i, hdr, es0, ks, e, mid, after, tail);
                        assert(stmts0 + (seq![Statement::Header(e, mid)] + tail) =~= stmts + tail);
                    }
                }
            },
            Some(_) => {
                if let Err(e) = parse_assignment(&mut text, &mut root, &header) {
                    proof {
                        lemma_dotted_nonempty(s, j);
                        lemma_doc_stuck_assign(s, i, hdr, es0);
                        lemma_doc_no_parse(s, stmts0.len() as int, i, hdr, es0);
                        reveal(reused_resumes);
                        assert forall|jj: int, st: Seq<Statement<'a>>|
                            #[trigger] reused_at(s, 0, Seq::empty(), Seq::empty(), jj, st) implies e.kind
                                == TomlErrorKind::ReusedKey && e.src.start == jj by {
                            let bb = state_after(st, stmts0.len() as int);
                            let suf = st.subrange(stmts0.len() as int, st.len() as int);
                            assert(reused_at(s, i, hdr, bb, jj, suf));
                            if jj != j {
                                lemma_reused_stuck(s, i, hdr, es0, bb, jj, suf);
                            } else {
                                let (ks, q) = dotted_spec(s, j).unwrap();
                                let st0 = suf[0];
                                assert(value_at(s, skip_inline_from(s, q + 1), st0->Assign_0, st0->Assign_2, st0->Assign_1));
                            }
                        }
                    }
                    return Err(e);
                }
                proof {
                    let (ks, q) = dotted_spec(s, j).unwrap();
                    let k = text.pos();
                    let mid = root.entries@;
                    let (v, t) = choose|v: TomlValue<'a>, t: Shape<'a>| #[trigger] assigned(s, q, hdr + ks, es0, v, t, k, mid);
                    lemma_dotted_nonempty(s, j);
                    lemma_doc_advance_assign(s, stmts0.len() as int, i, hdr, es0, ks, q, v, t, k, mid);
                    lemma_reused_advance_assign(s, stmts0.len() as int, i, hdr, es0, ks, q, v, t, k, mid);
                    lemma_keys_stay_unique(es0, mid, hdr + ks, Action::Assign(v));
                    stmts = stmts0.push(Statement::Assign(v, t, k, mid));
                    assert forall|after: Seq<Entry<'a>>, tail: Seq<Statement<'a>>|
                        #[trigger] doc_from(s, text.pos(), key_texts(header@), root.entries@, after, tail) implies doc_from(
                        s,
                        0,
                        Seq::empty(),
                        Seq::empty(),
                        after,
                        stmts + tail,
                    ) by {
                        lemma_doc_assign(s, i, hdr, es0, ks, q, v, t, k, mid, after, tail);
                        assert(stmts0 + (seq![Statement::Assign(v, t, k, mid)] + tail) =~= stmts + tail);
                    }
                }
            },
        }
    }
}

/// Two parses of the statements from `i`, from root entries of one
/// structure, end in root entries of one structure.
pub proof fn lemma_doc_unique<'a>(
    s: Seq<u8>,
    i: int,
    hdr: Seq<Seq<u8>>,
    b1: Seq<Entry<'a>>,
    a1: Seq<Entry<'a>>,
    st1: Seq<Statement<'a>>,
    b2: Seq<Entry<'a>>,
    a2: Seq<Entry<'a>>,
    st2: Seq<Statement<'a>>,
)
    requires
        same_entries(b1, b2),
        doc_from(s, i, hdr, b1, a1, st1),
        doc_from(s, i, hdr, b2, a2, st2),
    ensures
        same_entries(a1, a2),
    decreases s.len() - i,
{
    let j = skip_ws_comments_from(s, i);
    if j < s.len() {
        if s[j] == 0x5B {
            let (ks, e) = header_spec(s, j).unwrap();
            let (m1, m2) = (st1[0]->Header_1, st2[0]->Header_1);
            lemma_dotted_nonempty(s, skip_inline_from(s, if j + 1 < s.len() && s[j + 1] == 0x5B { j + 2 } else { j + 1 }));
            crate::shape::lemma_done_congr(b1, b2, ks, header_action(s, j), header_action(s, j), m1, m2);
            lemma_doc_unique(s, e, ks, m1, a1, st1.drop_first(), m2, a2, st2.drop_first());
        } else {
            let (ks, q) = dotted_spec(s, j).unwrap();
            lemma_dotted_nonempty(s, j);
            let (v1, t1, k1, m1) = (st1[0]->Assign_0, st1[0]->Assign_1, st1[0]->Assign_2, st1[0]->Assign_3);
            let (v2, t2, k2, m2) = (st2[0]->Assign_0, st2[0]->Assign_1, st2[0]->Assign_2, st2[0]->Assign_3);
            crate::value::lemma_value_unique(s, skip_inline_from(s, q + 1), v1, k1, t1, v2, k2, t2);
            crate::shape::lemma_done_congr(b1, b2, hdr + ks, Action::Assign(v1), Action::Assign(v2), m1, m2);
            lemma_doc_unique(s, k1, hdr, m1, a1, st1.drop_first(), m2, a2, st2.drop_first());
        }
    }
}

} // verus!
