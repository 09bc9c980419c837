//! Tables, lookups, and the rules by which keys and headers build them.

use vstd::prelude::*;

use crate::text::CowSpan;
use crate::types::{TableOrigin, TomlFloat, TomlTable, TomlValue, TomlValueType};
use vstd::string::StringSliceAdditionalSpecFns;
use crate::key::key_texts;

verus! {

/// One entry of a table: a key and its value.
pub type Entry<'a> = (CowSpan<'a>, TomlValue<'a>);

/// The index of the first entry from `from` on whose key text is `k`, or -1.
pub open spec fn first_key<'a>(es: Seq<Entry<'a>>, k: Seq<u8>, from: int) -> int
    decreases es.len() - from,
{
    if from < 0 || from >= es.len() {
        -1
    } else if es[from].0.content() == k {
        from
    } else {
        first_key(es, k, from + 1)
    }
}

/// No two entries share a key text.
pub open spec fn keys_unique<'a>(es: Seq<Entry<'a>>) -> bool {
    forall|i: int, j: int|
        0 <= i < j < es.len() ==> (#[trigger] es[i].0.content()) != (#[trigger] es[j].0.content())
}

/// What a key path leads to: a value assigned with `=`, a `[header]`, or an
/// `[[array.of.tables]]` header.
pub enum Action<'a> {
    /// `key = value`.
    Assign(TomlValue<'a>),
    /// `[key]`.
    Header,
    /// `[[key]]`.
    ArrayHeader,
}

/// The table that a path walks into when it meets `v` at a segment that is
/// not its last: a table that is not inline, or the last table of an array of
/// tables.
pub open spec fn step_into<'a>(v: TomlValue<'a>) -> Option<TomlTable<'a>> {
    match v {
        TomlValue::Table(c) => if c.origin != TableOrigin::Inline {
            Some(c)
        } else {
            None
        },
        TomlValue::Array(a, aot) => if aot && a@.len() > 0 {
            match a@.last() {
                TomlValue::Table(c) => Some(c),
                _ => None,
            }
        } else {
            None
        },
        _ => None,
    }
}

/// A `[header]` may name this value: an implicit table (which the header
/// makes explicit) or an array of tables (whose last table it names).
pub open spec fn header_reusable<'a>(v: TomlValue<'a>) -> bool {
    match v {
        TomlValue::Table(c) => c.origin == TableOrigin::Implicit,
        TomlValue::Array(a, aot) => aot && a@.len() > 0 && a@.last() is Table,
        _ => false,
    }
}

/// The last segment `k` cannot take the action in a table with entries `es`.
pub open spec fn leaf_blocked<'a>(es: Seq<Entry<'a>>, k: Seq<u8>, act: Action<'a>) -> bool {
    let i = first_key(es, k, 0);
    match act {
        Action::Assign(_) => i >= 0,
        Action::Header => i >= 0 && !header_reusable(es[i].1),
        Action::ArrayHeader => i >= 0 && !(es[i].1 matches TomlValue::Array(_, true)),
    }
}

/// The path cannot take the action in a table with entries `es`: the key is
/// reused.
pub open spec fn blocked<'a>(es: Seq<Entry<'a>>, path: Seq<Seq<u8>>, act: Action<'a>) -> bool
    decreases path.len(),
{
    if path.len() <= 1 {
        leaf_blocked(es, path[0], act)
    } else {
        let i = first_key(es, path[0], 0);
        if i < 0 {
            blocked(Seq::empty(), path.drop_first(), act)
        } else {
            match step_into(es[i].1) {
                None => true,
                Some(c) => blocked(c.entries@, path.drop_first(), act),
            }
        }
    }
}

/// An empty table of the given origin.
pub open spec fn is_empty_table<'a>(v: TomlValue<'a>, origin: TableOrigin) -> bool {
    v matches TomlValue::Table(t) && t.entries@.len() == 0 && t.origin == origin
}

/// `new` is `old` with one entry appended, whose key text is `k`.
pub open spec fn appended<'a>(old: Seq<Entry<'a>>, k: Seq<u8>, new: Seq<Entry<'a>>) -> bool {
    new.len() == old.len() + 1 && new.subrange(0, old.len() as int) == old && new.last().0.content()
        == k
}

/// `new` is `old` with entry `i` replaced by one with the same key.
pub open spec fn replaced_at<'a>(old: Seq<Entry<'a>>, i: int, new: Seq<Entry<'a>>) -> bool {
    new.len() == old.len() && 0 <= i < old.len() && new[i].0 == old[i].0 && forall|j: int|
        0 <= j < old.len() && j != i ==> new[j] == old[j]
}

/// What taking the action at the last segment `k` makes of the entries.
pub open spec fn leaf_done<'a>(
    old: Seq<Entry<'a>>,
    k: Seq<u8>,
    act: Action<'a>,
    new: Seq<Entry<'a>>,
) -> bool {
    let i = first_key(old, k, 0);
    match act {
        Action::Assign(v) => appended(old, k, new) && new.last().1 == v,
        Action::Header => if i < 0 {
            appended(old, k, new) && is_empty_table(new.last().1, TableOrigin::Explicit)
        } else {
            match old[i].1 {
                TomlValue::Table(c) => replaced_at(old, i, new) && new[i].1 == TomlValue::Table(
                    TomlTable { entries: c.entries, origin: TableOrigin::Explicit },
                ),
                _ => new == old,
            }
        },
        Action::ArrayHeader => if i < 0 {
            appended(old, k, new) && match new.last().1 {
                TomlValue::Array(a, aot) => aot && a@.len() == 1 && is_empty_table(
                    a@[0],
                    TableOrigin::ArrayElement,
                ),
                _ => false,
            }
        } else {
            match old[i].1 {
                TomlValue::Array(a, _) => replaced_at(old, i, new) && match new[i].1 {
                    TomlValue::Array(a2, aot) => aot && a2@.len() == a@.len() + 1 && a2@.subrange(
                        0,
                        a@.len() as int,
                    ) == a@ && is_empty_table(a2@.last(), TableOrigin::ArrayElement),
                    _ => false,
                },
                _ => false,
            }
        },
    }
}

/// `nv` is an array of tables that differs from `a` only in its last table,
/// where the action was taken along `path`.
pub open spec fn last_table_done<'a>(
    a: Seq<TomlValue<'a>>,
    nv: TomlValue<'a>,
    path: Seq<Seq<u8>>,
    act: Action<'a>,
) -> bool
    decreases path.len(), 2nat,
{
    match nv {
        TomlValue::Array(a2, aot) => aot && a2@.len() == a.len() && a.len() > 0 && a2@.subrange(
            0,
            a.len() - 1,
        ) == a.subrange(0, a.len() - 1) && match a.last() {
            TomlValue::Table(c) => match a2@.last() {
                TomlValue::Table(c2) => c2.origin == c.origin && done(c.entries@, path, act, c2.entries@),
                _ => false,
            },
            _ => false,
        },
        _ => false,
    }
}

/// What taking the action along the path makes of the entries `old`: the
/// tables along the way are walked into, or created as implicit tables.
pub open spec fn done<'a>(
    old: Seq<Entry<'a>>,
    path: Seq<Seq<u8>>,
    act: Action<'a>,
    new: Seq<Entry<'a>>,
) -> bool
    decreases path.len(), 1nat,
{
    if path.len() <= 1 {
        leaf_done(old, path[0], act, new)
    } else {
        let i = first_key(old, path[0], 0);
        if i < 0 {
            appended(old, path[0], new) && match new.last().1 {
                TomlValue::Table(c) => c.origin == TableOrigin::Implicit && done(
                    Seq::empty(),
                    path.drop_first(),
                    act,
                    c.entries@,
                ),
                _ => false,
            }
        } else {
            replaced_at(old, i, new) && match old[i].1 {
                TomlValue::Table(c) => match new[i].1 {
                    TomlValue::Table(c2) => c2.origin == c.origin && done(
                        c.entries@,
                        path.drop_first(),
                        act,
                        c2.entries@,
                    ),
                    _ => false,
                },
                TomlValue::Array(a, _) => last_table_done(a@, new[i].1, path.drop_first(), act),
                _ => false,
            }
        }
    }
}

/// Whether two byte strings are equal.
pub fn bytes_eq(a: &[u8], b: &[u8]) -> (r: bool)
    ensures
        r == (a@ == b@),
{
    if a.len() != b.len() {
        return false;
    }
    let mut i: usize = 0;
    while i < a.len()
        invariant
            i <= a@.len(),
            a@.len() == b@.len(),
            forall|j: int| 0 <= j < i ==> a@[j] == b@[j],
        decreases a@.len() - i,
    {
        if a[i] != b[i] {
            return false;
        }
        i = i + 1;
    }
    assert(a@ =~= b@);
    true
}

/// The index of the first entry whose key text is `k`.
pub fn find_key<'a>(es: &Vec<Entry<'a>>, k: &[u8]) -> (r: Option<usize>)
    ensures
        match r {
            Some(i) => i as int == first_key(es@, k@, 0) && i < es@.len(),
            None => first_key(es@, k@, 0) == -1,
        },
{
    let mut i: usize = 0;
    while i < es.len()
        invariant
            i <= es@.len(),
            first_key(es@, k@, 0) == first_key(es@, k@, i as int),
        decreases es@.len() - i,
    {
        if bytes_eq(es[i].0.as_bytes(), k) {
            return Some(i);
        }
        i = i + 1;
    }
    None
}

/// A new empty table of the given origin.
pub fn empty_table<'a>(origin: TableOrigin) -> (r: TomlTable<'a>)
    ensures
        r.entries@.len() == 0,
        r.origin == origin,
{
    TomlTable { entries: Vec::new(), origin }
}

/// The recursive walk of `insert_path`, which may leave created tables
/// behind when it fails.
fn insert_walk<'a>(
    es: &mut Vec<Entry<'a>>,
    path: Vec<CowSpan<'a>>,
    act: Action<'a>,
) -> (r: Result<(), crate::TomlErrorKind>)
    requires
        path@.len() >= 1,
    ensures
        r is Err <==> blocked(old(es)@, key_texts(path@), act),
        r is Err ==> r->Err_0 == crate::TomlErrorKind::ReusedKey,
        r is Ok ==> done(old(es)@, key_texts(path@), act, final(es)@),
    decreases path@.len(), 1nat,
{
    let ghost texts = key_texts(path@);
    let mut path = path;
    let key = path.remove(0);
    proof {
        assert(key_texts(path@) =~= texts.drop_first());
    }
    let found = find_key(es, key.as_bytes());
    if path.len() == 0 {
        return insert_leaf(es, key, found, act);
    }
    match found {
        None => {
            let mut child = empty_table(TableOrigin::Implicit);
            assert(child.entries@ =~= Seq::<Entry<'a>>::empty());
            let res = insert_walk(&mut child.entries, path, act);
            match res {
                Err(e) => Err(e),
                Ok(()) => {
                    es.push((key, TomlValue::Table(child)));
                    proof {
                        assert(es@.subrange(0, old(es)@.len() as int) =~= old(es)@);
                    }
                    Ok(())
                },
            }
        },
        Some(i) => {
            let (k, mut v) = es.remove(i);
            let res = step_and_insert(&mut v, path, act);
            es.insert(i, (k, v));
            proof {
                assert(es@ =~= old(es)@.update(i as int, es@[i as int]));
            }
            res
        },
    }
}

/// Whether the path from segment `from` on is blocked in the table with
/// entries `es`; nothing is changed.
fn path_blocked<'a>(es: &Vec<Entry<'a>>, path: &Vec<CowSpan<'a>>, from: usize, act: &Action<'a>) -> (r: bool)
    requires
        from < path@.len(),
    ensures
        r == blocked(es@, key_texts(path@).subrange(from as int, path@.len() as int), *act),
    decreases path@.len() - from,
{
    let ghost p = key_texts(path@).subrange(from as int, path@.len() as int);
    let found = find_key(es, path[from].as_bytes());
    assert(p[0] == path@[from as int].content());
    if from == path.len() - 1 {
        return match act {
            Action::Assign(_) => found.is_some(),
            Action::Header => match found {
                None => false,
                Some(i) => !match &es[i].1 {
                    TomlValue::Table(c) => c.origin == TableOrigin::Implicit,
                    TomlValue::Array(a, aot) => *aot && a.len() > 0 && a[a.len() - 1].is_table(),
                    _ => false,
                },
            },
            Action::ArrayHeader => match found {
                None => false,
                Some(i) => !match &es[i].1 {
                    TomlValue::Array(_, aot) => *aot,
                    _ => false,
                },
            },
        };
    }
    assert(p.drop_first() =~= key_texts(path@).subrange(from + 1, path@.len() as int));
    match found {
        None => {
            proof {
                lemma_empty_not_blocked(p.drop_first(), *act);
            }
            false
        },
        Some(i) => match &es[i].1 {
            TomlValue::Table(c) => {
                if c.origin == TableOrigin::Inline {
                    true
                } else {
                    path_blocked(&c.entries, path, from + 1, act)
                }
            },
            TomlValue::Array(a, aot) => {
                if !*aot || a.len() == 0 {
                    true
                } else {
                    match &a[a.len() - 1] {
                        TomlValue::Table(c) => path_blocked(&c.entries, path, from + 1, act),
                        _ => true,
                    }
                }
            },
            _ => true,
        },
    }
}

/// Nothing is blocked in an empty table.
proof fn lemma_empty_not_blocked<'a>(path: Seq<Seq<u8>>, act: Action<'a>)
    requires
        path.len() >= 1,
    ensures
        !blocked(Seq::empty(), path, act),
    decreases path.len(),
{
    if path.len() > 1 {
        lemma_empty_not_blocked(path.drop_first(), act);
    }
}

/// Takes the action along the key path in the table with entries `es`,
/// walking into tables (and the last table of arrays of tables) and creating
/// implicit tables where a segment is missing. Fails, as a reused key, exactly
/// when the path is blocked, and then leaves the entries as they were.
pub fn insert_path<'a>(
    es: &mut Vec<Entry<'a>>,
    path: Vec<CowSpan<'a>>,
    act: Action<'a>,
) -> (r: Result<(), crate::TomlErrorKind>)
    requires
        path@.len() >= 1,
    ensures
        r is Err <==> blocked(old(es)@, key_texts(path@), act),
        r is Err ==> r->Err_0 == crate::TomlErrorKind::ReusedKey && final(es)@ == old(es)@,
        r is Ok ==> done(old(es)@, key_texts(path@), act, final(es)@),
{
    assert(key_texts(path@).subrange(0, path@.len() as int) =~= key_texts(path@));
    if path_blocked(es, &path, 0, &act) {
        return Err(crate::TomlErrorKind::ReusedKey);
    }
    insert_walk(es, path, act)
}

/// Walks into the value met at a segment that is not the last, and takes the
/// action along the rest of the path there.
fn step_and_insert<'a>(
    v: &mut TomlValue<'a>,
    path: Vec<CowSpan<'a>>,
    act: Action<'a>,
) -> (r: Result<(), crate::TomlErrorKind>)
    requires
        path@.len() >= 1,
    ensures
        r is Err <==> match step_into(*old(v)) {
            None => true,
            Some(c) => blocked(c.entries@, key_texts(path@), act),
        },
        r is Err ==> r->Err_0 == crate::TomlErrorKind::ReusedKey,
        r is Ok ==> match *old(v) {
            TomlValue::Table(c) => match *final(v) {
                TomlValue::Table(c2) => c2.origin == c.origin && done(
                    c.entries@,
                    key_texts(path@),
                    act,
                    c2.entries@,
                ),
                _ => false,
            },
            TomlValue::Array(a, _) => last_table_done(a@, *final(v), key_texts(path@), act),
            _ => false,
        },
    decreases path@.len(), 2nat,
{
    match v {
        TomlValue::Table(c) => {
            if c.origin == TableOrigin::Inline {
                return Err(crate::TomlErrorKind::ReusedKey);
            }
            insert_walk(&mut c.entries, path, act)
        },
        TomlValue::Array(a, aot) => {
            if !*aot || a.len() == 0 {
                return Err(crate::TomlErrorKind::ReusedKey);
            }
            let ghost a0 = a@;
            let mut last = a.pop().unwrap();
            let res = match &mut last {
                TomlValue::Table(c) => insert_walk(&mut c.entries, path, act),
                _ => Err(crate::TomlErrorKind::ReusedKey),
            };
            a.push(last);
            proof {
                assert(a@.subrange(0, a0.len() - 1) =~= a0.subrange(0, a0.len() - 1));
            }
            res
        },
        _ => Err(crate::TomlErrorKind::ReusedKey),
    }
}

/// Takes the action at the last segment `key`, whose first entry (if any) is
/// `found`.
fn insert_leaf<'a>(
    es: &mut Vec<Entry<'a>>,
    key: CowSpan<'a>,
    found: Option<usize>,
    act: Action<'a>,
) -> (r: Result<(), crate::TomlErrorKind>)
    requires
        match found {
            Some(i) => i as int == first_key(old(es)@, key.content(), 0) && i < old(es)@.len(),
            None => first_key(old(es)@, key.content(), 0) == -1,
        },
    ensures
        r is Err <==> leaf_blocked(old(es)@, key.content(), act),
        r is Err ==> r->Err_0 == crate::TomlErrorKind::ReusedKey,
        r is Ok ==> leaf_done(old(es)@, key.content(), act, final(es)@),
{
    let ghost kc = key.content();
    match act {
        Action::Assign(v) => {
            if found.is_some() {
                return Err(crate::TomlErrorKind::ReusedKey);
            }
            es.push((key, v));
            assert(es@.subrange(0, old(es)@.len() as int) =~= old(es)@);
            Ok(())
        },
        Action::Header => match found {
            None => {
                es.push((key, TomlValue::Table(empty_table(TableOrigin::Explicit))));
                assert(es@.subrange(0, old(es)@.len() as int) =~= old(es)@);
                Ok(())
            },
            Some(i) => {
                let reusable = match &es[i].1 {
                    TomlValue::Table(c) => c.origin == TableOrigin::Implicit,
                    TomlValue::Array(a, aot) => *aot && a.len() > 0 && a[a.len() - 1].is_table(),
                    _ => false,
                };
                if !reusable {
                    return Err(crate::TomlErrorKind::ReusedKey);
                }
                let (k, mut v) = es.remove(i);
                if let TomlValue::Table(c) = &mut v {
                    c.origin = TableOrigin::Explicit;
                }
                es.insert(i, (k, v));
                proof {
                    assert(es@ =~= old(es)@.update(i as int, es@[i as int]));
                    if !(old(es)@[i as int].1 is Table) {
                        assert(es@ =~= old(es)@);
                    }
                }
                Ok(())
            },
        },
        Action::ArrayHeader => match found {
            None => {
                let mut a: Vec<TomlValue<'a>> = Vec::new();
                a.push(TomlValue::Table(empty_table(TableOrigin::ArrayElement)));
                es.push((key, TomlValue::Array(a, true)));
                assert(es@.subrange(0, old(es)@.len() as int) =~= old(es)@);
                Ok(())
            },
            Some(i) => {
                let is_aot = match &es[i].1 {
                    TomlValue::Array(_, aot) => *aot,
                    _ => false,
                };
                if !is_aot {
                    return Err(crate::TomlErrorKind::ReusedKey);
                }
                let (k, mut v) = es.remove(i);
                let ghost v0 = v;
                if let TomlValue::Array(a, _) = &mut v {
                    a.push(TomlValue::Table(empty_table(TableOrigin::ArrayElement)));
                }
                let ghost v1 = v;
                es.insert(i, (k, v));
                proof {
                    assert(es@ =~= old(es)@.update(i as int, es@[i as int]));
                    if let TomlValue::Array(a0, _) = v0 {
                        if let TomlValue::Array(a2, _) = v1 {
                            assert(a2@.subrange(0, a0@.len() as int) =~= a0@);
                        }
                    }
                }
                Ok(())
            },
        },
    }
}

impl<'a> TomlValue<'a> {
    /// Whether the value is a table.
    pub fn is_table(&self) -> (r: bool)
        ensures
            r == (self is Table),
    {
        match self {
            TomlValue::Table(_) => true,
            _ => false,
        }
    }
}

/// Errors for the typed getters of a table.
#[derive(Debug)]
pub enum TomlGetError<'a> {
    /// There was no value for the key.
    InvalidKey,
    /// The value for the key had another type: the value and its type.
    TypeMismatch(&'a TomlValue<'a>, TomlValueType),
}

/// What a typed getter returns when the key's value does not have the type
/// asked for: nothing for a missing key, else the value and its type.
pub open spec fn get_error_for<'a>(es: Seq<Entry<'a>>, k: Seq<u8>, e: TomlGetError<'a>) -> bool {
    let i = first_key(es, k, 0);
    if i < 0 {
        e is InvalidKey
    } else {
        e matches TomlGetError::TypeMismatch(v, ty) && *v == es[i].1 && ty == es[i].1.spec_ty()
    }
}

impl<'a> TomlTable<'a> {
    /// The entry for a key, found by its text.
    pub open spec fn lookup(&self, k: Seq<u8>) -> Option<TomlValue<'a>> {
        let i = first_key(self.entries@, k, 0);
        if i < 0 {
            None
        } else {
            Some(self.entries@[i].1)
        }
    }

    /// The value for a key.
    pub fn get(&self, key: &str) -> (r: Option<&TomlValue<'a>>)
        ensures
            match self.lookup(key.spec_bytes()) {
                None => r is None,
                Some(v) => r matches Some(x) && *x == v,
            },
    {
        match find_key(&self.entries, key.as_bytes()) {
            None => None,
            Some(i) => Some(&self.entries[i].1),
        }
    }

    /// The value for a key, if it is a table.
    pub fn get_table(&'a self, key: &str) -> (r: Result<&'a TomlTable<'a>, TomlGetError<'a>>)
        ensures
            match r {
                Ok(t) => self.lookup(key.spec_bytes()) == Some(TomlValue::Table(*t)),
                Err(e) => get_error_for(self.entries@, key.spec_bytes(), e) && !(self.lookup(
                    key.spec_bytes(),
                ) matches Some(TomlValue::Table(_))),
            },
    {
        match self.get(key) {
            None => Err(TomlGetError::InvalidKey),
            Some(v) => match v {
                TomlValue::Table(t) => Ok(t),
                _ => Err(TomlGetError::TypeMismatch(v, v.ty())),
            },
        }
    }

    /// The value for a key, if it is a string.
    pub fn get_string(&'a self, key: &str) -> (r: Result<&'a str, TomlGetError<'a>>)
        ensures
            match r {
                Ok(s) => self.lookup(key.spec_bytes()) matches Some(TomlValue::String(ts)) && (ts.wf()
                    && vstd::utf8::valid_utf8(ts.content()) ==> s.spec_bytes() == ts.content()),
                Err(e) => get_error_for(self.entries@, key.spec_bytes(), e) && !(self.lookup(
                    key.spec_bytes(),
                ) matches Some(TomlValue::String(_))),
            },
    {
        match self.get(key) {
            None => Err(TomlGetError::InvalidKey),
            Some(v) => match v {
                TomlValue::String(ts) => Ok(ts.as_str()),
                _ => Err(TomlGetError::TypeMismatch(v, v.ty())),
            },
        }
    }

    /// The value for a key, if it is an integer.
    pub fn get_integer(&'a self, key: &str) -> (r: Result<i64, TomlGetError<'a>>)
        ensures
            match r {
                Ok(i) => self.lookup(key.spec_bytes()) == Some(TomlValue::Integer(i)),
                Err(e) => get_error_for(self.entries@, key.spec_bytes(), e) && !(self.lookup(
                    key.spec_bytes(),
                ) matches Some(TomlValue::Integer(_))),
            },
    {
        match self.get(key) {
            None => Err(TomlGetError::InvalidKey),
            Some(v) => match v {
                TomlValue::Integer(i) => Ok(*i),
                _ => Err(TomlGetError::TypeMismatch(v, v.ty())),
            },
        }
    }

    /// The value for a key, if it is a float (as its literal).
    pub fn get_float(&'a self, key: &str) -> (r: Result<&'a TomlFloat, TomlGetError<'a>>)
        ensures
            match r {
                Ok(f) => self.lookup(key.spec_bytes()) == Some(TomlValue::Float(*f)),
                Err(e) => get_error_for(self.entries@, key.spec_bytes(), e) && !(self.lookup(
                    key.spec_bytes(),
                ) matches Some(TomlValue::Float(_))),
            },
    {
        match self.get(key) {
            None => Err(TomlGetError::InvalidKey),
            Some(v) => match v {
                TomlValue::Float(f) => Ok(f),
                _ => Err(TomlGetError::TypeMismatch(v, v.ty())),
            },
        }
    }

    /// The value for a key, if it is a boolean.
    pub fn get_boolean(&'a self, key: &str) -> (r: Result<bool, TomlGetError<'a>>)
        ensures
            match r {
                Ok(b) => self.lookup(key.spec_bytes()) == Some(TomlValue::Boolean(b)),
                Err(e) => get_error_for(self.entries@, key.spec_bytes(), e) && !(self.lookup(
                    key.spec_bytes(),
                ) matches Some(TomlValue::Boolean(_))),
            },
    {
        match self.get(key) {
            None => Err(TomlGetError::InvalidKey),
            Some(v) => match v {
                TomlValue::Boolean(b) => Ok(*b),
                _ => Err(TomlGetError::TypeMismatch(v, v.ty())),
            },
        }
    }

    /// The value for a key, if it is an array.
    pub fn get_array(&'a self, key: &str) -> (r: Result<&'a Vec<TomlValue<'a>>, TomlGetError<'a>>)
        ensures
            match r {
                Ok(a) => self.lookup(key.spec_bytes()) matches Some(TomlValue::Array(a2, _)) && a2 == *a,
                Err(e) => get_error_for(self.entries@, key.spec_bytes(), e) && !(self.lookup(
                    key.spec_bytes(),
                ) matches Some(TomlValue::Array(_, _))),
            },
    {
        match self.get(key) {
            None => Err(TomlGetError::InvalidKey),
            Some(v) => match v {
                TomlValue::Array(a, _) => Ok(a),
                _ => Err(TomlGetError::TypeMismatch(v, v.ty())),
            },
        }
    }

    /// The number of entries.
    pub fn len(&self) -> (r: usize)
        ensures
            r == self.entries@.len(),
    {
        self.entries.len()
    }
}

} // verus!
