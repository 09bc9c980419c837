//! When two trees are the same: the same key texts in the same order, the
//! same table origins, the same array elements and the same scalar values.
//! Parsing the same bytes yields the same tree, and whether a path is blocked
//! depends on nothing else.

use vstd::prelude::*;

use crate::table::{
    Action, Entry, appended, blocked, done, first_key, header_reusable, last_table_done, leaf_blocked, leaf_done,
    replaced_at, step_into,
};
use crate::types::{TableOrigin, TomlTable, TomlValue};

verus! {

/// Two scalar values are the same value: the same text for strings, the
/// same literal and sign for floats, equal otherwise.
pub open spec fn same_scalar<'a>(v1: TomlValue<'a>, v2: TomlValue<'a>) -> bool {
    match v1 {
        TomlValue::String(a) => v2 matches TomlValue::String(b) && a.content() == b.content(),
        TomlValue::Float(f) => v2 matches TomlValue::Float(g) && f.negative == g.negative && f.literal@ == g.literal@,
        TomlValue::Integer(_) | TomlValue::Boolean(_) | TomlValue::Time(_) | TomlValue::Date(_) | TomlValue::DateTime(_)
        | TomlValue::OffsetDateTime(_) => v2 == v1,
        _ => false,
    }
}

/// The two values are the same tree: tables with the same origins and
/// entries, arrays of the same kind with the same elements in order, and the
/// same scalars.
pub open spec fn same_shape<'a>(v1: TomlValue<'a>, v2: TomlValue<'a>) -> bool
    decreases v1, 0nat,
{
    match v1 {
        TomlValue::Table(t1) => match v2 {
            TomlValue::Table(t2) => t1.origin == t2.origin && same_entries(t1.entries@, t2.entries@),
            _ => false,
        },
        TomlValue::Array(a1, f1) => match v2 {
            TomlValue::Array(a2, f2) => f1 == f2 && a1@.len() == a2@.len() && forall|i: int|
                0 <= i < a1@.len() ==> same_shape(#[trigger] a1@[i], a2@[i]),
            _ => false,
        },
        _ => same_scalar(v1, v2),
    }
}

/// The two entry lists are the same, key by key.
pub open spec fn same_entries<'a>(e1: Seq<Entry<'a>>, e2: Seq<Entry<'a>>) -> bool
    decreases e1, 1nat,
{
    e1.len() == e2.len() && forall|i: int|
        0 <= i < e1.len() ==> (#[trigger] e1[i]).0.content() == e2[i].0.content() && same_shape(e1[i].1, e2[i].1)
}

/// The two actions are of one kind (the assigned values aside).
pub open spec fn same_kind<'a>(a1: Action<'a>, a2: Action<'a>) -> bool {
    (a1 is Assign && a2 is Assign) || (a1 is Header && a2 is Header) || (a1 is ArrayHeader && a2 is ArrayHeader)
}

/// Two assignments of values of one shape, or two headers of one kind.
pub open spec fn same_action<'a>(a1: Action<'a>, a2: Action<'a>) -> bool {
    same_kind(a1, a2) && (a1 is Assign ==> same_shape(a1->Assign_0, a2->Assign_0))
}

proof fn lemma_same_keys<'a>(e1: Seq<Entry<'a>>, e2: Seq<Entry<'a>>, k: Seq<u8>)
    requires
        same_entries(e1, e2),
    ensures
        first_key(e1, k, 0) == first_key(e2, k, 0),
        first_key(e1, k, 0) >= 0 ==> same_shape(e1[first_key(e1, k, 0)].1, e2[first_key(e1, k, 0)].1),
{
    assert forall|j: int| 0 <= j < e1.len() implies (#[trigger] e2[j]).0.content() == e1[j].0.content() by {
        assert(same_shape(e1[j].1, e2[j].1));
    }
    crate::laws::lemma_first_key_same_keys(e1, e2, k, 0);
    let i = first_key(e1, k, 0);
    if i >= 0 {
        crate::laws::lemma_first_key_bounds(e1, k, 0);
        assert(same_shape(e1[i].1, e2[i].1));
    }
}

/// Whether a path is blocked depends only on the structure of the entries.
pub proof fn lemma_blocked_congr<'a>(
    e1: Seq<Entry<'a>>,
    e2: Seq<Entry<'a>>,
    path: Seq<Seq<u8>>,
    a1: Action<'a>,
    a2: Action<'a>,
)
    requires
        same_entries(e1, e2),
        same_kind(a1, a2),
        path.len() >= 1,
    ensures
        blocked(e1, path, a1) == blocked(e2, path, a2),
    decreases path.len(),
{
    let k = path[0];
    lemma_same_keys(e1, e2, k);
    let i = first_key(e1, k, 0);
    if i >= 0 {
        if let TomlValue::Array(a, _) = e1[i].1 {
            if a@.len() > 0 {
                let b = e2[i].1->Array_0;
                assert(same_shape(a@.last(), b@.last()));
            }
        }
    }
    if path.len() > 1 {
        if i < 0 {
            lemma_blocked_empty(path.drop_first(), a1);
            lemma_blocked_empty(path.drop_first(), a2);
        } else {
            match e1[i].1 {
                TomlValue::Table(c1) => {
                    let c2 = e2[i].1->Table_0;
                    lemma_blocked_congr(c1.entries@, c2.entries@, path.drop_first(), a1, a2);
                },
                TomlValue::Array(a, f) => {
                    if f && a@.len() > 0 {
                        let b = e2[i].1->Array_0;
                        assert(same_shape(a@.last(), b@.last()));
                        match a@.last() {
                            TomlValue::Table(c1) => {
                                let c2 = b@.last()->Table_0;
                                lemma_blocked_congr(c1.entries@, c2.entries@, path.drop_first(), a1, a2);
                            },
                            _ => {},
                        }
                    }
                },
                _ => {},
            }
        }
    }
}

/// Nothing is blocked in an empty table.
pub proof fn lemma_blocked_empty<'a>(path: Seq<Seq<u8>>, act: Action<'a>)
    requires
        path.len() >= 1,
    ensures
        !blocked(Seq::empty(), path, act),
    decreases path.len(),
{
    if path.len() > 1 {
        lemma_blocked_empty(path.drop_first(), act);
    }
}

proof fn lemma_same_appended<'a>(e1: Seq<Entry<'a>>, e2: Seq<Entry<'a>>, k: Seq<u8>, n1: Seq<Entry<'a>>, n2: Seq<Entry<'a>>)
    requires
        same_entries(e1, e2),
        appended(e1, k, n1),
        appended(e2, k, n2),
        same_shape(n1.last().1, n2.last().1),
    ensures
        same_entries(n1, n2),
{
    assert forall|j: int| 0 <= j < n1.len() implies (#[trigger] n1[j]).0.content() == n2[j].0.content() && same_shape(
        n1[j].1,
        n2[j].1,
    ) by {
        if j < e1.len() {
            assert(n1[j] == n1.subrange(0, e1.len() as int)[j]);
            assert(n2[j] == n2.subrange(0, e2.len() as int)[j]);
            assert(same_shape(e1[j].1, e2[j].1));
        }
    }
}

proof fn lemma_same_replaced<'a>(e1: Seq<Entry<'a>>, e2: Seq<Entry<'a>>, i: int, n1: Seq<Entry<'a>>, n2: Seq<Entry<'a>>)
    requires
        same_entries(e1, e2),
        replaced_at(e1, i, n1),
        replaced_at(e2, i, n2),
        same_shape(n1[i].1, n2[i].1),
    ensures
        same_entries(n1, n2),
{
    assert forall|j: int| 0 <= j < n1.len() implies (#[trigger] n1[j]).0.content() == n2[j].0.content() && same_shape(
        n1[j].1,
        n2[j].1,
    ) by {
        assert(same_shape(e1[j].1, e2[j].1));
    }
}

proof fn lemma_empty_tables_same<'a>(v1: TomlValue<'a>, v2: TomlValue<'a>, o: TableOrigin)
    requires
        crate::table::is_empty_table(v1, o),
        crate::table::is_empty_table(v2, o),
    ensures
        same_shape(v1, v2),
{
    let t1 = v1->Table_0;
    let t2 = v2->Table_0;
    assert(same_entries(t1.entries@, t2.entries@));
}

/// Taking paths of one kind, along one key path, in entries of one structure
/// gives entries of one structure.
pub proof fn lemma_done_congr<'a>(
    e1: Seq<Entry<'a>>,
    e2: Seq<Entry<'a>>,
    path: Seq<Seq<u8>>,
    a1: Action<'a>,
    a2: Action<'a>,
    n1: Seq<Entry<'a>>,
    n2: Seq<Entry<'a>>,
)
    requires
        same_entries(e1, e2),
        same_action(a1, a2),
        path.len() >= 1,
        !blocked(e1, path, a1),
        done(e1, path, a1, n1),
        done(e2, path, a2, n2),
    ensures
        same_entries(n1, n2),
    decreases path.len(),
{
    let k = path[0];
    lemma_same_keys(e1, e2, k);
    lemma_blocked_congr(e1, e2, path, a1, a2);
    let i = first_key(e1, k, 0);
    if path.len() == 1 {
        match a1 {
            Action::Assign(v1) => {
                lemma_same_appended(e1, e2, k, n1, n2);
            },
            Action::Header => {
                if i < 0 {
                    lemma_empty_tables_same(n1.last().1, n2.last().1, TableOrigin::Explicit);
                    lemma_same_appended(e1, e2, k, n1, n2);
                } else {
                    match e1[i].1 {
                        TomlValue::Table(c1) => {
                            let c2 = e2[i].1->Table_0;
                            assert(same_shape(n1[i].1, n2[i].1));
                            lemma_same_replaced(e1, e2, i, n1, n2);
                        },
                        _ => {},
                    }
                }
            },
            Action::ArrayHeader => {
                if i < 0 {
                    let a = n1.last().1->Array_0;
                    let b = n2.last().1->Array_0;
                    lemma_empty_tables_same(a@[0], b@[0], TableOrigin::ArrayElement);
                    assert(a@.last() == a@[0]);
                    assert(b@.last() == b@[0]);
                    lemma_same_appended(e1, e2, k, n1, n2);
                } else {
                    let a = n1[i].1->Array_0;
                    let b = n2[i].1->Array_0;
                    let a0 = e1[i].1->Array_0;
                    let b0 = e2[i].1->Array_0;
                    lemma_empty_tables_same(a@.last(), b@.last(), TableOrigin::ArrayElement);
                    assert forall|x: int| 0 <= x < a@.len() implies same_shape(#[trigger] a@[x], b@[x]) by {
                        if x < a0@.len() {
                            assert(a@[x] == a@.subrange(0, a0@.len() as int)[x]);
                            assert(b@[x] == b@.subrange(0, b0@.len() as int)[x]);
                            assert(same_shape(a0@[x], b0@[x]));
                        }
                    }
                    assert(same_shape(n1[i].1, n2[i].1));
                    lemma_same_replaced(e1, e2, i, n1, n2);
                }
            },
        }
    } else {
        let rest = path.drop_first();
        if i < 0 {
            let c1 = n1.last().1->Table_0;
            let c2 = n2.last().1->Table_0;
            assert(same_entries(Seq::<Entry<'a>>::empty(), Seq::<Entry<'a>>::empty()));
            lemma_done_congr(Seq::empty(), Seq::empty(), rest, a1, a2, c1.entries@, c2.entries@);
            lemma_same_appended(e1, e2, k, n1, n2);
        } else {
            match e1[i].1 {
                TomlValue::Table(c1) => {
                    let d1 = e2[i].1->Table_0;
                    let c2 = n1[i].1->Table_0;
                    let d2 = n2[i].1->Table_0;
                    lemma_done_congr(c1.entries@, d1.entries@, rest, a1, a2, c2.entries@, d2.entries@);
                    lemma_same_replaced(e1, e2, i, n1, n2);
                },
                TomlValue::Array(a, _) => {
                    let b = e2[i].1->Array_0;
                    assert(last_table_done(a@, n1[i].1, rest, a1));
                    assert(last_table_done(b@, n2[i].1, rest, a2));
                    assert(same_shape(a@[a@.len() - 1], b@[b@.len() - 1]));
                    assert(same_shape(a@.last(), b@.last()));
                    let c1 = a@.last()->Table_0;
                    let d1 = b@.last()->Table_0;
                    assert(same_entries(c1.entries@, d1.entries@));
                    let a2v = n1[i].1->Array_0;
                    let b2v = n2[i].1->Array_0;
                    let c2 = a2v@.last()->Table_0;
                    let d2 = b2v@.last()->Table_0;
                    lemma_done_congr(c1.entries@, d1.entries@, rest, a1, a2, c2.entries@, d2.entries@);
                    assert(same_shape(a2v@.last(), b2v@.last()));
                    assert forall|x: int| 0 <= x < a2v@.len() implies same_shape(#[trigger] a2v@[x], b2v@[x]) by {
                        if x < a@.len() - 1 {
                            assert(a2v@[x] == a2v@.subrange(0, a@.len() - 1)[x]);
                            assert(a@[x] == a@.subrange(0, a@.len() - 1)[x]);
                            assert(b2v@[x] == b2v@.subrange(0, b@.len() - 1)[x]);
                            assert(b@[x] == b@.subrange(0, b@.len() - 1)[x]);
                            assert(same_shape(a@[x], b@[x]));
                        } else {
                            assert(a2v@[x] == a2v@.last());
                            assert(b2v@[x] == b2v@.last());
                        }
                    }
                    assert(same_shape(n1[i].1, n2[i].1));
                    lemma_same_replaced(e1, e2, i, n1, n2);
                },
                _ => {},
            }
        }
    }
}

/// Whether an assignment is blocked does not depend on the value assigned.
pub proof fn lemma_blocked_any_value<'a>(es: Seq<Entry<'a>>, path: Seq<Seq<u8>>, v1: TomlValue<'a>, v2: TomlValue<'a>)
    requires
        path.len() >= 1,
    ensures
        blocked(es, path, Action::Assign(v1)) == blocked(es, path, Action::Assign(v2)),
    decreases path.len(),
{
    if path.len() > 1 {
        let i = first_key(es, path[0], 0);
        if i < 0 {
            lemma_blocked_any_value(Seq::empty(), path.drop_first(), v1, v2);
        } else {
            match step_into(es[i].1) {
                Some(c) => lemma_blocked_any_value(c.entries@, path.drop_first(), v1, v2),
                None => {},
            }
        }
    }
}

} // verus!
