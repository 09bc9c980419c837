//! Laws of table construction, proved over the contracts of `insert_path`.

use vstd::prelude::*;

use crate::table::{
    Action, Entry, appended, blocked, done, first_key, keys_unique, replaced_at,
};
use crate::types::{TableOrigin, TomlValue};

verus! {

/// Looking a key up in entries that extend `old` finds what it found in
/// `old`, or else looks only past `old`.
pub proof fn lemma_first_key_prefix<'a>(old: Seq<Entry<'a>>, new: Seq<Entry<'a>>, k: Seq<u8>, from: int)
    requires
        old.len() <= new.len(),
        new.subrange(0, old.len() as int) == old,
        0 <= from <= old.len(),
    ensures
        first_key(old, k, from) >= 0 ==> first_key(new, k, from) == first_key(old, k, from),
        first_key(old, k, from) < 0 ==> first_key(new, k, from) == first_key(new, k, old.len() as int),
    decreases old.len() - from,
{
    if from < old.len() {
        assert(new[from] == new.subrange(0, old.len() as int)[from]);
        lemma_first_key_prefix(old, new, k, from + 1);
    }
}

/// Entries whose keys have the same texts, position by position, find a key
/// at the same place.
pub proof fn lemma_first_key_same_keys<'a>(old: Seq<Entry<'a>>, new: Seq<Entry<'a>>, k: Seq<u8>, from: int)
    requires
        old.len() == new.len(),
        forall|j: int| 0 <= j < old.len() ==> (#[trigger] new[j]).0.content() == old[j].0.content(),
    ensures
        first_key(new, k, from) == first_key(old, k, from),
    decreases old.len() - from,
{
    if 0 <= from < old.len() {
        lemma_first_key_same_keys(old, new, k, from + 1);
    }
}

/// After a key is appended where it was missing, it is found at the end.
pub proof fn lemma_first_key_appended<'a>(old: Seq<Entry<'a>>, new: Seq<Entry<'a>>, k: Seq<u8>)
    requires
        appended(old, k, new),
        first_key(old, k, 0) < 0,
    ensures
        first_key(new, k, 0) == old.len(),
{
    lemma_first_key_prefix(old, new, k, 0);
}

/// After an entry is replaced by one with the same key, every key is found
/// where it was.
pub proof fn lemma_first_key_replaced<'a>(old: Seq<Entry<'a>>, i: int, new: Seq<Entry<'a>>, k: Seq<u8>)
    requires
        replaced_at(old, i, new),
    ensures
        first_key(new, k, 0) == first_key(old, k, 0),
{
    assert forall|j: int| 0 <= j < old.len() implies (#[trigger] new[j]).0.content() == old[j].0.content() by {
        if j != i {
            assert(new[j] == old[j]);
        }
    }
    lemma_first_key_same_keys(old, new, k, 0);
}

/// A key is defined once: after `path = v` succeeds, assigning the same path
/// again is refused as a reused key, whatever the new value.
pub proof fn lemma_key_assigned_twice<'a>(
    es0: Seq<Entry<'a>>,
    es1: Seq<Entry<'a>>,
    path: Seq<Seq<u8>>,
    v: TomlValue<'a>,
    w: TomlValue<'a>,
)
    requires
        path.len() >= 1,
        !blocked(es0, path, Action::Assign(v)),
        done(es0, path, Action::Assign(v), es1),
    ensures
        blocked(es1, path, Action::Assign(w)),
    decreases path.len(),
{
    let k = path[0];
    let i = first_key(es0, k, 0);
    reveal_with_fuel(done, 2);
    reveal_with_fuel(blocked, 2);
    if path.len() == 1 {
        lemma_first_key_appended(es0, es1, k);
    } else {
        let rest = path.drop_first();
        if i < 0 {
            lemma_first_key_appended(es0, es1, k);
            let c = es1.last().1->Table_0;
            lemma_key_assigned_twice(Seq::empty(), c.entries@, rest, v, w);
            assert(es1[es0.len() as int] == es1.last());
        } else {
            lemma_first_key_replaced(es0, i, es1, k);
            match es0[i].1 {
                TomlValue::Table(c) => {
                    let c2 = es1[i].1->Table_0;
                    lemma_key_assigned_twice(c.entries@, c2.entries@, rest, v, w);
                },
                TomlValue::Array(a, _) => {
                    assert(crate::table::last_table_done(a@, es1[i].1, rest, Action::Assign(v)));
                    let a2 = es1[i].1->Array_0;
                    let c = a@.last()->Table_0;
                    let c2 = a2@.last()->Table_0;
                    assert(done(c.entries@, rest, Action::Assign(v), c2.entries@));
                    lemma_key_assigned_twice(c.entries@, c2.entries@, rest, v, w);
                },
                _ => {},
            }
        }
    }
}

/// A table is declared by a header once: after `[k]` succeeds on a key that
/// was missing or an implicit table, a second `[k]` is refused as a reused
/// key; so is an `[[k]]`, and so is `k = v`.
pub proof fn lemma_header_twice<'a>(es0: Seq<Entry<'a>>, es1: Seq<Entry<'a>>, k: Seq<u8>, w: TomlValue<'a>)
    requires
        first_key(es0, k, 0) < 0 || es0[first_key(es0, k, 0)].1 is Table,
        !blocked(es0, seq![k], Action::Header),
        done(es0, seq![k], Action::Header, es1),
    ensures
        blocked(es1, seq![k], Action::Header),
        blocked(es1, seq![k], Action::ArrayHeader),
        blocked(es1, seq![k], Action::Assign(w)),
{
    let i = first_key(es0, k, 0);
    if i < 0 {
        lemma_first_key_appended(es0, es1, k);
    } else {
        lemma_first_key_replaced(es0, i, es1, k);
    }
}

/// Dotted keys that share their first segment fill one table: after
/// `a.b = v` and then `a.c = w` (with `b` and `c` different, and `a` missing
/// or a table), the entry `a` is one table that holds both.
pub proof fn lemma_shared_prefix<'a>(
    es0: Seq<Entry<'a>>,
    es1: Seq<Entry<'a>>,
    es2: Seq<Entry<'a>>,
    a: Seq<u8>,
    b: Seq<u8>,
    c: Seq<u8>,
    v: TomlValue<'a>,
    w: TomlValue<'a>,
)
    requires
        b != c,
        first_key(es0, a, 0) < 0 || es0[first_key(es0, a, 0)].1 is Table,
        !blocked(es0, seq![a, b], Action::Assign(v)),
        done(es0, seq![a, b], Action::Assign(v), es1),
        !blocked(es1, seq![a, c], Action::Assign(w)),
        done(es1, seq![a, c], Action::Assign(w), es2),
    ensures
        first_key(es2, a, 0) >= 0,
        es2[first_key(es2, a, 0)].1 matches TomlValue::Table(t) && t.lookup(b) == Some(v) && t.lookup(c)
            == Some(w),
{
    let path_b = seq![a, b];
    let path_c = seq![a, c];
    reveal_with_fuel(done, 2);
    reveal_with_fuel(blocked, 2);
    assert(path_b.drop_first() =~= seq![b]);
    assert(path_c.drop_first() =~= seq![c]);
    let i0 = first_key(es0, a, 0);
    let i1 = first_key(es1, a, 0);
    if i0 < 0 {
        lemma_first_key_appended(es0, es1, a);
    } else {
        lemma_first_key_replaced(es0, i0, es1, a);
    }
    assert(i1 >= 0);
    let t1 = es1[i1].1->Table_0;
    if i0 < 0 {
        assert(es1[i1] == es1.last());
        lemma_first_key_appended(Seq::empty(), t1.entries@, b);
    } else {
        let t0 = es0[i0].1->Table_0;
        lemma_first_key_appended(t0.entries@, t1.entries@, b);
    }
    assert(t1.lookup(b) == Some(v)) by {
        assert(t1.entries@[first_key(t1.entries@, b, 0)] == t1.entries@.last());
    }
    lemma_first_key_replaced(es1, i1, es2, a);
    let t2 = es2[i1].1->Table_0;
    lemma_first_key_prefix(t1.entries@, t2.entries@, b, 0);
    lemma_first_key_appended(t1.entries@, t2.entries@, c);
    assert(t2.entries@[first_key(t1.entries@, b, 0)] == t2.entries@.subrange(0, t1.entries@.len() as int)[first_key(t1.entries@, b, 0)]);
    assert(t2.entries@[first_key(t2.entries@, c, 0)] == t2.entries@.last());
}

/// A key that is not found differs from every key of the entries.
pub proof fn lemma_first_key_absent<'a>(es: Seq<Entry<'a>>, k: Seq<u8>, from: int)
    requires
        0 <= from,
        first_key(es, k, from) < 0,
    ensures
        forall|j: int| from <= j < es.len() ==> (#[trigger] es[j]).0.content() != k,
    decreases es.len() - from,
{
    if from < es.len() {
        lemma_first_key_absent(es, k, from + 1);
    }
}

/// Keys stay distinct: a table whose keys are distinct still has distinct
/// keys after any key path or header is taken in it.
pub proof fn lemma_keys_stay_unique<'a>(
    es0: Seq<Entry<'a>>,
    es1: Seq<Entry<'a>>,
    path: Seq<Seq<u8>>,
    act: Action<'a>,
)
    requires
        path.len() >= 1,
        keys_unique(es0),
        !blocked(es0, path, act),
        done(es0, path, act, es1),
    ensures
        keys_unique(es1),
{
    let k = path[0];
    let i = first_key(es0, k, 0);
    if i < 0 {
        if appended(es0, k, es1) {
            lemma_first_key_absent(es0, k, 0);
            assert forall|x: int, y: int| 0 <= x < y < es1.len() implies (#[trigger] es1[x].0.content())
                != (#[trigger] es1[y].0.content()) by {
                assert(es1[x] == es1.subrange(0, es0.len() as int)[x]);
                if y < es0.len() {
                    assert(es1[y] == es1.subrange(0, es0.len() as int)[y]);
                } else {
                    assert(es1[y] == es1.last());
                }
            }
        }
    }
    if i >= 0 {
        if replaced_at(es0, i, es1) {
            assert forall|x: int, y: int| 0 <= x < y < es1.len() implies (#[trigger] es1[x].0.content())
                != (#[trigger] es1[y].0.content()) by {
                assert(es1[x].0.content() == es0[x].0.content());
                assert(es1[y].0.content() == es0[y].0.content());
            }
        } else {
            assert(es1 == es0);
        }
    }
}

/// A key that is found is found at an index of the entries.
pub proof fn lemma_first_key_bounds<'a>(es: Seq<Entry<'a>>, k: Seq<u8>, from: int)
    ensures
        first_key(es, k, from) >= 0 ==> from <= first_key(es, k, from) < es.len() && es[first_key(
            es,
            k,
            from,
        )].0.content() == k,
        first_key(es, k, from) >= -1,
    decreases es.len() - from,
{
    if 0 <= from < es.len() && es[from].0.content() != k {
        lemma_first_key_bounds(es, k, from + 1);
    }
}

/// Parsing is deterministic: two parses of the same bytes give the same root
/// table: the same keys in the same order, the same table kinds, the same
/// array elements and the same scalar values.
pub proof fn lemma_parse_deterministic<'a>(
    s: Seq<u8>,
    a1: Seq<Entry<'a>>,
    st1: Seq<crate::parser::Statement<'a>>,
    a2: Seq<Entry<'a>>,
    st2: Seq<crate::parser::Statement<'a>>,
)
    requires
        crate::parser::doc_from(s, 0, Seq::empty(), Seq::empty(), a1, st1),
        crate::parser::doc_from(s, 0, Seq::empty(), Seq::empty(), a2, st2),
    ensures
        crate::shape::same_entries(a1, a2),
{
    assert(crate::shape::same_entries(Seq::<Entry<'a>>::empty(), Seq::<Entry<'a>>::empty()));
    crate::parser::lemma_doc_unique(s, 0, Seq::empty(), Seq::empty(), a1, st1, Seq::empty(), a2, st2);
}

/// Every table inside the value has distinct keys.
pub open spec fn value_keys_unique<'a>(v: TomlValue<'a>) -> bool
    decreases v, 0nat,
{
    match v {
        TomlValue::Table(t) => tree_keys_unique(t.entries@),
        TomlValue::Array(a, _) => forall|i: int| 0 <= i < a@.len() ==> value_keys_unique(#[trigger] a@[i]),
        _ => true,
    }
}

/// The entries have distinct keys, and so does every table below them.
pub open spec fn tree_keys_unique<'a>(es: Seq<Entry<'a>>) -> bool
    decreases es, 1nat,
{
    keys_unique(es) && forall|i: int| 0 <= i < es.len() ==> value_keys_unique(#[trigger] es[i].1)
}

proof fn lemma_empty_table_unique<'a>(v: TomlValue<'a>, o: TableOrigin)
    requires
        crate::table::is_empty_table(v, o),
    ensures
        value_keys_unique(v),
{
    let t = v->Table_0;
    assert(tree_keys_unique(t.entries@));
}

proof fn lemma_unique_appended<'a>(e: Seq<Entry<'a>>, k: Seq<u8>, n: Seq<Entry<'a>>)
    requires
        tree_keys_unique(e),
        first_key(e, k, 0) < 0,
        appended(e, k, n),
        value_keys_unique(n.last().1),
    ensures
        tree_keys_unique(n),
{
    lemma_first_key_absent(e, k, 0);
    assert forall|x: int, y: int| 0 <= x < y < n.len() implies (#[trigger] n[x].0.content()) != (#[trigger] n[y].0.content()) by {
        assert(n[x] == n.subrange(0, e.len() as int)[x]);
        if y < e.len() {
            assert(n[y] == n.subrange(0, e.len() as int)[y]);
        } else {
            assert(n[y] == n.last());
        }
    }
    assert forall|i: int| 0 <= i < n.len() implies value_keys_unique(#[trigger] n[i].1) by {
        if i < e.len() {
            assert(n[i] == n.subrange(0, e.len() as int)[i]);
        }
    }
}

proof fn lemma_unique_replaced<'a>(e: Seq<Entry<'a>>, i: int, n: Seq<Entry<'a>>)
    requires
        tree_keys_unique(e),
        replaced_at(e, i, n),
        value_keys_unique(n[i].1),
    ensures
        tree_keys_unique(n),
{
    assert forall|x: int, y: int| 0 <= x < y < n.len() implies (#[trigger] n[x].0.content()) != (#[trigger] n[y].0.content()) by {
        assert(n[x].0.content() == e[x].0.content());
        assert(n[y].0.content() == e[y].0.content());
    }
    assert forall|j: int| 0 <= j < n.len() implies value_keys_unique(#[trigger] n[j].1) by {
        if j != i {
            assert(n[j] == e[j]);
        }
    }
}

/// Keys stay distinct in every table of the tree: taking a key path or a
/// header keeps it so, when an assigned value has that property itself.
pub proof fn lemma_tree_keys_stay_unique<'a>(e: Seq<Entry<'a>>, path: Seq<Seq<u8>>, act: Action<'a>, n: Seq<Entry<'a>>)
    requires
        path.len() >= 1,
        tree_keys_unique(e),
        act is Assign ==> value_keys_unique(act->Assign_0),
        !blocked(e, path, act),
        done(e, path, act, n),
    ensures
        tree_keys_unique(n),
    decreases path.len(),
{
    let k = path[0];
    let i = first_key(e, k, 0);
    lemma_first_key_bounds(e, k, 0);
    if path.len() == 1 {
        match act {
            Action::Assign(v) => {
                lemma_unique_appended(e, k, n);
            },
            Action::Header => {
                if i < 0 {
                    lemma_empty_table_unique(n.last().1, TableOrigin::Explicit);
                    lemma_unique_appended(e, k, n);
                } else {
                    match e[i].1 {
                        TomlValue::Table(c) => {
                            assert(value_keys_unique(e[i].1));
                            assert(tree_keys_unique(c.entries@));
                            assert(value_keys_unique(n[i].1));
                            lemma_unique_replaced(e, i, n);
                        },
                        _ => {},
                    }
                }
            },
            Action::ArrayHeader => {
                if i < 0 {
                    let a = n.last().1->Array_0;
                    lemma_empty_table_unique(a@[0], TableOrigin::ArrayElement);
                    assert(value_keys_unique(n.last().1));
                    lemma_unique_appended(e, k, n);
                } else {
                    let a = e[i].1->Array_0;
                    let a2 = n[i].1->Array_0;
                    assert(value_keys_unique(e[i].1));
                    lemma_empty_table_unique(a2@.last(), TableOrigin::ArrayElement);
                    assert forall|j: int| 0 <= j < a2@.len() implies value_keys_unique(#[trigger] a2@[j]) by {
                        if j < a@.len() {
                            assert(a2@[j] == a2@.subrange(0, a@.len() as int)[j]);
                        }
                    }
                    lemma_unique_replaced(e, i, n);
                }
            },
        }
    } else {
        let rest = path.drop_first();
        if i < 0 {
            let c = n.last().1->Table_0;
            assert(tree_keys_unique(Seq::<Entry<'a>>::empty()));
            lemma_tree_keys_stay_unique(Seq::empty(), rest, act, c.entries@);
            assert(value_keys_unique(n.last().1));
            lemma_unique_appended(e, k, n);
        } else {
            assert(value_keys_unique(e[i].1));
            match e[i].1 {
                TomlValue::Table(c) => {
                    let c2 = n[i].1->Table_0;
                    lemma_tree_keys_stay_unique(c.entries@, rest, act, c2.entries@);
                    assert(value_keys_unique(n[i].1));
                    lemma_unique_replaced(e, i, n);
                },
                TomlValue::Array(a, _) => {
                    assert(crate::table::last_table_done(a@, n[i].1, rest, act));
                    let a2 = n[i].1->Array_0;
                    let c = a@.last()->Table_0;
                    let c2 = a2@.last()->Table_0;
                    assert(value_keys_unique(a@[a@.len() - 1]));
                    lemma_tree_keys_stay_unique(c.entries@, rest, act, c2.entries@);
                    assert forall|j: int| 0 <= j < a2@.len() implies value_keys_unique(#[trigger] a2@[j]) by {
                        if j < a@.len() - 1 {
                            assert(a2@[j] == a2@.subrange(0, a@.len() - 1)[j]);
                            assert(a@[j] == a@.subrange(0, a@.len() - 1)[j]);
                        } else {
                            assert(a2@[j] == a2@.last());
                            assert(value_keys_unique(a2@.last()));
                        }
                    }
                    assert(value_keys_unique(n[i].1));
                    lemma_unique_replaced(e, i, n);
                },
                _ => {},
            }
        }
    }
}

} // verus!
