//! The order of the names of a record: records keep their fields in strict
//! order of their names, at every level.
use crate::text::text_before;
use crate::tree::{assign_spec, entries_find, entries_get, entries_insert, lemma_find_get};
use crate::value::{StructMap, ValueView};
use vstd::prelude::*;

verus! {

/// Whether the names come in strict order, so that none comes twice.
pub open spec fn keys_ordered(entries: Seq<(Seq<char>, ValueView)>) -> bool {
    forall|i: int, j: int|
        0 <= i < j < entries.len() ==> text_before(
            (#[trigger] entries[i]).0,
            (#[trigger] entries[j]).0,
        )
}

/// Whether every record in a value keeps its fields in strict order of
/// their names.
pub open spec fn well_ordered(v: ValueView) -> bool
    decreases v,
{
    match v {
        ValueView::Struct(entries) => records_ordered(entries),
        _ => true,
    }
}

/// Whether the fields come in strict order of their names, and every
/// record among their values is well ordered.
pub open spec fn records_ordered(entries: Seq<(Seq<char>, ValueView)>) -> bool
    decreases entries,
{
    &&& keys_ordered(entries)
    &&& forall|i: int| 0 <= i < entries.len() ==> well_ordered((#[trigger] entries[i]).1)
}

impl StructMap {
    /// Whether the record, and every record in it, keeps its fields in
    /// strict order of their names: the invariant of a record that was made
    /// by [`StructMap::new`] and filled by [`StructMap::insert`] with values
    /// of the same kind.
    pub open spec fn wf(&self) -> bool {
        records_ordered(self@)
    }
}

/// Of two different texts one comes before the other.
pub proof fn lemma_before_total(a: Seq<char>, b: Seq<char>)
    requires
        a != b,
    ensures
        text_before(a, b) || text_before(b, a),
    decreases a.len(),
{
    if a.len() > 0 && b.len() > 0 {
        if a[0] == b[0] {
            if a.drop_first() == b.drop_first() {
                assert(a =~= seq![a[0]] + a.drop_first());
                assert(b =~= seq![b[0]] + b.drop_first());
            }
            lemma_before_total(a.drop_first(), b.drop_first());
        } else {
            if (a[0] as u32) == (b[0] as u32) {
                vstd::utf8::char_u32_cast(a[0], a[0] as u32);
                vstd::utf8::char_u32_cast(b[0], b[0] as u32);
            }
        }
    } else if a.len() == 0 && b.len() == 0 {
        assert(a =~= b);
    }
}

/// What comes before a text comes before what that text comes before.
pub proof fn lemma_before_transitive(a: Seq<char>, b: Seq<char>, c: Seq<char>)
    requires
        text_before(a, b),
        text_before(b, c),
    ensures
        text_before(a, c),
    decreases a.len(),
{
    if a.len() > 0 && b.len() > 0 && c.len() > 0 {
        if a[0] == b[0] && b[0] == c[0] {
            lemma_before_transitive(a.drop_first(), b.drop_first(), c.drop_first());
        }
    }
}

/// Putting a field into a list with names in strict order keeps the names
/// in strict order; the list then holds the field, and besides it only
/// fields that it held before.
pub proof fn lemma_insert_keeps_order(
    entries: Seq<(Seq<char>, ValueView)>,
    key: Seq<char>,
    v: ValueView,
)
    requires
        keys_ordered(entries),
    ensures
        keys_ordered(entries_insert(entries, key, v)),
        forall|i: int|
            0 <= i < entries_insert(entries, key, v).len() ==> (#[trigger] entries_insert(
                entries,
                key,
                v,
            )[i]) == (key, v) || exists|j: int|
                0 <= j < entries.len() && entries[j] == entries_insert(entries, key, v)[i],
    decreases entries.len(),
{
    let r = entries_insert(entries, key, v);
    if entries.len() == 0 {
    } else if entries[0].0 == key {
        let rest = entries.drop_first();
        assert forall|i: int, j: int| 0 <= i < j < r.len() implies text_before(
            (#[trigger] r[i]).0,
            (#[trigger] r[j]).0,
        ) by {
            if i == 0 {
                assert(r[j] == entries[j]);
                assert(text_before(entries[0].0, entries[j].0));
            } else {
                assert(r[i] == entries[i] && r[j] == entries[j]);
            }
        }
        assert forall|i: int| 0 <= i < r.len() implies (#[trigger] r[i]) == (key, v) || exists|
            j: int,
        |
            0 <= j < entries.len() && entries[j] == r[i] by {
            if i > 0 {
                assert(entries[i] == r[i]);
            }
        }
    } else if text_before(key, entries[0].0) {
        assert forall|i: int, j: int| 0 <= i < j < r.len() implies text_before(
            (#[trigger] r[i]).0,
            (#[trigger] r[j]).0,
        ) by {
            if i == 0 {
                assert(r[j] == entries[j - 1]);
                if j > 1 {
                    assert(text_before(entries[0].0, entries[j - 1].0));
                    lemma_before_transitive(key, entries[0].0, entries[j - 1].0);
                }
            } else {
                assert(r[i] == entries[i - 1] && r[j] == entries[j - 1]);
            }
        }
        assert forall|i: int| 0 <= i < r.len() implies (#[trigger] r[i]) == (key, v) || exists|
            j: int,
        |
            0 <= j < entries.len() && entries[j] == r[i] by {
            if i > 0 {
                assert(entries[i - 1] == r[i]);
            }
        }
    } else {
        let rest = entries.drop_first();
        assert forall|i: int, j: int| 0 <= i < j < rest.len() implies text_before(
            (#[trigger] rest[i]).0,
            (#[trigger] rest[j]).0,
        ) by {
            assert(rest[i] == entries[i + 1] && rest[j] == entries[j + 1]);
        }
        lemma_insert_keeps_order(rest, key, v);
        let inner = entries_insert(rest, key, v);
        assert(r == seq![entries[0]] + inner);
        lemma_before_total(entries[0].0, key);
        assert(text_before(entries[0].0, key));
        assert forall|i: int, j: int| 0 <= i < j < r.len() implies text_before(
            (#[trigger] r[i]).0,
            (#[trigger] r[j]).0,
        ) by {
            if i == 0 {
                let x = inner[j - 1];
                assert(r[j] == x);
                if x == (key, v) {
                } else {
                    let m = choose|m: int| 0 <= m < rest.len() && rest[m] == x;
                    assert(rest[m] == entries[m + 1]);
                    assert(text_before(entries[0].0, entries[m + 1].0));
                }
            } else {
                assert(r[i] == inner[i - 1] && r[j] == inner[j - 1]);
            }
        }
        assert forall|i: int| 0 <= i < r.len() implies (#[trigger] r[i]) == (key, v) || exists|
            j: int,
        |
            0 <= j < entries.len() && entries[j] == r[i] by {
            if i == 0 {
                assert(entries[0] == r[0]);
            } else {
                let x = inner[i - 1];
                assert(r[i] == x);
                if x != (key, v) {
                    let m = choose|m: int| 0 <= m < rest.len() && rest[m] == x;
                    assert(entries[m + 1] == x);
                }
            }
        }
    }
}

/// Putting a well-ordered value into a list of well-ordered fields gives a
/// list of well-ordered fields.
pub proof fn lemma_insert_ordered_record(
    entries: Seq<(Seq<char>, ValueView)>,
    key: Seq<char>,
    v: ValueView,
)
    requires
        records_ordered(entries),
        well_ordered(v),
    ensures
        records_ordered(entries_insert(entries, key, v)),
{
    lemma_insert_keeps_order(entries, key, v);
    let r = entries_insert(entries, key, v);
    assert forall|i: int| 0 <= i < r.len() implies well_ordered((#[trigger] r[i]).1) by {
        if r[i] != (key, v) {
            let j = choose|j: int| 0 <= j < entries.len() && entries[j] == r[i];
            assert(well_ordered(entries[j].1));
        }
    }
}

/// Putting a well-ordered value at a path below well-ordered fields gives
/// well-ordered fields.
pub proof fn lemma_assign_ordered(
    entries: Seq<(Seq<char>, ValueView)>,
    parts: Seq<Seq<char>>,
    v: ValueView,
)
    requires
        records_ordered(entries),
        well_ordered(v),
        assign_spec(entries, parts, v) is Some,
    ensures
        records_ordered(assign_spec(entries, parts, v)->Some_0),
    decreases parts.len(),
{
    if parts.len() == 1 {
        lemma_insert_ordered_record(entries, parts[0], v);
    } else {
        let key = parts[0];
        let rest = parts.drop_first();
        match entries_get(entries, key) {
            None => {
                assert(records_ordered(Seq::<(Seq<char>, ValueView)>::empty()));
                lemma_assign_ordered(Seq::empty(), rest, v);
                let sub = assign_spec(Seq::empty(), rest, v)->Some_0;
                lemma_insert_ordered_record(entries, key, ValueView::Struct(sub));
            },
            Some(ValueView::Struct(sub)) => {
                lemma_find_get(entries, key);
                let j = entries_find(entries, key);
                assert(well_ordered(entries[j].1));
                lemma_assign_ordered(sub, rest, v);
                let sub2 = assign_spec(sub, rest, v)->Some_0;
                let r = entries.update(j, (key, ValueView::Struct(sub2)));
                assert forall|a: int, b: int| 0 <= a < b < r.len() implies text_before(
                    (#[trigger] r[a]).0,
                    (#[trigger] r[b]).0,
                ) by {
                    assert(r[a].0 == entries[a].0 && r[b].0 == entries[b].0);
                }
                assert forall|i: int| 0 <= i < r.len() implies well_ordered(
                    (#[trigger] r[i]).1,
                ) by {
                    if i != j {
                        assert(r[i] == entries[i]);
                    }
                }
            },
            Some(_) => {},
        }
    }
}

} // verus!
