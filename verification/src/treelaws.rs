//! Laws of flattening and assembling: the leaves of a record, put back at
//! their paths, give the record; and every leaf is found at its path.
use crate::order::keys_ordered;
use crate::text::text_before;
use crate::tree::{
    assign_spec, entries_find, entries_get, entries_insert, flatten_entries, flatten_spec,
    join_path, lemma_split_plain, segments_named, split_path, value_at, walk,
};
use crate::value::ValueView;
use vstd::prelude::*;

verus! {

/// Whether a name can be a segment of a path: not empty, and without a dot.
pub open spec fn key_plain(key: Seq<char>) -> bool {
    key.len() > 0 && !key.contains('.')
}

/// Whether a value below the top can be written and read back as it is: a
/// leaf, or a record that has fields and is canonical.
pub open spec fn canonical(v: ValueView) -> bool
    decreases v,
{
    match v {
        ValueView::Struct(entries) => entries.len() > 0 && canonical_entries(entries),
        _ => true,
    }
}

/// Whether the fields of a record can be written and read back as they are:
/// their names come in strict order, each is a segment of a path, and each
/// value is canonical.
pub open spec fn canonical_entries(entries: Seq<(Seq<char>, ValueView)>) -> bool
    decreases entries,
{
    &&& keys_ordered(entries)
    &&& forall|i: int|
        0 <= i < entries.len() ==> key_plain((#[trigger] entries[i]).0) && canonical(entries[i].1)
}

/// The leaves of a value with their paths as segments.
pub open spec fn leaf_parts(v: ValueView) -> Seq<(Seq<Seq<char>>, ValueView)>
    decreases v,
{
    match v {
        ValueView::Struct(entries) => entries_parts(entries),
        _ => seq![(Seq::empty(), v)],
    }
}

/// The leaves of the fields of a record with their paths as segments.
pub open spec fn entries_parts(entries: Seq<(Seq<char>, ValueView)>) -> Seq<
    (Seq<Seq<char>>, ValueView),
>
    decreases entries,
{
    if entries.len() == 0 {
        Seq::empty()
    } else {
        entries_parts(entries.drop_last()) + under(
            entries.last().0,
            leaf_parts(entries.last().1),
        )
    }
}

/// The leaves with `key` put before each path.
pub open spec fn under(key: Seq<char>, leaves: Seq<(Seq<Seq<char>>, ValueView)>) -> Seq<
    (Seq<Seq<char>>, ValueView),
> {
    Seq::new(leaves.len(), |i: int| (seq![key] + leaves[i].0, leaves[i].1))
}

/// The record that grows out of `acc` when the leaves are put at their
/// paths, in order.
pub open spec fn rebuild(
    leaves: Seq<(Seq<Seq<char>>, ValueView)>,
    acc: Seq<(Seq<char>, ValueView)>,
) -> Option<Seq<(Seq<char>, ValueView)>>
    decreases leaves.len(),
{
    if leaves.len() == 0 {
        Some(acc)
    } else {
        match rebuild(leaves.drop_last(), acc) {
            None => None,
            Some(e) => assign_spec(e, leaves.last().0, leaves.last().1),
        }
    }
}

/// The record that grows out of `acc` when the named leaves are put at
/// their dotted paths, in order.
pub open spec fn rebuilt(
    leaves: Seq<(Seq<char>, ValueView)>,
    acc: Seq<(Seq<char>, ValueView)>,
) -> Option<Seq<(Seq<char>, ValueView)>>
    decreases leaves.len(),
{
    if leaves.len() == 0 {
        Some(acc)
    } else {
        match rebuilt(leaves.drop_last(), acc) {
            None => None,
            Some(e) => assign_spec(e, split_path(leaves.last().0), leaves.last().1),
        }
    }
}

/// A text that comes before another is another text, and does not come
/// after it.
pub proof fn lemma_before_asymmetric(a: Seq<char>, b: Seq<char>)
    requires
        text_before(a, b),
    ensures
        a != b,
        !text_before(b, a),
    decreases a.len(),
{
    if a.len() > 0 && b.len() > 0 && a[0] == b[0] {
        lemma_before_asymmetric(a.drop_first(), b.drop_first());
        if a == b {
            assert(a.drop_first() == b.drop_first());
        }
    }
}

/// A name after all names of a list is none of them.
pub proof fn lemma_get_absent(entries: Seq<(Seq<char>, ValueView)>, key: Seq<char>)
    requires
        forall|j: int| 0 <= j < entries.len() ==> (#[trigger] entries[j]).0 != key,
    ensures
        entries_get(entries, key) is None,
    decreases entries.len(),
{
    if entries.len() > 0 {
        let rest = entries.drop_first();
        assert forall|j: int| 0 <= j < rest.len() implies (#[trigger] rest[j]).0 != key by {
            assert(rest[j] == entries[j + 1]);
        }
        lemma_get_absent(rest, key);
    }
}

/// A field that was appended under a new name is found under it.
pub proof fn lemma_get_last(entries: Seq<(Seq<char>, ValueView)>, key: Seq<char>, v: ValueView)
    requires
        forall|j: int| 0 <= j < entries.len() ==> (#[trigger] entries[j]).0 != key,
    ensures
        entries_get(entries.push((key, v)), key) == Some(v),
    decreases entries.len(),
{
    let all = entries.push((key, v));
    if entries.len() > 0 {
        let rest = entries.drop_first();
        assert forall|j: int| 0 <= j < rest.len() implies (#[trigger] rest[j]).0 != key by {
            assert(rest[j] == entries[j + 1]);
        }
        lemma_get_last(rest, key, v);
        assert(all.drop_first() =~= rest.push((key, v)));
        assert(all[0] == entries[0]);
    } else {
        assert(all[0] == (key, v));
    }
}

/// What is found in a list is found in the list with one more field.
pub proof fn lemma_get_front(
    entries: Seq<(Seq<char>, ValueView)>,
    key: Seq<char>,
    more: (Seq<char>, ValueView),
)
    requires
        entries_get(entries, key) is Some,
    ensures
        entries_get(entries.push(more), key) == entries_get(entries, key),
    decreases entries.len(),
{
    let all = entries.push(more);
    if entries.len() > 0 {
        assert(all[0] == entries[0]);
        if entries[0].0 != key {
            assert(all.drop_first() =~= entries.drop_first().push(more));
            lemma_get_front(entries.drop_first(), key, more);
        }
    }
}

/// A field whose name comes after all names of a list goes to the end.
pub proof fn lemma_insert_at_end(
    entries: Seq<(Seq<char>, ValueView)>,
    key: Seq<char>,
    v: ValueView,
)
    requires
        forall|j: int| 0 <= j < entries.len() ==> text_before((#[trigger] entries[j]).0, key),
    ensures
        entries_insert(entries, key, v) == entries.push((key, v)),
    decreases entries.len(),
{
    if entries.len() > 0 {
        let rest = entries.drop_first();
        assert forall|j: int| 0 <= j < rest.len() implies text_before(
            (#[trigger] rest[j]).0,
            key,
        ) by {
            assert(rest[j] == entries[j + 1]);
        }
        lemma_insert_at_end(rest, key, v);
        lemma_before_asymmetric(entries[0].0, key);
        assert(seq![entries[0]] + rest.push((key, v)) =~= entries.push((key, v)));
    } else {
        assert(seq![(key, v)] =~= entries.push((key, v)));
    }
}

/// A field that was appended under a new name is the first of that name.
pub proof fn lemma_find_last(entries: Seq<(Seq<char>, ValueView)>, key: Seq<char>, v: ValueView)
    requires
        forall|j: int| 0 <= j < entries.len() ==> (#[trigger] entries[j]).0 != key,
    ensures
        entries_find(entries.push((key, v)), key) == entries.len(),
    decreases entries.len(),
{
    let all = entries.push((key, v));
    if entries.len() > 0 {
        let rest = entries.drop_first();
        assert forall|j: int| 0 <= j < rest.len() implies (#[trigger] rest[j]).0 != key by {
            assert(rest[j] == entries[j + 1]);
        }
        lemma_find_last(rest, key, v);
        assert(all.drop_first() =~= rest.push((key, v)));
        assert(all[0] == entries[0]);
    } else {
        assert(all[0] == (key, v));
    }
}

/// Putting leaves in a row is putting the first ones, and then the rest.
pub proof fn lemma_rebuild_concat(
    a: Seq<(Seq<Seq<char>>, ValueView)>,
    b: Seq<(Seq<Seq<char>>, ValueView)>,
    acc: Seq<(Seq<char>, ValueView)>,
)
    ensures
        rebuild(a + b, acc) == match rebuild(a, acc) {
            None => None,
            Some(e) => rebuild(b, e),
        },
    decreases b.len(),
{
    if b.len() == 0 {
        assert(a + b =~= a);
    } else {
        lemma_rebuild_concat(a, b.drop_last(), acc);
        assert((a + b).drop_last() =~= a + b.drop_last());
        assert((a + b).last() == b.last());
    }
}

/// The path of every leaf of the fields of a record has a segment.
pub proof fn lemma_parts_named(entries: Seq<(Seq<char>, ValueView)>)
    ensures
        forall|i: int|
            0 <= i < entries_parts(entries).len() ==> (#[trigger] entries_parts(entries)[i]).0.len()
                > 0,
    decreases entries.len(),
{
    if entries.len() > 0 {
        lemma_parts_named(entries.drop_last());
        let front = entries_parts(entries.drop_last());
        let last = under(entries.last().0, leaf_parts(entries.last().1));
        assert forall|i: int| 0 <= i < entries_parts(entries).len() implies (
        #[trigger] entries_parts(entries)[i]).0.len() > 0 by {
            if i < front.len() {
                assert(entries_parts(entries)[i] == front[i]);
            } else {
                assert(entries_parts(entries)[i] == last[i - front.len()]);
            }
        }
    }
}

/// A canonical record with fields has a leaf.
pub proof fn lemma_parts_exist(entries: Seq<(Seq<char>, ValueView)>)
    requires
        canonical_entries(entries),
        entries.len() > 0,
    ensures
        entries_parts(entries).len() > 0,
    decreases entries,
{
    let v = entries.last().1;
    assert(canonical(v));
    match v {
        ValueView::Struct(sub) => {
            lemma_parts_exist(sub);
        },
        _ => {},
    }
    assert(under(entries.last().0, leaf_parts(v)).len() == leaf_parts(v).len());
}

/// The front of a canonical list of fields is canonical.
pub proof fn lemma_canonical_front(entries: Seq<(Seq<char>, ValueView)>)
    requires
        canonical_entries(entries),
        entries.len() > 0,
    ensures
        canonical_entries(entries.drop_last()),
        forall|j: int|
            0 <= j < entries.drop_last().len() ==> text_before(
                (#[trigger] entries.drop_last()[j]).0,
                entries.last().0,
            ),
        forall|j: int|
            0 <= j < entries.drop_last().len() ==> (#[trigger] entries.drop_last()[j]).0
                != entries.last().0,
{
    let front = entries.drop_last();
    assert forall|i: int, j: int| 0 <= i < j < front.len() implies text_before(
        (#[trigger] front[i]).0,
        (#[trigger] front[j]).0,
    ) by {
        assert(front[i] == entries[i] && front[j] == entries[j]);
    }
    assert forall|i: int| 0 <= i < front.len() implies key_plain((#[trigger] front[i]).0)
        && canonical(front[i].1) by {
        assert(front[i] == entries[i]);
    }
    assert forall|j: int| 0 <= j < front.len() implies text_before(
        (#[trigger] front[j]).0,
        entries.last().0,
    ) && front[j].0 != entries.last().0 by {
        assert(front[j] == entries[j]);
        assert(text_before(entries[j].0, entries[entries.len() - 1].0));
        lemma_before_asymmetric(front[j].0, entries.last().0);
    }
}

/// Putting the leaves of one record under a new name `key` appends the
/// record that the leaves alone give.
pub proof fn lemma_rebuild_under(
    key: Seq<char>,
    leaves: Seq<(Seq<Seq<char>>, ValueView)>,
    acc: Seq<(Seq<char>, ValueView)>,
)
    requires
        leaves.len() > 0,
        rebuild(leaves, Seq::empty()) is Some,
        forall|i: int| 0 <= i < leaves.len() ==> (#[trigger] leaves[i]).0.len() > 0,
        forall|j: int| 0 <= j < acc.len() ==> text_before((#[trigger] acc[j]).0, key),
    ensures
        rebuild(under(key, leaves), acc) == Some(
            acc.push((key, ValueView::Struct(rebuild(leaves, Seq::empty())->Some_0))),
        ),
    decreases leaves.len(),
{
    let front = leaves.drop_last();
    let l = leaves.last();
    let path = seq![key] + l.0;
    assert(under(key, leaves).drop_last() =~= under(key, front));
    assert(under(key, leaves).last() == (path, l.1));
    assert(path.len() >= 2);
    assert(path[0] == key);
    assert(path.drop_first() =~= l.0);
    let inner = rebuild(front, Seq::empty())->Some_0;
    let sub = rebuild(leaves, Seq::empty())->Some_0;
    assert(assign_spec(inner, l.0, l.1) == Some(sub));
    assert forall|j: int| 0 <= j < acc.len() implies (#[trigger] acc[j]).0 != key by {
        lemma_before_asymmetric(acc[j].0, key);
    }
    if front.len() == 0 {
        assert(under(key, front) =~= Seq::empty());
        assert(rebuild(under(key, front), acc) == Some(acc));
        assert(inner =~= Seq::<(Seq<char>, ValueView)>::empty());
        lemma_get_absent(acc, key);
        lemma_insert_at_end(acc, key, ValueView::Struct(sub));
    } else {
        assert forall|i: int| 0 <= i < front.len() implies (#[trigger] front[i]).0.len() > 0 by {
            assert(front[i] == leaves[i]);
        }
        lemma_rebuild_under(key, front, acc);
        lemma_get_last(acc, key, ValueView::Struct(inner));
        lemma_find_last(acc, key, ValueView::Struct(inner));
        let e = acc.push((key, ValueView::Struct(inner)));
        assert(e.update(acc.len() as int, (key, ValueView::Struct(sub))) =~= acc.push(
            (key, ValueView::Struct(sub)),
        ));
    }
}

/// Round trip of a record at the level of segments: putting the leaves of
/// a canonical record at their paths, beginning with nothing, gives the
/// record.
pub proof fn lemma_rebuild_entries(entries: Seq<(Seq<char>, ValueView)>)
    requires
        canonical_entries(entries),
    ensures
        rebuild(entries_parts(entries), Seq::empty()) == Some(entries),
    decreases entries,
{
    if entries.len() == 0 {
        assert(entries =~= Seq::<(Seq<char>, ValueView)>::empty());
    } else {
        let front = entries.drop_last();
        let key = entries.last().0;
        let v = entries.last().1;
        lemma_canonical_front(entries);
        lemma_rebuild_entries(front);
        lemma_rebuild_concat(entries_parts(front), under(key, leaf_parts(v)), Seq::empty());
        assert(canonical(v));
        assert(entries =~= front.push((key, v)));
        match v {
            ValueView::Struct(sub) => {
                lemma_rebuild_entries(sub);
                lemma_parts_exist(sub);
                lemma_parts_named(sub);
                lemma_rebuild_under(key, entries_parts(sub), front);
            },
            _ => {
                let one = under(key, leaf_parts(v));
                assert(one.len() == 1);
                assert(one[0] == (seq![key] + Seq::<Seq<char>>::empty(), v));
                assert(seq![key] + Seq::<Seq<char>>::empty() =~= seq![key]);
                assert(one.drop_last() =~= Seq::<(Seq<Seq<char>>, ValueView)>::empty());
                assert(rebuild(one.drop_last(), front) == Some(front));
                assert(rebuild(one, front) == assign_spec(front, one.last().0, one.last().1));
                lemma_insert_at_end(front, key, v);
            },
        }
    }
}

/// Every leaf of a canonical record is found at its path.
pub proof fn lemma_walk_entries(entries: Seq<(Seq<char>, ValueView)>, i: int)
    requires
        canonical_entries(entries),
        0 <= i < entries_parts(entries).len(),
    ensures
        walk(ValueView::Struct(entries), entries_parts(entries)[i].0) == Some(
            entries_parts(entries)[i].1,
        ),
    decreases entries,
{
    let front = entries.drop_last();
    let key = entries.last().0;
    let v = entries.last().1;
    let before = entries_parts(front);
    let last = under(key, leaf_parts(v));
    let leaf = entries_parts(entries)[i];
    lemma_canonical_front(entries);
    assert(entries =~= front.push((key, v)));
    let whole = ValueView::Struct(entries);
    if i < before.len() {
        assert(leaf == before[i]);
        lemma_walk_entries(front, i);
        lemma_parts_named(front);
        let head = leaf.0[0];
        assert(leaf.0.len() > 0);
        assert(walk(ValueView::Struct(front), leaf.0) == Some(leaf.1));
        assert(entries_get(front, head) is Some);
        lemma_get_front(front, head, (key, v));
        assert(entries_get(entries, head) == entries_get(front, head));
        assert(walk(whole, leaf.0) == walk(ValueView::Struct(front), leaf.0));
    } else {
        let k = i - before.len();
        assert(leaf == last[k]);
        let q = leaf_parts(v)[k].0;
        assert(leaf.0 == seq![key] + q);
        assert(leaf.1 == leaf_parts(v)[k].1);
        assert(leaf.0[0] == key);
        assert(leaf.0.drop_first() =~= q);
        lemma_get_last(front, key, v);
        assert(entries_get(entries, key) == Some(v));
        assert(walk(whole, leaf.0) == walk(v, q));
        assert(canonical(v));
        match v {
            ValueView::Struct(sub) => {
                lemma_walk_entries(sub, k);
            },
            _ => {
                assert(q.len() == 0);
                assert(walk(v, q) == Some(v));
            },
        }
    }
}

/// The segments of two paths in a row, with a dot between them.
pub proof fn lemma_split_concat(a: Seq<char>, b: Seq<char>)
    ensures
        split_path(a + seq!['.'] + b) == split_path(a) + split_path(b),
    decreases a.len(),
{
    let all = a + seq!['.'] + b;
    crate::tree::lemma_split_nonempty(b);
    if a.len() == 0 {
        assert(all.drop_first() =~= b);
        assert(all[0] == '.');
        assert(split_path(a) =~= seq![Seq::<char>::empty()]);
        assert(split_path(all) =~= split_path(a) + split_path(b));
    } else {
        let rest = a.drop_first();
        lemma_split_concat(rest, b);
        crate::tree::lemma_split_nonempty(rest);
        assert(all.drop_first() =~= rest + seq!['.'] + b);
        assert(all[0] == a[0]);
        let inner = split_path(rest);
        let whole = split_path(all.drop_first());
        assert(whole == inner + split_path(b));
        assert(whole[0] == inner[0]);
        assert(whole.drop_first() =~= inner.drop_first() + split_path(b));
        if a[0] == '.' {
            assert(split_path(all) =~= split_path(a) + split_path(b));
        } else {
            assert(split_path(all) =~= split_path(a) + split_path(b));
        }
    }
}

/// The segments that a prefix stands for: none for the empty prefix.
pub open spec fn prefix_parts(prefix: Seq<char>) -> Seq<Seq<char>> {
    if prefix.len() == 0 {
        Seq::empty()
    } else {
        split_path(prefix)
    }
}

/// The segments of the path of a field below a prefix.
pub proof fn lemma_join_parts(prefix: Seq<char>, key: Seq<char>)
    requires
        key_plain(key),
    ensures
        join_path(prefix, key).len() > 0,
        prefix_parts(join_path(prefix, key)) == prefix_parts(prefix).push(key),
{
    lemma_split_plain(key);
    if prefix.len() > 0 {
        lemma_split_concat(prefix, key);
        assert(split_path(prefix) + seq![key] =~= split_path(prefix).push(key));
    } else {
        assert(Seq::<Seq<char>>::empty().push(key) =~= seq![key]);
    }
}

/// Whether named leaves are the leaves with paths as segments, below a
/// prefix: the same values in the same order, each name not empty and with
/// the segments of the prefix and of the path.
pub open spec fn names_match(
    named: Seq<(Seq<char>, ValueView)>,
    parts: Seq<(Seq<Seq<char>>, ValueView)>,
    prefix: Seq<Seq<char>>,
) -> bool {
    &&& named.len() == parts.len()
    &&& forall|i: int|
        0 <= i < named.len() ==> (#[trigger] named[i]).1 == parts[i].1 && named[i].0.len() > 0
            && split_path(named[i].0) == prefix + parts[i].0
}

/// Flattening a canonical value below a prefix names its leaves by the
/// prefix and their paths.
pub proof fn lemma_flatten_value(v: ValueView, prefix: Seq<char>)
    requires
        canonical(v),
        prefix.len() > 0,
    ensures
        flatten_spec(v, prefix) matches Some(named) && names_match(
            named,
            leaf_parts(v),
            prefix_parts(prefix),
        ),
    decreases v,
{
    match v {
        ValueView::Struct(entries) => {
            lemma_flatten_entries(entries, prefix);
        },
        _ => {
            let named = flatten_spec(v, prefix)->Some_0;
            assert(named.len() == 1);
            assert(named[0] == (prefix, v));
            assert(prefix_parts(prefix) + Seq::<Seq<char>>::empty() =~= prefix_parts(prefix));
        },
    }
}

/// Flattening the fields of a canonical record below a prefix names their
/// leaves by the prefix and their paths.
pub proof fn lemma_flatten_entries(entries: Seq<(Seq<char>, ValueView)>, prefix: Seq<char>)
    requires
        canonical_entries(entries),
    ensures
        flatten_entries(entries, prefix) matches Some(named) && names_match(
            named,
            entries_parts(entries),
            prefix_parts(prefix),
        ),
    decreases entries,
{
    if entries.len() > 0 {
        let front = entries.drop_last();
        let key = entries.last().0;
        let v = entries.last().1;
        lemma_canonical_front(entries);
        lemma_flatten_entries(front, prefix);
        assert(canonical(v) && key_plain(key));
        let name = join_path(prefix, key);
        lemma_join_parts(prefix, key);
        lemma_flatten_value(v, name);
        let a = flatten_entries(front, prefix)->Some_0;
        let b = flatten_spec(v, name)->Some_0;
        let pa = entries_parts(front);
        let pb = leaf_parts(v);
        let named = a + b;
        let parts = entries_parts(entries);
        assert(flatten_entries(entries, prefix) == Some(named));
        assert(parts == pa + under(key, pb));
        assert forall|i: int| 0 <= i < named.len() implies (#[trigger] named[i]).1 == parts[i].1
            && named[i].0.len() > 0 && split_path(named[i].0) == prefix_parts(prefix)
            + parts[i].0 by {
            if i < a.len() {
                assert(named[i] == a[i]);
                assert(parts[i] == pa[i]);
            } else {
                let k = i - a.len();
                assert(named[i] == b[k]);
                assert(parts[i] == under(key, pb)[k]);
                assert(split_path(b[k].0) == prefix_parts(name) + pb[k].0);
                assert(prefix_parts(prefix).push(key) + pb[k].0 =~= prefix_parts(prefix) + (
                seq![key] + pb[k].0));
            }
        }
    }
}

/// Putting named leaves at their dotted paths is putting them at the
/// segments of their names.
pub proof fn lemma_rebuilt_is_rebuild(
    named: Seq<(Seq<char>, ValueView)>,
    parts: Seq<(Seq<Seq<char>>, ValueView)>,
    acc: Seq<(Seq<char>, ValueView)>,
)
    requires
        names_match(named, parts, Seq::empty()),
    ensures
        rebuilt(named, acc) == rebuild(parts, acc),
    decreases named.len(),
{
    if named.len() > 0 {
        let nf = named.drop_last();
        let pf = parts.drop_last();
        assert forall|i: int| 0 <= i < nf.len() implies (#[trigger] nf[i]).1 == pf[i].1
            && nf[i].0.len() > 0 && split_path(nf[i].0) == Seq::<Seq<char>>::empty() + pf[i].0 by {
            assert(nf[i] == named[i]);
            assert(pf[i] == parts[i]);
        }
        lemma_rebuilt_is_rebuild(nf, pf, acc);
        let i = named.len() - 1;
        assert(named[i].1 == parts[i].1);
        assert(Seq::<Seq<char>>::empty() + parts[i].0 =~= parts[i].0);
    }
}

/// Every segment of the path of a leaf of a canonical record has a name.
pub proof fn lemma_parts_plain(entries: Seq<(Seq<char>, ValueView)>)
    requires
        canonical_entries(entries),
    ensures
        forall|i: int|
            0 <= i < entries_parts(entries).len() ==> segments_named(
                (#[trigger] entries_parts(entries)[i]).0,
            ),
    decreases entries,
{
    if entries.len() > 0 {
        let front = entries.drop_last();
        let key = entries.last().0;
        let v = entries.last().1;
        lemma_canonical_front(entries);
        lemma_parts_plain(front);
        assert(canonical(v) && key_plain(key));
        let before = entries_parts(front);
        let inner = leaf_parts(v);
        let last = under(key, inner);
        match v {
            ValueView::Struct(sub) => {
                lemma_parts_plain(sub);
            },
            _ => {},
        }
        assert forall|i: int| 0 <= i < entries_parts(entries).len() implies segments_named(
            (#[trigger] entries_parts(entries)[i]).0,
        ) by {
            if i < before.len() {
                assert(entries_parts(entries)[i] == before[i]);
            } else {
                let k = i - before.len();
                assert(entries_parts(entries)[i] == last[k]);
                let q = inner[k].0;
                let path = seq![key] + q;
                match v {
                    ValueView::Struct(sub) => {
                        assert(inner[k] == entries_parts(sub)[k]);
                        assert(segments_named(entries_parts(sub)[k].0));
                    },
                    _ => {
                        assert(q.len() == 0);
                    },
                }
                assert(segments_named(q));
                assert forall|m: int| 0 <= m < path.len() implies (#[trigger] path[m]).len()
                    > 0 by {
                    if m > 0 {
                        assert(path[m] == q[m - 1]);
                    }
                }
            }
        }
    }
}

/// Round trip of a record: the leaves of a canonical record, put back at
/// their dotted paths in the order of flattening, give the record; and no
/// path among them has an empty segment.
pub proof fn lemma_tree_round_trip(entries: Seq<(Seq<char>, ValueView)>)
    requires
        canonical_entries(entries),
    ensures
        flatten_spec(ValueView::Struct(entries), Seq::empty()) matches Some(named) && rebuilt(
            named,
            Seq::empty(),
        ) == Some(entries) && forall|i: int|
            0 <= i < named.len() ==> segments_named(split_path((#[trigger] named[i]).0)),
{
    lemma_flatten_entries(entries, Seq::empty());
    let named = flatten_entries(entries, Seq::empty())->Some_0;
    let parts = entries_parts(entries);
    lemma_rebuilt_is_rebuild(named, parts, Seq::empty());
    lemma_rebuild_entries(entries);
    lemma_parts_plain(entries);
    assert forall|i: int| 0 <= i < named.len() implies segments_named(
        split_path((#[trigger] named[i]).0),
    ) by {
        assert(Seq::<Seq<char>>::empty() + parts[i].0 =~= parts[i].0);
        assert(segments_named(parts[i].0));
    }
}

/// Path equivalence: every leaf that flattening a canonical record names
/// is the value at that dotted path in the record.
pub proof fn lemma_leaves_at_their_paths(entries: Seq<(Seq<char>, ValueView)>)
    requires
        canonical_entries(entries),
    ensures
        flatten_spec(ValueView::Struct(entries), Seq::empty()) matches Some(named) && forall|
            i: int,
        |
            0 <= i < named.len() ==> value_at(
                ValueView::Struct(entries),
                (#[trigger] named[i]).0,
            ) == Some(named[i].1),
{
    lemma_flatten_entries(entries, Seq::empty());
    let named = flatten_entries(entries, Seq::empty())->Some_0;
    let parts = entries_parts(entries);
    assert forall|i: int| 0 <= i < named.len() implies value_at(
        ValueView::Struct(entries),
        (#[trigger] named[i]).0,
    ) == Some(named[i].1) by {
        lemma_walk_entries(entries, i);
        assert(Seq::<Seq<char>>::empty() + parts[i].0 =~= parts[i].0);
    }
}

/// The path of every leaf of the fields of a record begins with the name
/// of one of the fields.
pub proof fn lemma_parts_heads(entries: Seq<(Seq<char>, ValueView)>, i: int)
    requires
        0 <= i < entries_parts(entries).len(),
    ensures
        entries_parts(entries)[i].0.len() > 0,
        exists|j: int| 0 <= j < entries.len() && (#[trigger] entries[j]).0 == entries_parts(
            entries,
        )[i].0[0],
    decreases entries.len(),
{
    let front = entries.drop_last();
    let before = entries_parts(front);
    let last = under(entries.last().0, leaf_parts(entries.last().1));
    if i < before.len() {
        lemma_parts_heads(front, i);
        assert(entries_parts(entries)[i] == before[i]);
        let j = choose|j: int| 0 <= j < front.len() && (#[trigger] front[j]).0 == before[i].0[0];
        assert(entries[j] == front[j]);
    } else {
        assert(entries_parts(entries)[i] == last[i - before.len()]);
        assert(entries[entries.len() - 1].0 == last[i - before.len()].0[0]);
    }
}

/// No two leaves of a canonical record have the same path.
pub proof fn lemma_parts_distinct(entries: Seq<(Seq<char>, ValueView)>, a: int, b: int)
    requires
        canonical_entries(entries),
        0 <= a < b < entries_parts(entries).len(),
    ensures
        entries_parts(entries)[a].0 != entries_parts(entries)[b].0,
    decreases entries,
{
    let front = entries.drop_last();
    let key = entries.last().0;
    let v = entries.last().1;
    let before = entries_parts(front);
    let inner = leaf_parts(v);
    let last = under(key, inner);
    let parts = entries_parts(entries);
    lemma_canonical_front(entries);
    if b < before.len() {
        lemma_parts_distinct(front, a, b);
        assert(parts[a] == before[a] && parts[b] == before[b]);
    } else if a < before.len() {
        lemma_parts_heads(front, a);
        assert(parts[a] == before[a]);
        assert(parts[b] == last[b - before.len()]);
        assert(parts[b].0[0] == key);
        let j = choose|j: int| 0 <= j < front.len() && (#[trigger] front[j]).0 == before[a].0[0];
        assert(front[j].0 != key);
    } else {
        let x = a - before.len();
        let y = b - before.len();
        assert(parts[a] == last[x] && parts[b] == last[y]);
        assert(canonical(v));
        match v {
            ValueView::Struct(sub) => {
                lemma_parts_distinct(sub, x, y);
                if parts[a].0 == parts[b].0 {
                    assert(parts[a].0.drop_first() =~= inner[x].0);
                    assert(parts[b].0.drop_first() =~= inner[y].0);
                }
            },
            _ => {},
        }
    }
}

/// No two leaves that flattening a canonical record names have the same
/// name.
pub proof fn lemma_names_distinct(entries: Seq<(Seq<char>, ValueView)>, a: int, b: int)
    requires
        canonical_entries(entries),
        flatten_spec(ValueView::Struct(entries), Seq::empty()) matches Some(named) && 0 <= a < b
            < named.len(),
    ensures
        flatten_spec(ValueView::Struct(entries), Seq::empty())->Some_0[a].0 != flatten_spec(
            ValueView::Struct(entries),
            Seq::empty(),
        )->Some_0[b].0,
{
    lemma_flatten_entries(entries, Seq::empty());
    let named = flatten_entries(entries, Seq::empty())->Some_0;
    let parts = entries_parts(entries);
    lemma_parts_distinct(entries, a, b);
    assert(Seq::<Seq<char>>::empty() + parts[a].0 =~= parts[a].0);
    assert(Seq::<Seq<char>>::empty() + parts[b].0 =~= parts[b].0);
    assert(split_path(named[a].0) == parts[a].0);
    assert(split_path(named[b].0) == parts[b].0);
}

} // verus!
