//! Reading below a path: the fields whose names begin with a path and a dot
//! are the leaves of the record at that path.
use crate::tree::{
    entries_find, entries_get, flatten_entries, flatten_spec, join_path, lemma_find_get, walk,
};
use crate::treelaws::{
    canonical, canonical_entries, key_plain, lemma_before_asymmetric,
    lemma_canonical_front, lemma_flatten_entries, lemma_flatten_value, lemma_join_parts,
};
use crate::value::ValueView;
use vstd::prelude::*;

verus! {

/// Whether a name lies below a path: it begins with the path and a dot.
pub open spec fn lies_below(path: Seq<char>, name: Seq<char>) -> bool {
    (path + seq!['.']).is_prefix_of(name)
}

/// Whether a name is a path or lies below it.
pub open spec fn at_or_below(path: Seq<char>, name: Seq<char>) -> bool {
    path.is_prefix_of(name) && (name.len() == path.len() || name[path.len() as int] == '.')
}

/// The leaves of a canonical value below a prefix are named by the prefix
/// or by names below it.
pub proof fn lemma_names_at_or_below(v: ValueView, prefix: Seq<char>, i: int)
    requires
        canonical(v),
        prefix.len() > 0,
        flatten_spec(v, prefix) matches Some(named) && 0 <= i < named.len(),
    ensures
        at_or_below(prefix, flatten_spec(v, prefix)->Some_0[i].0),
        v is Struct ==> lies_below(prefix, flatten_spec(v, prefix)->Some_0[i].0),
    decreases v, 1nat,
{
    match v {
        ValueView::Struct(entries) => {
            lemma_entries_below(entries, prefix, i);
            let name = flatten_entries(entries, prefix)->Some_0[i].0;
            assert(prefix.is_prefix_of(name)) by {
                assert(prefix =~= (prefix + seq!['.']).subrange(0, prefix.len() as int));
            }
            assert(name[prefix.len() as int] == (prefix + seq!['.'])[prefix.len() as int]);
        },
        _ => {},
    }
}

/// The leaves of the fields of a canonical record below a prefix are named
/// by names below the prefix.
pub proof fn lemma_entries_below(entries: Seq<(Seq<char>, ValueView)>, prefix: Seq<char>, i: int)
    requires
        canonical_entries(entries),
        prefix.len() > 0,
        flatten_entries(entries, prefix) matches Some(named) && 0 <= i < named.len(),
    ensures
        lies_below(prefix, flatten_entries(entries, prefix)->Some_0[i].0),
    decreases entries, 0nat,
{
    let front = entries.drop_last();
    let key = entries.last().0;
    let v = entries.last().1;
    lemma_canonical_front(entries);
    crate::treelaws::lemma_flatten_entries(front, prefix);
    let a = flatten_entries(front, prefix)->Some_0;
    let name = join_path(prefix, key);
    assert(canonical(v) && key_plain(key));
    crate::treelaws::lemma_flatten_value(v, name);
    let b = flatten_spec(v, name)->Some_0;
    assert(flatten_entries(entries, prefix) == Some(a + b));
    if i < a.len() {
        lemma_entries_below(front, prefix, i);
        assert((a + b)[i] == a[i]);
    } else {
        let k = i - a.len();
        assert((a + b)[i] == b[k]);
        assert(canonical(v));
        lemma_names_at_or_below(v, name, k);
        let got = b[k].0;
        assert(name == prefix + seq!['.'] + key);
        assert((prefix + seq!['.']).is_prefix_of(name)) by {
            assert(prefix + seq!['.'] =~= name.subrange(0, (prefix.len() + 1) as int));
        }
        assert((prefix + seq!['.']).is_prefix_of(got)) by {
            assert(name =~= got.subrange(0, name.len() as int));
            assert(prefix + seq!['.'] =~= got.subrange(0, (prefix.len() + 1) as int));
        }
    }
}

/// Two paths with a dot between them.
pub open spec fn dotted(a: Seq<char>, b: Seq<char>) -> Seq<char> {
    a + seq!['.'] + b
}

/// Whether the second list names the leaves of the first with `prefix`
/// and a dot before each name.
pub open spec fn prefixed_names(
    bare: Seq<(Seq<char>, ValueView)>,
    with: Seq<(Seq<char>, ValueView)>,
    prefix: Seq<char>,
) -> bool {
    &&& bare.len() == with.len()
    &&& forall|i: int|
        0 <= i < bare.len() ==> (#[trigger] with[i]).1 == bare[i].1 && with[i].0 == dotted(
            prefix,
            bare[i].0,
        )
}

/// Flattening a canonical value below a longer prefix puts the beginning of
/// the prefix before each name.
pub proof fn lemma_value_prefixed(v: ValueView, prefix: Seq<char>, base: Seq<char>)
    requires
        canonical(v),
        base.len() > 0,
    ensures
        flatten_spec(v, base) matches Some(bare) && flatten_spec(
            v,
            dotted(prefix, base),
        ) matches Some(with) && prefixed_names(bare, with, prefix),
    decreases v, 1nat,
{
    match v {
        ValueView::Struct(entries) => {
            lemma_entries_prefixed(entries, prefix, base);
        },
        _ => {
            let bare = flatten_spec(v, base)->Some_0;
            let with = flatten_spec(v, dotted(prefix, base))->Some_0;
            assert(bare[0] == (base, v));
            assert(with[0] == (dotted(prefix, base), v));
        },
    }
}

/// Flattening the fields of a canonical record below a longer prefix puts
/// the beginning of the prefix before each name.
pub proof fn lemma_entries_prefixed(
    entries: Seq<(Seq<char>, ValueView)>,
    prefix: Seq<char>,
    base: Seq<char>,
)
    requires
        canonical_entries(entries),
        base.len() > 0,
    ensures
        flatten_entries(entries, base) matches Some(bare) && flatten_entries(
            entries,
            dotted(prefix, base),
        ) matches Some(with) && prefixed_names(bare, with, prefix),
    decreases entries, 0nat,
{
    let long = dotted(prefix, base);
    crate::treelaws::lemma_flatten_entries(entries, base);
    crate::treelaws::lemma_flatten_entries(entries, long);
    if entries.len() > 0 {
        let front = entries.drop_last();
        let key = entries.last().0;
        let v = entries.last().1;
        lemma_canonical_front(entries);
        assert(canonical(v) && key_plain(key));
        lemma_entries_prefixed(front, prefix, base);
        let name = join_path(base, key);
        assert(join_path(long, key) =~= dotted(prefix, name));
        lemma_value_prefixed(v, prefix, name);
        let a0 = flatten_entries(front, base)->Some_0;
        let b0 = flatten_spec(v, name)->Some_0;
        let a1 = flatten_entries(front, long)->Some_0;
        let b1 = flatten_spec(v, dotted(prefix, name))->Some_0;
        let bare = a0 + b0;
        let with = a1 + b1;
        assert(flatten_entries(entries, base) == Some(bare));
        assert(flatten_entries(entries, long) == Some(with));
        assert forall|i: int| 0 <= i < bare.len() implies (#[trigger] with[i]).1 == bare[i].1
            && with[i].0 == dotted(prefix, bare[i].0) by {
            if i < a0.len() {
                assert(with[i] == a1[i] && bare[i] == a0[i]);
            } else {
                assert(with[i] == b1[i - a0.len()] && bare[i] == b0[i - a0.len()]);
            }
        }
    }
}

/// Flattening the fields of a canonical record below a prefix puts the
/// prefix and a dot before the names that flattening at the top gives.
pub proof fn lemma_entries_prefixed_top(entries: Seq<(Seq<char>, ValueView)>, prefix: Seq<char>)
    requires
        canonical_entries(entries),
        prefix.len() > 0,
    ensures
        flatten_entries(entries, Seq::empty()) matches Some(bare) && flatten_entries(
            entries,
            prefix,
        ) matches Some(with) && prefixed_names(bare, with, prefix),
    decreases entries.len(),
{
    crate::treelaws::lemma_flatten_entries(entries, Seq::empty());
    crate::treelaws::lemma_flatten_entries(entries, prefix);
    if entries.len() > 0 {
        let front = entries.drop_last();
        let key = entries.last().0;
        let v = entries.last().1;
        lemma_canonical_front(entries);
        assert(canonical(v) && key_plain(key));
        lemma_entries_prefixed_top(front, prefix);
        assert(join_path(Seq::empty(), key) == key);
        assert(join_path(prefix, key) =~= dotted(prefix, key));
        lemma_value_prefixed(v, prefix, key);
        let a0 = flatten_entries(front, Seq::empty())->Some_0;
        let b0 = flatten_spec(v, key)->Some_0;
        let a1 = flatten_entries(front, prefix)->Some_0;
        let b1 = flatten_spec(v, dotted(prefix, key))->Some_0;
        let bare = a0 + b0;
        let with = a1 + b1;
        assert(flatten_entries(entries, Seq::empty()) == Some(bare));
        assert(flatten_entries(entries, prefix) == Some(with));
        assert forall|i: int| 0 <= i < bare.len() implies (#[trigger] with[i]).1 == bare[i].1
            && with[i].0 == dotted(prefix, bare[i].0) by {
            if i < a0.len() {
                assert(with[i] == a1[i] && bare[i] == a0[i]);
            } else {
                assert(with[i] == b1[i - a0.len()] && bare[i] == b0[i - a0.len()]);
            }
        }
    }
}

/// The beginning of the path of a field: the prefix and a dot, or nothing
/// at the top.
pub open spec fn lead(prefix: Seq<char>) -> Seq<char> {
    if prefix.len() == 0 {
        Seq::empty()
    } else {
        prefix + seq!['.']
    }
}

/// A name at or below one field does not lie below another field of the
/// same record, and is not its path.
pub proof fn lemma_other_field(
    prefix: Seq<char>,
    key: Seq<char>,
    other: Seq<char>,
    name: Seq<char>,
)
    requires
        key_plain(key),
        key_plain(other),
        key != other,
        at_or_below(join_path(prefix, other), name),
    ensures
        !lies_below(join_path(prefix, key), name),
        name != join_path(prefix, key),
{
    let l = lead(prefix);
    let a = join_path(prefix, key);
    let b = join_path(prefix, other);
    assert(a =~= l + key);
    assert(b =~= l + other);
    let n0 = l.len() + key.len();
    let n1 = l.len() + other.len();
    assert(b =~= name.subrange(0, n1 as int));
    assert forall|t: int| 0 <= t < other.len() implies name[l.len() + t] == other[t] by {
        assert(name.subrange(0, n1 as int)[l.len() + t] == b[l.len() + t]);
    }
    if lies_below(a, name) || name == a {
        if lies_below(a, name) {
            assert(a + seq!['.'] =~= name.subrange(0, (n0 + 1) as int));
            assert forall|t: int| 0 <= t < key.len() implies name[l.len() + t] == key[t] by {
                assert(name.subrange(0, (n0 + 1) as int)[l.len() + t] == (a + seq!['.'])[l.len()
                    + t]);
            }
            assert(name[n0 as int] == '.') by {
                assert(name.subrange(0, (n0 + 1) as int)[n0 as int] == (a + seq!['.'])[n0 as int]);
            }
        } else {
            assert forall|t: int| 0 <= t < key.len() implies name[l.len() + t] == key[t] by {}
        }
        if n0 < n1 {
            if lies_below(a, name) {
                assert(other[n0 - l.len()] == '.');
                assert(other.contains('.'));
            } else {
                assert(name.len() == n0);
            }
        } else if n0 > n1 {
            assert(name[n1 as int] == '.');
            assert(key[n1 - l.len()] == '.');
            assert(key.contains('.'));
        } else {
            assert(key =~= other);
        }
    }
}

/// No leaf of a list of fields, none of which is named `key`, lies below
/// the field `key` of the same record, or is its path.
pub proof fn lemma_others_not_below(
    entries: Seq<(Seq<char>, ValueView)>,
    prefix: Seq<char>,
    key: Seq<char>,
    i: int,
)
    requires
        canonical_entries(entries),
        key_plain(key),
        forall|j: int| 0 <= j < entries.len() ==> (#[trigger] entries[j]).0 != key,
        flatten_entries(entries, prefix) matches Some(named) && 0 <= i < named.len(),
    ensures
        !lies_below(join_path(prefix, key), flatten_entries(entries, prefix)->Some_0[i].0),
        flatten_entries(entries, prefix)->Some_0[i].0 != join_path(prefix, key),
    decreases entries.len(),
{
    let front = entries.drop_last();
    let other = entries.last().0;
    let v = entries.last().1;
    lemma_canonical_front(entries);
    crate::treelaws::lemma_flatten_entries(front, prefix);
    let a = flatten_entries(front, prefix)->Some_0;
    let base = join_path(prefix, other);
    assert(canonical(v) && key_plain(other));
    crate::treelaws::lemma_join_parts(prefix, other);
    crate::treelaws::lemma_flatten_value(v, base);
    let b = flatten_spec(v, base)->Some_0;
    assert(flatten_entries(entries, prefix) == Some(a + b));
    if i < a.len() {
        assert forall|j: int| 0 <= j < front.len() implies (#[trigger] front[j]).0 != key by {
            assert(front[j] == entries[j]);
        }
        lemma_others_not_below(front, prefix, key, i);
        assert((a + b)[i] == a[i]);
    } else {
        let k = i - a.len();
        assert((a + b)[i] == b[k]);
        lemma_names_at_or_below(v, base, k);
        assert(entries[entries.len() - 1].0 != key);
        lemma_other_field(prefix, key, other, b[k].0);
    }
}

/// Flattening two lists of fields in a row is flattening each, in a row.
pub proof fn lemma_flatten_concat(
    a: Seq<(Seq<char>, ValueView)>,
    b: Seq<(Seq<char>, ValueView)>,
    prefix: Seq<char>,
)
    ensures
        flatten_entries(a + b, prefix) == match (
            flatten_entries(a, prefix),
            flatten_entries(b, prefix),
        ) {
            (Some(x), Some(y)) => Some(x + y),
            _ => None,
        },
    decreases b.len(),
{
    if b.len() == 0 {
        assert(a + b =~= a);
        if flatten_entries(a, prefix) is Some {
            assert(flatten_entries(a, prefix)->Some_0 + Seq::<(Seq<char>, ValueView)>::empty()
                =~= flatten_entries(a, prefix)->Some_0);
        }
    } else {
        lemma_flatten_concat(a, b.drop_last(), prefix);
        assert((a + b).drop_last() =~= a + b.drop_last());
        assert((a + b).last() == b.last());
        let fa = flatten_entries(a, prefix);
        let fb0 = flatten_entries(b.drop_last(), prefix);
        let more = flatten_spec(b.last().1, join_path(prefix, b.last().0));
        if fa is Some && fb0 is Some && more is Some {
            assert((fa->Some_0 + fb0->Some_0) + more->Some_0 =~= fa->Some_0 + (fb0->Some_0
                + more->Some_0));
        }
    }
}

/// A part of a canonical list of fields is canonical.
pub proof fn lemma_canonical_part(entries: Seq<(Seq<char>, ValueView)>, from: int, to: int)
    requires
        canonical_entries(entries),
        0 <= from <= to <= entries.len(),
    ensures
        canonical_entries(entries.subrange(from, to)),
{
    let part = entries.subrange(from, to);
    assert forall|i: int, j: int| 0 <= i < j < part.len() implies crate::text::text_before(
        (#[trigger] part[i]).0,
        (#[trigger] part[j]).0,
    ) by {
        assert(part[i] == entries[from + i] && part[j] == entries[from + j]);
    }
    assert forall|i: int| 0 <= i < part.len() implies key_plain((#[trigger] part[i]).0)
        && canonical(part[i].1) by {
        assert(part[i] == entries[from + i]);
    }
}

/// The path that a prefix and segments give.
pub open spec fn join_all(prefix: Seq<char>, parts: Seq<Seq<char>>) -> Seq<char>
    decreases parts.len(),
{
    if parts.len() == 0 {
        prefix
    } else {
        join_all(join_path(prefix, parts[0]), parts.drop_first())
    }
}

/// Whether every segment can be the name of a field.
pub open spec fn parts_plain(parts: Seq<Seq<char>>) -> bool {
    forall|t: int| 0 <= t < parts.len() ==> key_plain(#[trigger] parts[t])
}

/// What lies below a longer path lies below its beginning.
pub proof fn lemma_below_longer(base: Seq<char>, parts: Seq<Seq<char>>, name: Seq<char>)
    requires
        base.len() > 0,
        parts_plain(parts),
        lies_below(join_all(base, parts), name),
    ensures
        lies_below(base, name),
        join_all(base, parts).len() >= base.len(),
        base.is_prefix_of(join_all(base, parts)),
        parts.len() > 0 ==> lies_below(base, join_all(base, parts)),
    decreases parts.len(),
{
    if parts.len() > 0 {
        let next = join_path(base, parts[0]);
        assert(key_plain(parts[0]));
        assert(next == base + seq!['.'] + parts[0]);
        let rest = parts.drop_first();
        assert forall|t: int| 0 <= t < rest.len() implies key_plain(#[trigger] rest[t]) by {
            assert(rest[t] == parts[t + 1]);
        }
        lemma_below_longer(next, rest, name);
        let whole = join_all(base, parts);
        assert(base + seq!['.'] =~= next.subrange(0, (base.len() + 1) as int));
        assert(base + seq!['.'] =~= name.subrange(0, (base.len() + 1) as int)) by {
            assert(next + seq!['.'] =~= name.subrange(0, (next.len() + 1) as int));
        }
        assert(base + seq!['.'] =~= whole.subrange(0, (base.len() + 1) as int)) by {
            assert(next =~= whole.subrange(0, next.len() as int));
        }
        assert(base =~= whole.subrange(0, base.len() as int));
    } else {
        assert(base =~= base.subrange(0, base.len() as int));
    }
}

/// Where the leaves of the record at a path begin among the leaves of a
/// record.
pub open spec fn block_start(
    entries: Seq<(Seq<char>, ValueView)>,
    prefix: Seq<char>,
    parts: Seq<Seq<char>>,
) -> int
    decreases parts.len(),
{
    if parts.len() == 0 {
        0
    } else {
        let j = entries_find(entries, parts[0]);
        let before = flatten_entries(entries.take(j), prefix);
        let base = match before {
            Some(b) => b.len() as int,
            None => 0,
        };
        if parts.len() == 1 {
            base
        } else {
            match entries[j].1 {
                ValueView::Struct(sub) => base + block_start(
                    sub,
                    join_path(prefix, parts[0]),
                    parts.drop_first(),
                ),
                _ => base,
            }
        }
    }
}

/// The block of the record at a path: its leaves stand in a row among the
/// leaves of the record, named by the path and what they are named below
/// it, and no leaf outside the row lies below the path.
pub proof fn lemma_block(
    entries: Seq<(Seq<char>, ValueView)>,
    prefix: Seq<char>,
    parts: Seq<Seq<char>>,
    sub: Seq<(Seq<char>, ValueView)>,
)
    requires
        canonical_entries(entries),
        parts.len() > 0,
        parts_plain(parts),
        walk(ValueView::Struct(entries), parts) == Some(ValueView::Struct(sub)),
    ensures
        canonical_entries(sub),
        sub.len() > 0,
        join_all(prefix, parts).len() > 0,
        ({
            let named = flatten_entries(entries, prefix)->Some_0;
            let path = join_all(prefix, parts);
            let block = flatten_entries(sub, path)->Some_0;
            let lo = block_start(entries, prefix, parts);
            &&& flatten_entries(entries, prefix) is Some
            &&& flatten_entries(sub, path) is Some
            &&& 0 <= lo
            &&& lo + block.len() <= named.len()
            &&& named.subrange(lo, lo + block.len()) == block
            &&& forall|i: int|
                0 <= i < named.len() && !(lo <= i < lo + block.len()) ==> !lies_below(
                    path,
                    (#[trigger] named[i]).0,
                )
            &&& forall|i: int| 0 <= i < named.len() ==> (#[trigger] named[i]).0 != path
        }),
    decreases parts.len(),
{
    let key = parts[0];
    assert(key_plain(key));
    lemma_find_get(entries, key);
    let j = entries_find(entries, key);
    assert(entries_get(entries, key) is Some);
    assert(j < entries.len());
    let child = entries[j].1;
    let a = entries.take(j);
    let one = entries.subrange(j, j + 1);
    let c = entries.skip(j + 1);
    assert(entries =~= a + one + c);
    lemma_canonical_part(entries, 0, j);
    lemma_canonical_part(entries, j, j + 1);
    lemma_canonical_part(entries, j + 1, entries.len() as int);
    assert(a =~= entries.subrange(0, j));
    assert(c =~= entries.subrange(j + 1, entries.len() as int));
    lemma_flatten_entries(entries, prefix);
    lemma_flatten_entries(a, prefix);
    lemma_flatten_entries(one, prefix);
    lemma_flatten_entries(c, prefix);
    lemma_flatten_concat(a, one, prefix);
    lemma_flatten_concat(a + one, c, prefix);
    let fa = flatten_entries(a, prefix)->Some_0;
    let fb = flatten_entries(one, prefix)->Some_0;
    let fc = flatten_entries(c, prefix)->Some_0;
    let named = flatten_entries(entries, prefix)->Some_0;
    assert(named == fa + fb + fc);
    let base = join_path(prefix, key);
    lemma_join_parts(prefix, key);
    // the one field is flattened as its value is
    assert(one.drop_last() =~= Seq::<(Seq<char>, ValueView)>::empty());
    assert(one.last() == entries[j]);
    assert(canonical(child)) by {
        assert(key_plain(entries[j].0) && canonical(entries[j].1));
    }
    lemma_flatten_value(child, base);
    assert(fb =~= flatten_spec(child, base)->Some_0) by {
        assert(flatten_entries(one.drop_last(), prefix) == Some(
            Seq::<(Seq<char>, ValueView)>::empty(),
        ));
        assert(Seq::<(Seq<char>, ValueView)>::empty() + flatten_spec(child, base)->Some_0
            =~= flatten_spec(child, base)->Some_0);
    }
    // the fields before and after have other names
    assert forall|m: int| 0 <= m < a.len() implies (#[trigger] a[m]).0 != key by {
        assert(a[m] == entries[m]);
        lemma_before_asymmetric(entries[m].0, entries[j].0);
    }
    assert forall|m: int| 0 <= m < c.len() implies (#[trigger] c[m]).0 != key by {
        assert(c[m] == entries[j + 1 + m]);
        lemma_before_asymmetric(entries[j].0, entries[j + 1 + m].0);
    }
    let rest = parts.drop_first();
    assert forall|t: int| 0 <= t < rest.len() implies key_plain(#[trigger] rest[t]) by {
        assert(rest[t] == parts[t + 1]);
    }
    let path = join_all(prefix, parts);
    assert(path == join_all(base, rest));
    assert(walk(ValueView::Struct(entries), parts) == walk(child, rest));
    if parts.len() == 1 {
        assert(rest.len() == 0);
        assert(child == ValueView::Struct(sub));
        assert(path == base);
        let lo = fa.len() as int;
        let block = flatten_entries(sub, path)->Some_0;
        assert(block =~= fb);
        assert(named.subrange(lo, lo + block.len()) =~= block);
        assert forall|i: int|
            0 <= i < named.len() && !(lo <= i < lo + block.len()) implies !lies_below(
            path,
            (#[trigger] named[i]).0,
        ) by {
            if i < lo {
                assert(named[i] == fa[i]);
                lemma_others_not_below(a, prefix, key, i);
            } else {
                let k = i - lo - block.len();
                assert(named[i] == fc[k]);
                lemma_others_not_below(c, prefix, key, k);
            }
        }
        assert forall|i: int| 0 <= i < named.len() implies (#[trigger] named[i]).0 != path by {
            if i < lo {
                assert(named[i] == fa[i]);
                lemma_others_not_below(a, prefix, key, i);
            } else if i < lo + block.len() {
                assert(named[i] == block[i - lo]);
                lemma_entries_below(sub, path, i - lo);
            } else {
                let k = i - lo - block.len();
                assert(named[i] == fc[k]);
                lemma_others_not_below(c, prefix, key, k);
            }
        }
    } else {
        let inner = match child {
            ValueView::Struct(e) => e,
            _ => Seq::empty(),
        };
        assert(child is Struct);
        lemma_block(inner, base, rest, sub);
        let lo1 = block_start(inner, base, rest);
        let lo = fa.len() + lo1;
        let block = flatten_entries(sub, path)->Some_0;
        assert(fb == flatten_entries(inner, base)->Some_0);
        assert(named.subrange(lo, lo + block.len()) =~= fb.subrange(lo1, lo1 + block.len()));
        assert forall|i: int|
            0 <= i < named.len() && !(lo <= i < lo + block.len()) implies !lies_below(
            path,
            (#[trigger] named[i]).0,
        ) by {
            if i < fa.len() {
                assert(named[i] == fa[i]);
                lemma_others_not_below(a, prefix, key, i);
                if lies_below(path, named[i].0) {
                    lemma_below_longer(base, rest, named[i].0);
                }
            } else if i < fa.len() + fb.len() {
                assert(named[i] == fb[i - fa.len()]);
            } else {
                let k = i - fa.len() - fb.len();
                assert(named[i] == fc[k]);
                lemma_others_not_below(c, prefix, key, k);
                if lies_below(path, named[i].0) {
                    lemma_below_longer(base, rest, named[i].0);
                }
            }
        }
        assert forall|i: int| 0 <= i < named.len() implies (#[trigger] named[i]).0 != path by {
            if i < fa.len() || i >= fa.len() + fb.len() {
                if i < fa.len() {
                    assert(named[i] == fa[i]);
                    lemma_others_not_below(a, prefix, key, i);
                } else {
                    let k = i - fa.len() - fb.len();
                    assert(named[i] == fc[k]);
                    lemma_others_not_below(c, prefix, key, k);
                }
                if named[i].0 == path {
                    assert(path + seq!['.'] =~= (path + seq!['.']).subrange(
                        0,
                        (path.len() + 1) as int,
                    ));
                    lemma_below_longer(base, rest, path + seq!['.']);
                    assert(lies_below(base, path)) by {
                        assert(base + seq!['.'] =~= (path + seq!['.']).subrange(
                            0,
                            (base.len() + 1) as int,
                        ));
                        assert(base + seq!['.'] =~= path.subrange(0, (base.len() + 1) as int));
                    }
                }
            } else {
                assert(named[i] == fb[i - fa.len()]);
            }
        }
    }
}

} // verus!
