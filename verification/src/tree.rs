//! Records as trees: lookup and insertion by name, dotted paths, flattening
//! a tree into its leaves and assembling it again.
use crate::error::{format_error, unsupported_error, GbfError};
use crate::text::{concat3, same_text, split_once_at, text_before, text_lt};
use crate::value::{
    entries_view, lemma_entries_view, lemma_struct_view, GbfValue, StructMap, ValueView,
};
use vstd::prelude::*;
use vstd::string::StringExecFns;

verus! {

/// The segments of a dotted path: the texts between its dots.
pub open spec fn split_path(path: Seq<char>) -> Seq<Seq<char>>
    decreases path.len(),
{
    if path.len() == 0 {
        seq![Seq::empty()]
    } else {
        let rest = split_path(path.drop_first());
        if path[0] == '.' {
            seq![Seq::empty()] + rest
        } else {
            seq![seq![path[0]] + rest[0]] + rest.drop_first()
        }
    }
}

/// The path of `key` below `prefix`: `key` itself at the top.
pub open spec fn join_path(prefix: Seq<char>, key: Seq<char>) -> Seq<char> {
    if prefix.len() == 0 {
        key
    } else {
        prefix + seq!['.'] + key
    }
}

/// A path always has a first segment.
pub proof fn lemma_split_nonempty(path: Seq<char>)
    ensures
        split_path(path).len() >= 1,
    decreases path.len(),
{
    if path.len() > 0 {
        lemma_split_nonempty(path.drop_first());
    }
}

/// A text without a dot is its own single segment.
pub proof fn lemma_split_plain(path: Seq<char>)
    requires
        !path.contains('.'),
    ensures
        split_path(path) == seq![path],
    decreases path.len(),
{
    if path.len() > 0 {
        let rest = path.drop_first();
        assert forall|c: char| rest.contains(c) implies path.contains(c) by {
            let i = choose|i: int| 0 <= i < rest.len() && rest[i] == c;
            assert(path[i + 1] == c);
        }
        lemma_split_plain(rest);
        assert(path[0] != '.') by {
            if path[0] == '.' {
                assert(path.contains('.'));
            }
        }
        assert(seq![path[0]] + rest =~= path);
        let parts = split_path(rest);
        assert(parts == seq![rest]);
        assert(parts[0] == rest);
        assert(parts.drop_first() =~= Seq::<Seq<char>>::empty());
        assert(split_path(path) == seq![seq![path[0]] + parts[0]] + parts.drop_first());
        assert(split_path(path) =~= seq![path]);
    } else {
        assert(path =~= Seq::<char>::empty());
        assert(split_path(path) =~= seq![path]);
    }
}

/// The segments of `head.tail`, where `head` has no dot, are `head` and
/// then the segments of `tail`.
pub proof fn lemma_split_at_dot(head: Seq<char>, tail: Seq<char>)
    requires
        !head.contains('.'),
    ensures
        split_path(head + seq!['.'] + tail) == seq![head] + split_path(tail),
    decreases head.len(),
{
    let path = head + seq!['.'] + tail;
    if head.len() == 0 {
        assert(path.drop_first() =~= tail);
        assert(path[0] == '.');
        assert(head =~= Seq::<char>::empty());
    } else {
        let h2 = head.drop_first();
        assert forall|c: char| h2.contains(c) implies head.contains(c) by {
            let i = choose|i: int| 0 <= i < h2.len() && h2[i] == c;
            assert(head[i + 1] == c);
        }
        assert(head[0] != '.') by {
            if head[0] == '.' {
                assert(head.contains('.'));
            }
        }
        lemma_split_at_dot(h2, tail);
        assert(path.drop_first() =~= h2 + seq!['.'] + tail);
        assert(path[0] == head[0]);
        let rest = split_path(path.drop_first());
        assert(rest == seq![h2] + split_path(tail));
        assert(rest[0] == h2);
        assert(seq![head[0]] + h2 =~= head);
        assert(rest.drop_first() =~= split_path(tail));
        assert(split_path(path) =~= seq![head] + split_path(tail));
    }
}

/// The value under `key` in a list of named values: that of the first
/// entry with this name.
pub open spec fn entries_get(entries: Seq<(Seq<char>, ValueView)>, key: Seq<char>) -> Option<
    ValueView,
>
    decreases entries.len(),
{
    if entries.len() == 0 {
        None
    } else if entries[0].0 == key {
        Some(entries[0].1)
    } else {
        entries_get(entries.drop_first(), key)
    }
}

/// The list with `value` under `key`: in place of the entry of that name
/// where there is one, else before the first entry whose name comes after
/// `key`.
pub open spec fn entries_insert(
    entries: Seq<(Seq<char>, ValueView)>,
    key: Seq<char>,
    value: ValueView,
) -> Seq<(Seq<char>, ValueView)>
    decreases entries.len(),
{
    if entries.len() == 0 {
        seq![(key, value)]
    } else if entries[0].0 == key {
        seq![(key, value)] + entries.drop_first()
    } else if text_before(key, entries[0].0) {
        seq![(key, value)] + entries
    } else {
        seq![entries[0]] + entries_insert(entries.drop_first(), key, value)
    }
}

/// The value that the segments lead to, going down one record per segment.
pub open spec fn walk(v: ValueView, parts: Seq<Seq<char>>) -> Option<ValueView>
    decreases parts.len(),
{
    if parts.len() == 0 {
        Some(v)
    } else {
        match v {
            ValueView::Struct(entries) => match entries_get(entries, parts[0]) {
                Some(child) => walk(child, parts.drop_first()),
                None => None,
            },
            _ => None,
        }
    }
}

/// The value at a dotted path: the value itself for the empty path.
pub open spec fn value_at(v: ValueView, path: Seq<char>) -> Option<ValueView> {
    if path.len() == 0 {
        Some(v)
    } else {
        walk(v, split_path(path))
    }
}

/// The place of the first entry named `key`, or the length where there is
/// none.
pub open spec fn entries_find(entries: Seq<(Seq<char>, ValueView)>, key: Seq<char>) -> int
    decreases entries.len(),
{
    if entries.len() == 0 {
        0
    } else if entries[0].0 == key {
        0
    } else {
        1 + entries_find(entries.drop_first(), key)
    }
}

/// What [`entries_find`] finds is what [`entries_get`] gets.
pub proof fn lemma_find_get(entries: Seq<(Seq<char>, ValueView)>, key: Seq<char>)
    ensures
        0 <= entries_find(entries, key) <= entries.len(),
        entries_find(entries, key) < entries.len() ==> entries[entries_find(entries, key)].0
            == key && entries_get(entries, key) == Some(
            entries[entries_find(entries, key)].1,
        ),
        entries_find(entries, key) == entries.len() ==> entries_get(entries, key) is None,
        forall|j: int| 0 <= j < entries_find(entries, key) ==> (#[trigger] entries[j]).0 != key,
    decreases entries.len(),
{
    if entries.len() > 0 && entries[0].0 != key {
        let rest = entries.drop_first();
        lemma_find_get(rest, key);
        assert forall|j: int| 0 <= j < entries_find(entries, key) implies (
        #[trigger] entries[j]).0 != key by {
            if j > 0 {
                assert(entries[j] == rest[j - 1]);
            }
        }
    }
}

impl StructMap {
    /// A record without fields.
    pub fn new() -> (r: Self)
        ensures
            r@ == Seq::<(Seq<char>, ValueView)>::empty(),
            r.wf(),
    {
        let r = StructMap { entries: Vec::new() };
        proof {
            lemma_entries_view(r.entries@);
            assert(r@ =~= Seq::<(Seq<char>, ValueView)>::empty());
        }
        r
    }

    /// The number of fields.
    pub fn len(&self) -> (n: usize)
        ensures
            n == self@.len(),
    {
        proof {
            lemma_entries_view(self.entries@);
        }
        self.entries.len()
    }

    /// The place of the first field named `key`, or the number of fields
    /// where there is none.
    pub fn position(&self, key: &str) -> (i: usize)
        ensures
            i as int == entries_find(self@, key@),
    {
        proof {
            lemma_entries_view(self.entries@);
        }
        let mut i: usize = 0;
        assert(self@.skip(0) =~= self@);
        while i < self.entries.len()
            invariant
                0 <= i <= self.entries.len(),
                self@.len() == self.entries.len(),
                forall|j: int|
                    0 <= j < self.entries.len() ==> (#[trigger] self@[j]).0
                        == self.entries@[j].0@,
                entries_find(self@, key@) == i + entries_find(self@.skip(i as int), key@),
            decreases self.entries.len() - i,
        {
            let ghost rest = self@.skip(i as int);
            proof {
                assert(rest[0] == self@[i as int]);
                assert(rest.drop_first() =~= self@.skip(i + 1));
            }
            if same_text(self.entries[i].0.as_str(), key) {
                return i;
            }
            i = i + 1;
        }
        proof {
            assert(self@.skip(i as int).len() == 0);
        }
        i
    }

    /// The value of the field named `key`.
    pub fn get(&self, key: &str) -> (r: Option<&GbfValue>)
        ensures
            match r {
                Some(v) => entries_get(self@, key@) == Some(v@),
                None => entries_get(self@, key@) is None,
            },
    {
        let i = self.position(key);
        proof {
            lemma_find_get(self@, key@);
            lemma_entries_view(self.entries@);
        }
        if i < self.entries.len() {
            Some(&self.entries[i].1)
        } else {
            None
        }
    }

    /// Whether there is a field named `key`.
    pub fn contains_key(&self, key: &str) -> (r: bool)
        ensures
            r == entries_get(self@, key@).is_some(),
    {
        self.get(key).is_some()
    }

    /// Puts `value` under `key`: in place of the field of that name where
    /// there is one, else at the place that keeps the names in order.
    pub fn insert(&mut self, key: String, value: GbfValue)
        ensures
            final(self)@ == entries_insert(old(self)@, key@, value@),
            old(self).wf() && crate::order::well_ordered(value@) ==> final(self).wf(),
    {
        proof {
            lemma_entries_view(self.entries@);
            if self.wf() && crate::order::well_ordered(value@) {
                crate::order::lemma_insert_ordered_record(self@, key@, value@);
            }
        }
        let ghost before = self@;
        let mut i: usize = 0;
        proof {
            assert(before.skip(0) =~= before);
            assert(before.take(0) + entries_insert(before, key@, value@) =~= entries_insert(
                before,
                key@,
                value@,
            ));
        }
        while i < self.entries.len()
            invariant
                0 <= i <= self.entries.len(),
                self@ == before,
                *self == *old(self),
                old(self).wf() && crate::order::well_ordered(value@)
                    ==> crate::order::records_ordered(entries_insert(before, key@, value@)),
                before.len() == self.entries.len(),
                forall|j: int|
                    0 <= j < self.entries.len() ==> (#[trigger] before[j]) == (
                        self.entries@[j].0@,
                        self.entries@[j].1@,
                    ),
                entries_insert(before, key@, value@) == before.take(i as int) + entries_insert(
                    before.skip(i as int),
                    key@,
                    value@,
                ),
            decreases self.entries.len() - i,
        {
            let ghost rest = before.skip(i as int);
            proof {
                assert(rest[0] == before[i as int]);
                assert(rest.drop_first() =~= before.skip(i + 1));
            }
            let here = self.entries[i].0.as_str();
            if same_text(here, key.as_str()) {
                let ghost k = key@;
                let ghost v = value@;
                let _ = self.entries.remove(i);
                self.entries.insert(i, (key, value));
                proof {
                    lemma_entries_view(self.entries@);
                    assert(self@ =~= before.take(i as int) + (seq![(k, v)] + rest.drop_first()));
                }
                return ;
            }
            if text_lt(key.as_str(), here) {
                let ghost k = key@;
                let ghost v = value@;
                self.entries.insert(i, (key, value));
                proof {
                    lemma_entries_view(self.entries@);
                    assert(self@ =~= before.take(i as int) + (seq![(k, v)] + rest));
                }
                return ;
            }
            proof {
                assert(before.take(i + 1) =~= before.take(i as int) + seq![before[i as int]]);
                assert(before.take(i as int) + (seq![rest[0]] + entries_insert(
                    rest.drop_first(),
                    key@,
                    value@,
                )) =~= before.take(i + 1) + entries_insert(before.skip(i + 1), key@, value@));
            }
            i = i + 1;
        }
        let ghost k = key@;
        let ghost v = value@;
        self.entries.push((key, value));
        proof {
            lemma_entries_view(self.entries@);
            assert(before.skip(i as int).len() == 0);
            assert(before.take(i as int) =~= before);
            assert(self@ =~= before + seq![(k, v)]);
        }
    }
}

impl GbfValue {
    /// The value at a dotted path: the value itself for the empty path,
    /// else the field that the segments of the path lead to, one record per
    /// segment; `None` where a segment names no field or a value on the way
    /// is not a record.
    pub fn get_path(&self, path: &str) -> (r: Option<&GbfValue>)
        ensures
            match r {
                Some(v) => value_at(self@, path@) == Some(v@),
                None => value_at(self@, path@) is None,
            },
    {
        if path.is_empty() {
            return Some(self);
        }
        let mut cur = self;
        let mut rest = path;
        loop
            invariant
                path@.len() > 0,
                walk(self@, split_path(path@)) == walk(cur@, split_path(rest@)),
            decreases rest@.len(),
        {
            match split_once_at(rest, '.') {
                Some((head, tail)) => {
                    proof {
                        lemma_split_at_dot(head@, tail@);
                        assert((seq![head@] + split_path(tail@)).drop_first() =~= split_path(
                            tail@,
                        ));
                    }
                    match cur {
                        GbfValue::Struct(m) => {
                            proof {
                                lemma_struct_view(*m);
                            }
                            match m.get(head) {
                                Some(child) => {
                                    cur = child;
                                    rest = tail;
                                },
                                None => {
                                    return None;
                                },
                            }
                        },
                        _ => {
                            return None;
                        },
                    }
                },
                None => {
                    proof {
                        lemma_split_plain(rest@);
                        assert(seq![rest@].drop_first() =~= Seq::<Seq<char>>::empty());
                        assert forall|c: ValueView|
                            walk(c, Seq::<Seq<char>>::empty()) == Some(c) by {}
                    }
                    match cur {
                        GbfValue::Struct(m) => {
                            let found = m.get(rest);
                            proof {
                                lemma_struct_view(*m);
                                let parts = seq![rest@];
                                assert(parts.len() == 1 && parts[0] == rest@);
                                assert(cur@ == ValueView::Struct(m@));
                                match found {
                                    Some(v) => {
                                        assert(entries_get(m@, parts[0]) == Some(v@));
                                        assert(walk(v@, parts.drop_first()) == Some(v@));
                                        assert(walk(cur@, parts) == Some(v@));
                                    },
                                    None => {
                                        assert(walk(cur@, parts) is None);
                                    },
                                }
                            }
                            return found;
                        },
                        _ => {
                            return None;
                        },
                    }
                },
            }
        }
    }
}

/// The leaves of a value with their paths below `prefix`, in the order of
/// the records' fields; a leaf at the top is named `data`. `None` where the
/// name of a field holds a dot.
pub open spec fn flatten_spec(v: ValueView, prefix: Seq<char>) -> Option<
    Seq<(Seq<char>, ValueView)>,
>
    decreases v,
{
    match v {
        ValueView::Struct(entries) => flatten_entries(entries, prefix),
        _ => Some(
            seq![
                (
                    if prefix.len() == 0 {
                        "data"@
                    } else {
                        prefix
                    },
                    v,
                ),
            ],
        ),
    }
}

/// The leaves of the fields of a record, field by field.
pub open spec fn flatten_entries(entries: Seq<(Seq<char>, ValueView)>, prefix: Seq<char>) -> Option<
    Seq<(Seq<char>, ValueView)>,
>
    decreases entries,
{
    if entries.len() == 0 {
        Some(Seq::empty())
    } else {
        match flatten_entries(entries.drop_last(), prefix) {
            None => None,
            Some(front) => if entries.last().0.contains('.') {
                None
            } else {
                match flatten_spec(entries.last().1, join_path(prefix, entries.last().0)) {
                    None => None,
                    Some(more) => Some(front + more),
                }
            },
        }
    }
}

/// Appends to `out` the leaves of `value` with their dotted paths below
/// `prefix`, in the order of the records' fields. A leaf at the top (empty
/// prefix) is named `data`.
///
/// Fails, with an unsupported-value error, exactly where the name of a
/// field holds a dot.
pub fn flatten_to_leaves(value: &GbfValue, prefix: &str, out: &mut Vec<(String, GbfValue)>) -> (r:
    Result<(), GbfError>)
    ensures
        match r {
            Ok(_) => flatten_spec(value@, prefix@) matches Some(more) && entries_view(
                final(out)@,
            ) == entries_view(old(out)@) + more,
            Err(e) => flatten_spec(value@, prefix@) is None && e is Unsupported,
        },
    decreases value,
{
    match value {
        GbfValue::Struct(m) => {
            proof {
                lemma_struct_view(*m);
                lemma_entries_view(m.entries@);
            }
            let mut i: usize = 0;
            while i < m.entries.len()
                invariant
                    0 <= i <= m.entries.len(),
                    value is Struct,
                    value->Struct_0 == *m,
                    value@ == ValueView::Struct(m@),
                    m@.len() == m.entries.len(),
                    forall|j: int|
                        0 <= j < m.entries.len() ==> (#[trigger] m@[j]) == (
                            m.entries@[j].0@,
                            m.entries@[j].1@,
                        ),
                    flatten_entries(m@.take(i as int), prefix@) matches Some(front)
                        && entries_view(out@) == entries_view(old(out)@) + front,
                decreases m.entries.len() - i,
            {
                proof {
                    assert(m@.take(i + 1).drop_last() =~= m@.take(i as int));
                    assert(m@.take(i + 1).last() == m@[i as int]);
                    assert(m@.take(m@.len() as int) =~= m@);
                }
                let key = m.entries[i].0.as_str();
                if split_once_at(key, '.').is_some() {
                    proof {
                        lemma_flatten_prefix_fails(m@, prefix@, i + 1);
                    }
                    return Err(
                        unsupported_error("struct key `", key, "` contains '.', not supported"),
                    );
                }
                let name = if prefix.is_empty() {
                    String::from_str(key)
                } else {
                    concat3(prefix, ".", key)
                };
                proof {
                    reveal_strlit(".");
                    assert("."@ =~= seq!['.']);
                    assert(name@ == join_path(prefix@, key@));
                }
                match flatten_to_leaves(&m.entries[i].1, name.as_str(), out) {
                    Ok(_) => {},
                    Err(e) => {
                        proof {
                            lemma_flatten_prefix_fails(m@, prefix@, i + 1);
                        }
                        return Err(e);
                    },
                }
                i = i + 1;
            }
            proof {
                assert(m@.take(i as int) =~= m@);
            }
            Ok(())
        },
        _ => {
            let name = if prefix.is_empty() {
                String::from_str("data")
            } else {
                String::from_str(prefix)
            };
            let ghost before = out@;
            out.push((name, value.clone()));
            proof {
                lemma_entries_view(before);
                lemma_entries_view(out@);
                assert(entries_view(out@) =~= entries_view(before) + seq![(name@, value@)]);
            }
            Ok(())
        },
    }
}

/// Where the fields up to `i` cannot be flattened, neither can all of them.
pub proof fn lemma_flatten_prefix_fails(
    entries: Seq<(Seq<char>, ValueView)>,
    prefix: Seq<char>,
    i: int,
)
    requires
        0 <= i <= entries.len(),
        flatten_entries(entries.take(i), prefix) is None,
    ensures
        flatten_entries(entries, prefix) is None,
    decreases entries.len() - i,
{
    if i < entries.len() {
        assert(entries.take(i + 1).drop_last() =~= entries.take(i));
        lemma_flatten_prefix_fails(entries, prefix, i + 1);
    } else {
        assert(entries.take(i) =~= entries);
    }
}

/// Whether no segment of the path is empty.
pub open spec fn segments_named(parts: Seq<Seq<char>>) -> bool {
    forall|i: int| 0 <= i < parts.len() ==> (#[trigger] parts[i]).len() > 0
}

/// The record with `value` at the place that the segments lead to: a record
/// on the way is changed in its place, and a new record is put in for each
/// segment on the way that names no field yet. `None` where a segment on the
/// way names a field that is not a record.
pub open spec fn assign_spec(
    entries: Seq<(Seq<char>, ValueView)>,
    parts: Seq<Seq<char>>,
    value: ValueView,
) -> Option<Seq<(Seq<char>, ValueView)>>
    decreases parts.len(),
{
    if parts.len() == 0 {
        None
    } else if parts.len() == 1 {
        Some(entries_insert(entries, parts[0], value))
    } else {
        match entries_get(entries, parts[0]) {
            None => match assign_spec(Seq::empty(), parts.drop_first(), value) {
                Some(sub) => Some(entries_insert(entries, parts[0], ValueView::Struct(sub))),
                None => None,
            },
            Some(ValueView::Struct(sub)) => match assign_spec(sub, parts.drop_first(), value) {
                Some(sub2) => Some(
                    entries.update(
                        entries_find(entries, parts[0]),
                        (parts[0], ValueView::Struct(sub2)),
                    ),
                ),
                None => None,
            },
            Some(_) => None,
        }
    }
}

/// Whether every segment of the path has a name.
fn path_well_named(path: &str) -> (r: bool)
    ensures
        r == segments_named(split_path(path@)),
{
    let mut rest = path;
    loop
        invariant
            segments_named(split_path(path@)) == segments_named(split_path(rest@)),
        decreases rest@.len(),
    {
        match split_once_at(rest, '.') {
            Some((head, tail)) => {
                proof {
                    lemma_split_at_dot(head@, tail@);
                    let all = seq![head@] + split_path(tail@);
                    assert(all[0] == head@);
                    assert forall|i: int| 0 <= i < split_path(tail@).len() implies split_path(
                        tail@,
                    )[i] == all[i + 1] by {}
                }
                if head.is_empty() {
                    return false;
                }
                rest = tail;
            },
            None => {
                proof {
                    lemma_split_plain(rest@);
                    assert(seq![rest@][0] == rest@);
                }
                return !rest.is_empty();
            },
        }
    }
}

/// Puts `value` at `path` below `root`; every segment of `path` has a name.
fn assign_below(root: &mut StructMap, path: &str, value: GbfValue) -> (r: Result<(), GbfError>)
    ensures
        old(root).wf() && crate::order::well_ordered(value@) ==> final(root).wf(),
        match r {
            Ok(_) => assign_spec(old(root)@, split_path(path@), value@) == Some(final(root)@),
            Err(e) => assign_spec(old(root)@, split_path(path@), value@) is None && e is Format
                && final(root)@ == old(root)@,
        },
    decreases path@.len(),
{
    match split_once_at(path, '.') {
        None => {
            proof {
                lemma_split_plain(path@);
            }
            root.insert(String::from_str(path), value);
            Ok(())
        },
        Some((head, tail)) => {
            proof {
                lemma_split_at_dot(head@, tail@);
                lemma_split_nonempty(tail@);
                assert((seq![head@] + split_path(tail@)).drop_first() =~= split_path(tail@));
                lemma_find_get(root@, head@);
                lemma_entries_view(root.entries@);
            }
            let i = root.position(head);
            if i < root.entries.len() {
                match &root.entries[i].1 {
                    GbfValue::Struct(m) => {
                        proof {
                            lemma_struct_view(*m);
                        }
                    },
                    _ => {
                        return Err(format_error("path collision at `", head, "`"));
                    },
                }
                let ghost before = root@;
                let ghost all = root.entries@;
                let (key, child) = root.entries.remove(i);
                assert(key@ == head@);
                let mut sub = match child {
                    GbfValue::Struct(m) => {
                        proof {
                            lemma_struct_view(m);
                        }
                        m
                    },
                    _ => StructMap::new(),
                };
                let ghost inner = sub@;
                assert(before[i as int].1 == ValueView::Struct(inner));
                let r = assign_below(&mut sub, tail, value);
                proof {
                    lemma_struct_view(sub);
                }
                let ghost after = sub@;
                root.entries.insert(i, (key, GbfValue::Struct(sub)));
                proof {
                    lemma_entries_view(root.entries@);
                    assert(root@ =~= before.update(
                        i as int,
                        (head@, ValueView::Struct(after)),
                    ));
                    if r is Err {
                        assert(root@ =~= before);
                    }
                }
                r
            } else {
                let mut sub = StructMap::new();
                match assign_below(&mut sub, tail, value) {
                    Ok(_) => {},
                    Err(e) => {
                        return Err(e);
                    },
                }
                proof {
                    lemma_struct_view(sub);
                }
                root.insert(String::from_str(head), GbfValue::Struct(sub));
                Ok(())
            }
        },
    }
}

/// Puts `value` at the dotted path below `root`, with a new record for each
/// segment on the way that names no field yet.
///
/// Fails with a format error, and leaves `root` as it was, where the path
/// is empty or has an empty segment, or where a segment on the way names a
/// field that is not a record.
pub fn assign_by_path(root: &mut StructMap, path: &str, value: GbfValue) -> (r: Result<
    (),
    GbfError,
>)
    ensures
        old(root).wf() && crate::order::well_ordered(value@) ==> final(root).wf(),
        match r {
            Ok(_) => segments_named(split_path(path@)) && assign_spec(
                old(root)@,
                split_path(path@),
                value@,
            ) == Some(final(root)@),
            Err(e) => e is Format && final(root)@ == old(root)@ && (!segments_named(
                split_path(path@),
            ) || assign_spec(old(root)@, split_path(path@), value@) is None),
        },
{
    if !path_well_named(path) {
        return Err(format_error("invalid path `", path, "`"));
    }
    assign_below(root, path, value)
}

} // verus!
