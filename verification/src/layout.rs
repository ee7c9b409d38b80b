//! Where the fields of a container are: bounds, selection by path, order by
//! offset, and the grouping of neighbouring fields into single reads.
use crate::compress::{MAX_FIELD_CSIZE, MAX_FIELD_USIZE};
use crate::error::{ErrorView, GbfError};
use crate::header::{fields_view, FieldMeta, FieldMetaView};
use crate::text::{concat2, same_text, strip_prefix_of};
use vstd::prelude::*;
use vstd::slice::{slice_subrange, slice_to_vec};
use vstd::string::StringExecFns;

verus! {

/// Fields that are at most this far apart are read together.
pub const READ_COALESCE_MAX_GAP_BYTES: u64 = 4096;

/// No group of fields that are read together spans more than this: 8 MiB.
pub const READ_COALESCE_MAX_GROUP_BYTES: u64 = 8388608;

/// Where the payload begins: where the header says, or right after the
/// header where it does not say.
pub open spec fn payload_origin(header_len: u32, header_payload_start: u64) -> u64 {
    if header_payload_start > 0 {
        header_payload_start
    } else {
        (8 + 4 + header_len) as u64
    }
}

/// Where the payload begins: where the header says, or right after the
/// header where it does not say.
pub fn field_payload_start(header_len: u32, header_payload_start: u64) -> (r: u64)
    ensures
        r == payload_origin(header_len, header_payload_start),
{
    if header_payload_start > 0 {
        header_payload_start
    } else {
        8u64 + 4u64 + header_len as u64
    }
}

/// What is wrong with the place of a field in a file of `file_len` bytes,
/// if anything: a stored or raw size beyond 16 GiB is unsupported, a place
/// beyond `u64` breaks the format, an end beyond the end of the file is out
/// of bounds, and a stored size beyond `usize` is unsupported. The error for
/// a field out of bounds holds the field's name, its offset and stored
/// size, and the length of the payload.
#[verifier::opaque]
pub open spec fn span_failure(f: FieldMetaView, payload_start: u64, file_len: u64) -> Option<
    ErrorView,
> {
    if f.csize > MAX_FIELD_CSIZE || f.usize > MAX_FIELD_USIZE {
        Some(ErrorView::Unsupported)
    } else if payload_start + f.offset + f.csize > u64::MAX {
        Some(ErrorView::Format)
    } else if payload_start + f.offset + f.csize > file_len {
        Some(
            ErrorView::FieldOutOfBounds {
                name: f.name,
                offset: f.offset,
                csize: f.csize,
                payload_len: if file_len >= payload_start {
                    (file_len - payload_start) as u64
                } else {
                    0
                },
            },
        )
    } else if f.csize > usize::MAX {
        Some(ErrorView::Unsupported)
    } else {
        None
    }
}

/// Holds the place of a field against the limits and the length of the
/// file. An error of kind `FieldOutOfBounds` holds the field's name, its
/// offset and stored size, and the length of the payload.
pub fn check_span(field: &FieldMeta, payload_start: u64, file_len: u64) -> (r: Result<
    (),
    GbfError,
>)
    ensures
        r matches Err(e) ==> e.names(field.name@),
        match r {
            Ok(_) => span_failure(field@, payload_start, file_len) is None,
            Err(e) => span_failure(field@, payload_start, file_len) == Some(e@),
        },
{
    proof {
        reveal(span_failure);
    }
    if field.csize > MAX_FIELD_CSIZE {
        return Err(
            crate::error::unsupported_error(
                "field `",
                field.name.as_str(),
                "` csize exceeds configured limit",
            ),
        );
    }
    if field.usize > MAX_FIELD_USIZE {
        return Err(
            crate::error::unsupported_error(
                "field `",
                field.name.as_str(),
                "` usize exceeds configured limit",
            ),
        );
    }
    let pos = match payload_start.checked_add(field.offset) {
        Some(p) => p,
        None => {
            return Err(
                crate::error::format_error(
                    "u64 addition overflow at field `",
                    field.name.as_str(),
                    "`",
                ),
            );
        },
    };
    let end = match pos.checked_add(field.csize) {
        Some(e) => e,
        None => {
            return Err(
                crate::error::format_error(
                    "u64 addition overflow at field `",
                    field.name.as_str(),
                    "`",
                ),
            );
        },
    };
    if end > file_len {
        return Err(
            GbfError::FieldOutOfBounds {
                name: field.name.clone(),
                offset: field.offset,
                csize: field.csize,
                payload_len: if file_len >= payload_start {
                    file_len - payload_start
                } else {
                    0
                },
            },
        );
    }
    if field.csize > usize::MAX as u64 {
        return Err(
            crate::error::unsupported_error(
                "field `",
                field.name.as_str(),
                "` csize too large for this platform",
            ),
        );
    }
    Ok(())
}

/// Whether every index is that of a field.
pub open spec fn indices_valid(wanted: Seq<usize>, count: nat) -> bool {
    forall|i: int| 0 <= i < wanted.len() ==> (#[trigger] wanted[i]) < count
}

/// What is wrong with the place of the first wanted field that has
/// something wrong, if any has.
pub open spec fn first_span_failure(
    fields: Seq<FieldMetaView>,
    wanted: Seq<usize>,
    payload_start: u64,
    file_len: u64,
) -> Option<ErrorView>
    decreases wanted.len(),
{
    if wanted.len() == 0 {
        None
    } else {
        match span_failure(fields[wanted[0] as int], payload_start, file_len) {
            Some(k) => Some(k),
            None => first_span_failure(fields, wanted.drop_first(), payload_start, file_len),
        }
    }
}

/// Holds the places of the wanted fields against the limits and the length
/// of the file, in the order given. The error is that of the first wanted
/// field whose place fails: for a field out of bounds it holds the field's
/// name, offset and stored size, and the length of the payload.
pub fn check_spans(fields: &Vec<FieldMeta>, wanted: &Vec<usize>, payload_start: u64, file_len: u64) -> (r:
    Result<(), GbfError>)
    requires
        indices_valid(wanted@, fields@.len()),
    ensures
        match r {
            Ok(_) => first_span_failure(fields_view(fields@), wanted@, payload_start, file_len)
                is None && forall|i: int|
                0 <= i < wanted.len() ==> span_failure(
                    #[trigger] fields@[wanted@[i] as int]@,
                    payload_start,
                    file_len,
                ) is None,
            Err(e) => first_span_failure(fields_view(fields@), wanted@, payload_start, file_len)
                == Some(e@),
        },
{
    let ghost all = fields_view(fields@);
    let mut i: usize = 0;
    assert(wanted@.skip(0) =~= wanted@);
    while i < wanted.len()
        invariant
            0 <= i <= wanted.len(),
            all == fields_view(fields@),
            indices_valid(wanted@, fields@.len()),
            first_span_failure(all, wanted@, payload_start, file_len) == first_span_failure(
                all,
                wanted@.skip(i as int),
                payload_start,
                file_len,
            ),
            forall|j: int|
                0 <= j < i ==> span_failure(
                    #[trigger] fields@[wanted@[j] as int]@,
                    payload_start,
                    file_len,
                ) is None,
        decreases wanted.len() - i,
    {
        proof {
            let rest = wanted@.skip(i as int);
            assert(rest[0] == wanted@[i as int]);
            assert(rest.drop_first() =~= wanted@.skip(i + 1));
            assert(wanted@[i as int] < fields@.len());
        }
        match check_span(&fields[wanted[i]], payload_start, file_len) {
            Ok(_) => {},
            Err(e) => {
                return Err(e);
            },
        }
        i = i + 1;
    }
    Ok(())
}

/// The indices `0..count`.
pub fn all_indices(count: usize) -> (r: Vec<usize>)
    ensures
        r@ == Seq::new(count as nat, |i: int| i as usize),
        indices_valid(r@, count as nat),
{
    let mut out: Vec<usize> = Vec::new();
    let mut i: usize = 0;
    while i < count
        invariant
            0 <= i <= count,
            out@.len() == i,
            forall|j: int| 0 <= j < i ==> out@[j] == j as usize,
        decreases count - i,
    {
        out.push(i);
        i = i + 1;
    }
    assert(out@ =~= Seq::new(count as nat, |i: int| i as usize));
    out
}

/// The place of the first field named `name`, or the number of fields
/// where there is none.
pub open spec fn first_named(fields: Seq<FieldMetaView>, name: Seq<char>) -> int
    decreases fields.len(),
{
    if fields.len() == 0 {
        0
    } else if fields[0].name == name {
        0
    } else {
        1 + first_named(fields.drop_first(), name)
    }
}

/// The places of the fields whose names begin with `prefix`, in order.
pub open spec fn fields_below(fields: Seq<FieldMetaView>, prefix: Seq<char>) -> Seq<usize>
    decreases fields.len(),
{
    if fields.len() == 0 {
        Seq::empty()
    } else if prefix.is_prefix_of(fields.last().name) {
        fields_below(fields.drop_last(), prefix).push((fields.len() - 1) as usize)
    } else {
        fields_below(fields.drop_last(), prefix)
    }
}

/// [`first_named`] is within bounds, and names the field where it is below
/// the number of fields.
pub proof fn lemma_first_named(fields: Seq<FieldMetaView>, name: Seq<char>)
    ensures
        0 <= first_named(fields, name) <= fields.len(),
        first_named(fields, name) < fields.len() ==> fields[first_named(fields, name)].name
            == name,
        forall|j: int| 0 <= j < first_named(fields, name) ==> (#[trigger] fields[j]).name != name,
    decreases fields.len(),
{
    if fields.len() > 0 && fields[0].name != name {
        let rest = fields.drop_first();
        lemma_first_named(rest, name);
        assert forall|j: int| 0 <= j < first_named(fields, name) implies (
        #[trigger] fields[j]).name != name by {
            if j > 0 {
                assert(fields[j] == rest[j - 1]);
            }
        }
    }
}

/// Every place in [`fields_below`] is that of a field.
pub proof fn lemma_fields_below(fields: Seq<FieldMetaView>, prefix: Seq<char>)
    requires
        fields.len() <= usize::MAX,
    ensures
        indices_valid(fields_below(fields, prefix), fields.len()),
        forall|i: int|
            0 <= i < fields_below(fields, prefix).len() ==> prefix.is_prefix_of(
                fields[(#[trigger] fields_below(fields, prefix)[i]) as int].name,
            ),
    decreases fields.len(),
{
    if fields.len() > 0 {
        let front = fields.drop_last();
        lemma_fields_below(front, prefix);
        let below = fields_below(fields, prefix);
        let inner = fields_below(front, prefix);
        assert forall|i: int| 0 <= i < below.len() implies prefix.is_prefix_of(
            fields[(#[trigger] below[i]) as int].name,
        ) by {
            if i < inner.len() {
                assert(below[i] == inner[i]);
                assert(front[inner[i] as int] == fields[inner[i] as int]);
            }
        }
    }
}

/// What a path selects.
#[derive(Debug, PartialEq, Eq)]
pub enum Selection {
    /// The one field of this name.
    Leaf(usize),
    /// The fields below this name, in the order of the field table.
    Subtree(Vec<usize>),
}

/// The fields that a path selects: the first field of exactly this name;
/// else the fields whose names begin with the path and a dot. `None` where
/// there are none of either.
#[verifier::opaque]
pub open spec fn selected(fields: Seq<FieldMetaView>, path: Seq<char>) -> Option<
    (bool, Seq<usize>),
> {
    let i = first_named(fields, path);
    if i < fields.len() {
        Some((true, seq![i as usize]))
    } else {
        let below = fields_below(fields, path + seq!['.']);
        if below.len() == 0 {
            None
        } else {
            Some((false, below))
        }
    }
}

/// Selects the fields of a path: the field of exactly this name, else the
/// fields below it. Fails with `VarNotFound`, naming the path, where there
/// are none.
pub fn select_fields(fields: &Vec<FieldMeta>, path: &str) -> (r: Result<Selection, GbfError>)
    ensures
        match r {
            Ok(Selection::Leaf(i)) => selected(fields_view(fields@), path@) == Some(
                (true, seq![i]),
            ) && i < fields.len(),
            Ok(Selection::Subtree(below)) => selected(fields_view(fields@), path@) == Some(
                (false, below@),
            ) && indices_valid(below@, fields@.len()),
            Err(e) => selected(fields_view(fields@), path@) is None && (e matches GbfError::VarNotFound(
                p,
            ) && p@ == path@),
        },
{
    proof {
        reveal(selected);
    }
    let ghost all = fields_view(fields@);
    proof {
        lemma_first_named(all, path@);
        assert(all.skip(0) =~= all);
    }
    let mut i: usize = 0;
    while i < fields.len()
        invariant
            0 <= i <= fields.len(),
            all == fields_view(fields@),
            first_named(all, path@) == i + first_named(all.skip(i as int), path@),
        decreases fields.len() - i,
    {
        proof {
            let rest = all.skip(i as int);
            assert(rest[0] == all[i as int]);
            assert(rest.drop_first() =~= all.skip(i + 1));
        }
        if same_text(fields[i].name.as_str(), path) {
            proof {
                reveal(selected);
            }
            return Ok(Selection::Leaf(i));
        }
        i = i + 1;
    }
    proof {
        assert(all.skip(i as int).len() == 0);
        reveal_strlit(".");
        assert("."@ =~= seq!['.']);
    }
    let prefix = concat2(path, ".");
    let mut below: Vec<usize> = Vec::new();
    let mut k: usize = 0;
    assert(all.take(0).len() == 0);
    while k < fields.len()
        invariant
            0 <= k <= fields.len(),
            all == fields_view(fields@),
            prefix@ == path@ + seq!['.'],
            below@ == fields_below(all.take(k as int), prefix@),
        decreases fields.len() - k,
    {
        proof {
            assert(all.take(k + 1).drop_last() =~= all.take(k as int));
            assert(all.take(k + 1).last() == all[k as int]);
        }
        if strip_prefix_of(fields[k].name.as_str(), prefix.as_str()).is_some() {
            below.push(k);
        }
        k = k + 1;
    }
    proof {
        assert(all.take(k as int) =~= all);
        lemma_fields_below(all, prefix@);
    }
    if below.len() == 0 {
        return Err(GbfError::VarNotFound(String::from_str(path)));
    }
    Ok(Selection::Subtree(below))
}

/// The list with `x` put behind the last field that does not begin after
/// the field `x`.
pub open spec fn insert_by_offset(fields: Seq<FieldMetaView>, sorted: Seq<usize>, x: usize) -> Seq<
    usize,
>
    decreases sorted.len(),
{
    if sorted.len() == 0 {
        seq![x]
    } else if fields[sorted.last() as int].offset <= fields[x as int].offset {
        sorted.push(x)
    } else {
        insert_by_offset(fields, sorted.drop_last(), x).push(sorted.last())
    }
}

/// The wanted fields in the order of their offsets; fields of one offset
/// keep their order.
pub open spec fn sorted_by_offset(fields: Seq<FieldMetaView>, wanted: Seq<usize>) -> Seq<usize>
    decreases wanted.len(),
{
    if wanted.len() == 0 {
        Seq::empty()
    } else {
        insert_by_offset(fields, sorted_by_offset(fields, wanted.drop_last()), wanted.last())
    }
}

/// Inserting keeps the indices those of fields, and adds one.
pub proof fn lemma_insert_valid(fields: Seq<FieldMetaView>, sorted: Seq<usize>, x: usize)
    requires
        indices_valid(sorted, fields.len()),
        x < fields.len(),
    ensures
        indices_valid(insert_by_offset(fields, sorted, x), fields.len()),
        insert_by_offset(fields, sorted, x).len() == sorted.len() + 1,
    decreases sorted.len(),
{
    if sorted.len() > 0 && !(fields[sorted.last() as int].offset <= fields[x as int].offset) {
        lemma_insert_valid(fields, sorted.drop_last(), x);
    }
}

/// Whether the fields come in the order of their offsets.
pub open spec fn in_offset_order(fields: Seq<FieldMetaView>, sorted: Seq<usize>) -> bool {
    forall|i: int, j: int|
        0 <= i < j < sorted.len() ==> fields[(#[trigger] sorted[i]) as int].offset <= fields[(
        #[trigger] sorted[j]) as int].offset
}

/// Inserting into a list in offset order gives a list in offset order.
pub proof fn lemma_insert_ordered(fields: Seq<FieldMetaView>, sorted: Seq<usize>, x: usize)
    requires
        indices_valid(sorted, fields.len()),
        x < fields.len(),
        in_offset_order(fields, sorted),
    ensures
        in_offset_order(fields, insert_by_offset(fields, sorted, x)),
        insert_by_offset(fields, sorted, x).to_multiset() == sorted.to_multiset().insert(x),
    decreases sorted.len(),
{
    broadcast use vstd::seq_lib::group_to_multiset_ensures;

    let r = insert_by_offset(fields, sorted, x);
    if sorted.len() == 0 {
        assert(r =~= Seq::<usize>::empty().push(x));
        assert(sorted =~= Seq::<usize>::empty());
    } else if fields[sorted.last() as int].offset <= fields[x as int].offset {
        assert forall|i: int, j: int| 0 <= i < j < r.len() implies fields[(
        #[trigger] r[i]) as int].offset <= fields[(#[trigger] r[j]) as int].offset by {
            if j == r.len() - 1 {
                if i < sorted.len() - 1 {
                    assert(fields[sorted[i] as int].offset <= fields[sorted[sorted.len()
                        - 1] as int].offset);
                }
            }
        }
    } else {
        let front = sorted.drop_last();
        assert forall|i: int, j: int| 0 <= i < j < front.len() implies fields[(
        #[trigger] front[i]) as int].offset <= fields[(#[trigger] front[j]) as int].offset by {
            assert(front[i] == sorted[i] && front[j] == sorted[j]);
        }
        lemma_insert_ordered(fields, front, x);
        lemma_insert_valid(fields, front, x);
        let inner = insert_by_offset(fields, front, x);
        assert(r == inner.push(sorted.last()));
        assert forall|k: int| 0 <= k < inner.len() implies fields[(#[trigger] inner[k]) as int].offset
            <= fields[sorted.last() as int].offset by {
            assert(inner.to_multiset().count(inner[k]) > 0);
            if inner[k] != x {
                assert(front.to_multiset().count(inner[k]) > 0);
                let m = choose|m: int| 0 <= m < front.len() && front[m] == inner[k];
                assert(sorted[m] == front[m]);
            }
        }
        assert forall|i: int, j: int| 0 <= i < j < r.len() implies fields[(
        #[trigger] r[i]) as int].offset <= fields[(#[trigger] r[j]) as int].offset by {
            if j < inner.len() {
                assert(r[i] == inner[i] && r[j] == inner[j]);
            } else {
                assert(r[i] == inner[i]);
            }
        }
        assert(sorted =~= front.push(sorted.last()));
        assert(r.to_multiset() =~= sorted.to_multiset().insert(x));
    }
}

/// The sorted list holds the wanted fields, each as often as it is wanted,
/// in the order of their offsets.
pub proof fn lemma_sorted_by_offset(fields: Seq<FieldMetaView>, wanted: Seq<usize>)
    requires
        indices_valid(wanted, fields.len()),
    ensures
        indices_valid(sorted_by_offset(fields, wanted), fields.len()),
        sorted_by_offset(fields, wanted).len() == wanted.len(),
        in_offset_order(fields, sorted_by_offset(fields, wanted)),
        sorted_by_offset(fields, wanted).to_multiset() == wanted.to_multiset(),
    decreases wanted.len(),
{
    broadcast use vstd::seq_lib::group_to_multiset_ensures;

    if wanted.len() > 0 {
        let front = wanted.drop_last();
        lemma_sorted_by_offset(fields, front);
        lemma_insert_valid(fields, sorted_by_offset(fields, front), wanted.last());
        lemma_insert_ordered(fields, sorted_by_offset(fields, front), wanted.last());
        assert(wanted =~= front.push(wanted.last()));
    } else {
        assert(wanted =~= Seq::<usize>::empty());
    }
}

/// Two lists in one, in the order of the offsets: the later of the two last
/// fields comes last, and of two fields of one offset that of the second
/// list.
pub open spec fn merged(fields: Seq<FieldMetaView>, a: Seq<usize>, b: Seq<usize>) -> Seq<usize>
    decreases a.len() + b.len(),
{
    if b.len() == 0 {
        a
    } else if a.len() == 0 {
        b
    } else if fields[a.last() as int].offset <= fields[b.last() as int].offset {
        merged(fields, a, b.drop_last()).push(b.last())
    } else {
        merged(fields, a.drop_last(), b).push(a.last())
    }
}

/// Putting a field into the second of two lists and merging is merging
/// and putting the field into the result.
pub proof fn lemma_merge_insert(fields: Seq<FieldMetaView>, a: Seq<usize>, b: Seq<usize>, z: usize)
    ensures
        merged(fields, a, insert_by_offset(fields, b, z)) == insert_by_offset(
            fields,
            merged(fields, a, b),
            z,
        ),
    decreases a.len() + b.len(),
{
    let key = |x: usize| fields[x as int].offset;
    let with = insert_by_offset(fields, b, z);
    let m = merged(fields, a, b);
    if a.len() == 0 {
        assert(with.len() > 0);
    } else if b.len() == 0 {
        assert(with =~= seq![z]);
        assert(with.drop_last() =~= Seq::<usize>::empty());
        assert(with.last() == z);
        if key(a.last()) <= key(z) {
            assert(merged(fields, a, with) == merged(fields, a, with.drop_last()).push(z));
        } else {
            lemma_merge_insert(fields, a.drop_last(), b, z);
            assert(merged(fields, a, with) == merged(fields, a.drop_last(), with).push(
                a.last(),
            ));
            assert(merged(fields, a.drop_last(), b) == a.drop_last());
        }
    } else if key(b.last()) <= key(z) {
        assert(with == b.push(z));
        assert(with.drop_last() =~= b);
        assert(with.last() == z);
        if key(a.last()) <= key(z) {
            assert(merged(fields, a, with) == m.push(z));
            assert(m.len() > 0 && key(m.last()) <= key(z)) by {
                if key(a.last()) <= key(b.last()) {
                    assert(m == merged(fields, a, b.drop_last()).push(b.last()));
                } else {
                    assert(m == merged(fields, a.drop_last(), b).push(a.last()));
                }
            }
        } else {
            lemma_merge_insert(fields, a.drop_last(), b, z);
            assert(merged(fields, a, with) == merged(fields, a.drop_last(), with).push(
                a.last(),
            ));
            assert(m == merged(fields, a.drop_last(), b).push(a.last()));
            assert(m.drop_last() =~= merged(fields, a.drop_last(), b));
        }
    } else {
        let inner = insert_by_offset(fields, b.drop_last(), z);
        assert(with == inner.push(b.last()));
        assert(with.drop_last() =~= inner);
        assert(with.last() == b.last());
        if key(a.last()) <= key(b.last()) {
            lemma_merge_insert(fields, a, b.drop_last(), z);
            assert(merged(fields, a, with) == merged(fields, a, inner).push(b.last()));
            assert(m == merged(fields, a, b.drop_last()).push(b.last()));
            assert(m.drop_last() =~= merged(fields, a, b.drop_last()));
        } else {
            lemma_merge_insert(fields, a.drop_last(), b, z);
            assert(merged(fields, a, with) == merged(fields, a.drop_last(), with).push(
                a.last(),
            ));
            assert(m == merged(fields, a.drop_last(), b).push(a.last()));
            assert(m.drop_last() =~= merged(fields, a.drop_last(), b));
        }
    }
}

/// Merging two sorted lists is sorting the two in a row.
pub proof fn lemma_merge_sorted(fields: Seq<FieldMetaView>, x: Seq<usize>, y: Seq<usize>)
    ensures
        merged(fields, sorted_by_offset(fields, x), sorted_by_offset(fields, y))
            == sorted_by_offset(fields, x + y),
    decreases y.len(),
{
    if y.len() == 0 {
        assert(x + y =~= x);
    } else {
        lemma_merge_sorted(fields, x, y.drop_last());
        assert((x + y).drop_last() =~= x + y.drop_last());
        assert((x + y).last() == y.last());
        lemma_merge_insert(
            fields,
            sorted_by_offset(fields, x),
            sorted_by_offset(fields, y.drop_last()),
            y.last(),
        );
    }
}

/// Merges two lists of fields in the order of their offsets.
fn merge_by_offset(fields: &Vec<FieldMeta>, a: &Vec<usize>, b: &Vec<usize>) -> (r: Vec<usize>)
    requires
        indices_valid(a@, fields@.len()),
        indices_valid(b@, fields@.len()),
        a.len() + b.len() <= usize::MAX,
    ensures
        r@ == merged(fields_view(fields@), a@, b@),
{
    let ghost all = fields_view(fields@);
    let n = a.len() + b.len();
    let mut out: Vec<usize> = Vec::new();
    let mut t: usize = 0;
    while t < n
        invariant
            0 <= t <= n,
            out.len() == t,
        decreases n - t,
    {
        out.push(0);
        t = t + 1;
    }
    let mut i: usize = a.len();
    let mut j: usize = b.len();
    proof {
        assert(a@.take(i as int) =~= a@);
        assert(b@.take(j as int) =~= b@);
        assert(out@.skip(n as int) =~= Seq::<usize>::empty());
        assert(merged(all, a@, b@) + Seq::<usize>::empty() =~= merged(all, a@, b@));
    }
    while i + j > 0
        invariant
            0 <= i <= a.len(),
            0 <= j <= b.len(),
            out.len() == n,
            n == a.len() + b.len(),
            all == fields_view(fields@),
            indices_valid(a@, fields@.len()),
            indices_valid(b@, fields@.len()),
            merged(all, a@, b@) == merged(all, a@.take(i as int), b@.take(j as int)) + out@.skip(
                i + j,
            ),
        decreases i + j,
    {
        let ghost x = a@.take(i as int);
        let ghost y = b@.take(j as int);
        let ghost tail = out@.skip(i + j);
        let from_b = if j == 0 {
            false
        } else if i == 0 {
            true
        } else {
            proof {
                assert(a@[i - 1] < fields@.len());
                assert(b@[j - 1] < fields@.len());
            }
            fields[a[i - 1]].offset <= fields[b[j - 1]].offset
        };
        if from_b {
            let v = b[j - 1];
            out.set(i + j - 1, v);
            proof {
                assert(y.last() == v);
                assert(y.drop_last() =~= b@.take(j - 1));
                assert(out@.skip(i + j - 1) =~= seq![v] + tail);
                if i == 0 {
                    assert(x.len() == 0);
                    assert(merged(all, x, y) == y);
                    assert(merged(all, x, y.drop_last()) == y.drop_last()) by {
                        if y.drop_last().len() == 0 {
                            assert(x =~= y.drop_last());
                        }
                    }
                    assert(y =~= y.drop_last().push(v));
                }
                assert(merged(all, x, y) == merged(all, x, y.drop_last()).push(v));
                assert(merged(all, x, y.drop_last()).push(v) + tail =~= merged(
                    all,
                    x,
                    y.drop_last(),
                ) + (seq![v] + tail));
            }
            j = j - 1;
        } else {
            let v = a[i - 1];
            out.set(i + j - 1, v);
            proof {
                assert(x.last() == v);
                assert(x.drop_last() =~= a@.take(i - 1));
                assert(out@.skip(i + j - 1) =~= seq![v] + tail);
                if j == 0 {
                    assert(y.len() == 0);
                    assert(merged(all, x, y) == x);
                    assert(merged(all, x.drop_last(), y) == x.drop_last());
                    assert(x =~= x.drop_last().push(v));
                }
                assert(merged(all, x, y) == merged(all, x.drop_last(), y).push(v));
                assert(merged(all, x.drop_last(), y).push(v) + tail =~= merged(
                    all,
                    x.drop_last(),
                    y,
                ) + (seq![v] + tail));
            }
            i = i - 1;
        }
    }
    proof {
        assert(a@.take(0) =~= Seq::<usize>::empty());
        assert(b@.take(0) =~= Seq::<usize>::empty());
        assert(out@.skip(0) =~= out@);
        assert(Seq::<usize>::empty() + out@ =~= out@);
    }
    out
}

/// Sorts the wanted fields from `from` to `to` by their offsets.
fn sort_part(fields: &Vec<FieldMeta>, wanted: &Vec<usize>, from: usize, to: usize) -> (r: Vec<
    usize,
>)
    requires
        indices_valid(wanted@, fields@.len()),
        from <= to <= wanted.len(),
    ensures
        r@ == sorted_by_offset(fields_view(fields@), wanted@.subrange(from as int, to as int)),
        indices_valid(r@, fields@.len()),
        r@.len() == to - from,
    decreases to - from,
{
    let ghost all = fields_view(fields@);
    let ghost part = wanted@.subrange(from as int, to as int);
    proof {
        assert forall|i: int| 0 <= i < part.len() implies (#[trigger] part[i]) < fields@.len() by {
            assert(part[i] == wanted@[from + i]);
        }
        lemma_sorted_by_offset(all, part);
    }
    if to - from == 0 {
        let out: Vec<usize> = Vec::new();
        assert(part =~= Seq::<usize>::empty());
        return out;
    }
    if to - from == 1 {
        let mut out: Vec<usize> = Vec::new();
        out.push(wanted[from]);
        proof {
            assert(part.drop_last() =~= Seq::<usize>::empty());
            assert(part.last() == wanted@[from as int]);
            assert(sorted_by_offset(all, part.drop_last()) =~= Seq::<usize>::empty());
            assert(out@ =~= sorted_by_offset(all, part));
        }
        return out;
    }
    let mid = from + (to - from) / 2;
    let left = sort_part(fields, wanted, from, mid);
    let right = sort_part(fields, wanted, mid, to);
    proof {
        let x = wanted@.subrange(from as int, mid as int);
        let y = wanted@.subrange(mid as int, to as int);
        assert(x + y =~= part);
        lemma_merge_sorted(all, x, y);
    }
    merge_by_offset(fields, &left, &right)
}

/// Puts the wanted fields in the order of their offsets; fields of one
/// offset keep their order.
pub fn sort_by_offset(fields: &Vec<FieldMeta>, wanted: &Vec<usize>) -> (r: Vec<usize>)
    requires
        indices_valid(wanted@, fields@.len()),
    ensures
        r@ == sorted_by_offset(fields_view(fields@), wanted@),
        indices_valid(r@, fields@.len()),
        r@.len() == wanted@.len(),
        in_offset_order(fields_view(fields@), r@),
        r@.to_multiset() == wanted@.to_multiset(),
{
    proof {
        assert(wanted@.subrange(0, wanted.len() as int) =~= wanted@);
        lemma_sorted_by_offset(fields_view(fields@), wanted@);
    }
    sort_part(fields, wanted, 0, wanted.len())
}

/// A run of neighbouring fields that are read together: the bytes from
/// `start` to `end`, counted from the start of the payload, and the fields
/// in them.
#[derive(Debug, PartialEq, Eq)]
pub struct ReadGroup {
    pub start: u64,
    pub end: u64,
    pub members: Vec<usize>,
}

/// The mathematical content of a [`ReadGroup`].
pub struct ReadGroupView {
    pub start: u64,
    pub end: u64,
    pub members: Seq<usize>,
}

impl View for ReadGroup {
    type V = ReadGroupView;

    open spec fn view(&self) -> ReadGroupView {
        ReadGroupView { start: self.start, end: self.end, members: self.members@ }
    }
}

/// The views of a list of groups, in order.
pub open spec fn groups_view(groups: Seq<ReadGroup>) -> Seq<ReadGroupView> {
    Seq::new(groups.len(), |i: int| groups[i]@)
}

/// Where a field ends, counted from the start of the payload; `u64::MAX`
/// where that is beyond `u64`.
pub open spec fn field_end(f: FieldMetaView) -> u64 {
    if f.offset + f.csize > u64::MAX {
        u64::MAX
    } else {
        (f.offset + f.csize) as u64
    }
}

/// Whether a field joins the group before it: it begins at most 4096 bytes
/// after the end of the group, and the group with it spans at most 8 MiB.
pub open spec fn joins(g: ReadGroupView, f: FieldMetaView) -> bool {
    let gap = if f.offset > g.end {
        f.offset - g.end
    } else {
        0
    };
    let span = if field_end(f) > g.start {
        field_end(f) - g.start
    } else {
        0
    };
    gap <= READ_COALESCE_MAX_GAP_BYTES && span <= READ_COALESCE_MAX_GROUP_BYTES
}

/// The group with one more field.
pub open spec fn joined(g: ReadGroupView, f: FieldMetaView, x: usize) -> ReadGroupView {
    ReadGroupView {
        start: g.start,
        end: if field_end(f) > g.end {
            field_end(f)
        } else {
            g.end
        },
        members: g.members.push(x),
    }
}

/// The groups of a list of fields, taken in order: each field joins the
/// group before it where [`joins`] allows, and else begins a group.
pub open spec fn grouped(fields: Seq<FieldMetaView>, sorted: Seq<usize>) -> Seq<ReadGroupView>
    decreases sorted.len(),
{
    if sorted.len() == 0 {
        Seq::empty()
    } else {
        let g = grouped(fields, sorted.drop_last());
        let x = sorted.last();
        let f = fields[x as int];
        if g.len() > 0 && joins(g.last(), f) {
            g.drop_last().push(joined(g.last(), f, x))
        } else {
            g.push(ReadGroupView { start: f.offset, end: field_end(f), members: seq![x] })
        }
    }
}

/// Whether a group covers each of its fields, and its fields are fields.
pub open spec fn group_covers(fields: Seq<FieldMetaView>, g: ReadGroupView) -> bool {
    &&& g.start <= g.end
    &&& g.members.len() > 0
    &&& forall|k: int|
        0 <= k < g.members.len() ==> (#[trigger] g.members[k]) < fields.len() && g.start
            <= fields[g.members[k] as int].offset && field_end(fields[g.members[k] as int])
            <= g.end
}

/// Every group covers its fields, and the fields of all groups in a row
/// are the fields that were grouped, in their order.
pub proof fn lemma_grouped(fields: Seq<FieldMetaView>, sorted: Seq<usize>)
    requires
        indices_valid(sorted, fields.len()),
        in_offset_order(fields, sorted),
    ensures
        forall|i: int|
            0 <= i < grouped(fields, sorted).len() ==> group_covers(
                fields,
                #[trigger] grouped(fields, sorted)[i],
            ),
        all_members(grouped(fields, sorted)) == sorted,
        sorted.len() > 0 ==> grouped(fields, sorted).len() > 0 && grouped(
            fields,
            sorted,
        ).last().start <= fields[sorted.last() as int].offset,
    decreases sorted.len(),
{
    if sorted.len() > 0 {
        let front = sorted.drop_last();
        assert forall|i: int, j: int| 0 <= i < j < front.len() implies fields[(
        #[trigger] front[i]) as int].offset <= fields[(#[trigger] front[j]) as int].offset by {
            assert(front[i] == sorted[i] && front[j] == sorted[j]);
        }
        lemma_grouped(fields, front);
        let g = grouped(fields, front);
        let x = sorted.last();
        let f = fields[x as int];
        let r = grouped(fields, sorted);
        if g.len() > 0 && joins(g.last(), f) {
            let last = joined(g.last(), f, x);
            assert(front.len() > 0) by {
                if front.len() == 0 {
                    assert(g.len() == 0);
                }
            }
            assert(fields[front.last() as int].offset <= f.offset) by {
                assert(front.last() == sorted[sorted.len() - 2]);
            }
            assert(group_covers(fields, g.last()));
            assert(group_covers(fields, last)) by {
                assert forall|k: int| 0 <= k < last.members.len() implies (
                #[trigger] last.members[k]) < fields.len() && last.start
                    <= fields[last.members[k] as int].offset && field_end(
                    fields[last.members[k] as int],
                ) <= last.end by {
                    if k < g.last().members.len() {
                        assert(last.members[k] == g.last().members[k]);
                    }
                }
            }
            assert forall|i: int| 0 <= i < r.len() implies group_covers(fields, #[trigger] r[i]) by {
                if i < r.len() - 1 {
                    assert(r[i] == g[i]);
                }
            }
            assert(all_members(r) =~= sorted) by {
                assert(r.drop_last() =~= g.drop_last());
                assert(g =~= g.drop_last().push(g.last()));
                assert(all_members(g) == all_members(g.drop_last()) + g.last().members);
                assert(all_members(r) == all_members(g.drop_last()) + last.members);
                assert(sorted =~= front.push(x));
            }
        } else {
            assert forall|i: int| 0 <= i < r.len() implies group_covers(fields, #[trigger] r[i]) by {
                if i < r.len() - 1 {
                    assert(r[i] == g[i]);
                }
            }
            assert(all_members(r) =~= sorted) by {
                assert(r.drop_last() =~= g);
                assert(sorted =~= front.push(x));
            }
        }
    }
}

/// The fields of all groups in a row.
pub open spec fn all_members(groups: Seq<ReadGroupView>) -> Seq<usize>
    decreases groups.len(),
{
    if groups.len() == 0 {
        Seq::empty()
    } else {
        all_members(groups.drop_last()) + groups.last().members
    }
}

/// Groups fields that are taken in the order given: each field joins the
/// group before it where it begins at most 4096 bytes after its end and
/// the group then spans at most 8 MiB; else it begins a group.
pub fn plan_groups(fields: &Vec<FieldMeta>, sorted: &Vec<usize>) -> (r: Vec<ReadGroup>)
    requires
        indices_valid(sorted@, fields@.len()),
    ensures
        groups_view(r@) == grouped(fields_view(fields@), sorted@),
{
    let ghost all = fields_view(fields@);
    let mut out: Vec<ReadGroup> = Vec::new();
    let mut i: usize = 0;
    assert(groups_view(out@) =~= Seq::<ReadGroupView>::empty());
    while i < sorted.len()
        invariant
            0 <= i <= sorted.len(),
            all == fields_view(fields@),
            indices_valid(sorted@, fields@.len()),
            groups_view(out@) == grouped(all, sorted@.take(i as int)),
        decreases sorted.len() - i,
    {
        let x = sorted[i];
        proof {
            assert(sorted@.take(i + 1).drop_last() =~= sorted@.take(i as int));
            assert(sorted@.take(i + 1).last() == x);
            assert(sorted@[i as int] < fields@.len());
        }
        let f = &fields[x];
        let f_end = match f.offset.checked_add(f.csize) {
            Some(e) => e,
            None => u64::MAX,
        };
        let ghost before = groups_view(out@);
        let merge = if out.len() > 0 {
            let g = &out[out.len() - 1];
            let gap = if f.offset > g.end {
                f.offset - g.end
            } else {
                0
            };
            let span = if f_end > g.start {
                f_end - g.start
            } else {
                0
            };
            gap <= READ_COALESCE_MAX_GAP_BYTES && span <= READ_COALESCE_MAX_GROUP_BYTES
        } else {
            false
        };
        if merge {
            let mut g = match out.pop() {
                Some(g) => g,
                None => ReadGroup { start: 0, end: 0, members: Vec::new() },
            };
            assert(groups_view(out@) =~= before.drop_last());
            assert(g@ == before.last());
            if f_end > g.end {
                g.end = f_end;
            }
            g.members.push(x);
            assert(g@ == joined(before.last(), f@, x));
            out.push(g);
            assert(groups_view(out@) =~= before.drop_last().push(joined(before.last(), f@, x)));
        } else {
            let mut members: Vec<usize> = Vec::new();
            members.push(x);
            let g = ReadGroup { start: f.offset, end: f_end, members };
            assert(g@.members =~= seq![x]);
            out.push(g);
            assert(groups_view(out@) =~= before.push(
                ReadGroupView { start: f@.offset, end: field_end(f@), members: seq![x] },
            ));
        }
        i = i + 1;
    }
    proof {
        assert(sorted@.take(i as int) =~= sorted@);
    }
    out
}

/// The stored bytes of the fields of a group, cut out of the bytes of the
/// group; `None` where the bytes of the group do not reach that far.
pub open spec fn group_chunks(fields: Seq<FieldMetaView>, g: ReadGroupView, bytes: Seq<u8>) -> Option<
    Seq<(usize, Seq<u8>)>,
>
    decreases g.members.len(),
{
    if g.members.len() == 0 {
        Some(Seq::empty())
    } else {
        let front = ReadGroupView { members: g.members.drop_last(), ..g };
        let x = g.members.last();
        let f = fields[x as int];
        match group_chunks(fields, front, bytes) {
            None => None,
            Some(chunks) => if f.offset < g.start || f.offset - g.start + f.csize > bytes.len() {
                None
            } else {
                Some(
                    chunks.push(
                        (
                            x,
                            bytes.subrange(
                                f.offset - g.start,
                                f.offset - g.start + f.csize,
                            ),
                        ),
                    ),
                )
            },
        }
    }
}

/// The views of a list of fields with their stored bytes.
pub open spec fn stored_view(chunks: Seq<(usize, Vec<u8>)>) -> Seq<(usize, Seq<u8>)> {
    Seq::new(chunks.len(), |i: int| (chunks[i].0, chunks[i].1@))
}

/// Where the first fields cannot be cut out, neither can all.
pub proof fn lemma_group_chunks_prefix(
    fields: Seq<FieldMetaView>,
    g: ReadGroupView,
    bytes: Seq<u8>,
    k: int,
)
    requires
        0 <= k <= g.members.len(),
        group_chunks(fields, ReadGroupView { members: g.members.take(k), ..g }, bytes) is None,
    ensures
        group_chunks(fields, g, bytes) is None,
    decreases g.members.len() - k,
{
    if k < g.members.len() {
        let next = ReadGroupView { members: g.members.take(k + 1), ..g };
        assert(next.members.drop_last() =~= g.members.take(k));
        assert(ReadGroupView { members: next.members.drop_last(), ..next } == ReadGroupView {
            members: g.members.take(k),
            ..g
        });
        lemma_group_chunks_prefix(fields, g, bytes, k + 1);
    } else {
        assert(g.members.take(k) =~= g.members);
    }
}

/// Cuts the stored bytes of each field of a group out of the bytes of the
/// group, which begin at the group's start. Fails, with an I/O error, where
/// the bytes do not reach as far as a field.
pub fn split_group(fields: &Vec<FieldMeta>, group: &ReadGroup, bytes: &[u8]) -> (r: Result<
    Vec<(usize, Vec<u8>)>,
    GbfError,
>)
    requires
        indices_valid(group.members@, fields@.len()),
    ensures
        match r {
            Ok(chunks) => group_chunks(fields_view(fields@), group@, bytes@) == Some(
                stored_view(chunks@),
            ),
            Err(e) => group_chunks(fields_view(fields@), group@, bytes@) is None && e is Io,
        },
{
    let ghost all = fields_view(fields@);
    let ghost g = group@;
    let mut out: Vec<(usize, Vec<u8>)> = Vec::new();
    let mut k: usize = 0;
    proof {
        assert(stored_view(out@) =~= Seq::<(usize, Seq<u8>)>::empty());
        assert(g.members.take(0).len() == 0);
    }
    while k < group.members.len()
        invariant
            0 <= k <= group.members.len(),
            all == fields_view(fields@),
            g == group@,
            indices_valid(group.members@, fields@.len()),
            group_chunks(all, ReadGroupView { members: g.members.take(k as int), ..g }, bytes@)
                == Some(stored_view(out@)),
        decreases group.members.len() - k,
    {
        let x = group.members[k];
        let ghost next = ReadGroupView { members: g.members.take(k + 1), ..g };
        proof {
            assert(group.members@[k as int] < fields@.len());
            assert(next.members.drop_last() =~= g.members.take(k as int));
            assert(next.members.last() == x);
            assert(ReadGroupView { members: next.members.drop_last(), ..next } == ReadGroupView {
                members: g.members.take(k as int),
                ..g
            });
        }
        let f = &fields[x];
        let fits = f.offset >= group.start && f.offset - group.start <= bytes.len() as u64
            && f.csize <= bytes.len() as u64 - (f.offset - group.start);
        if !fits {
            proof {
                lemma_group_chunks_prefix(all, g, bytes@, k + 1);
            }
            return Err(GbfError::Io(String::from_str("failed to fill whole buffer")));
        }
        let rel = (f.offset - group.start) as usize;
        let len = f.csize as usize;
        let chunk = slice_to_vec(slice_subrange(bytes, rel, rel + len));
        let ghost before = stored_view(out@);
        out.push((x, chunk));
        proof {
            assert(stored_view(out@) =~= before.push((x, chunk@)));
        }
        k = k + 1;
    }
    proof {
        assert(g.members.take(k as int) =~= g.members);
    }
    Ok(out)
}

} // verus!
