//! Round trip of the payload: the field table and the stored bytes that
//! the writer lays out for a record are read back as that record.
use crate::checksum::crc32_of;
use crate::compress::{
    field_cap, field_raw_spec, is_zlib, raw_check, zlib_decompress_spec,
    MAX_FIELD_USIZE,
};
use crate::error::ErrorView;
use crate::header::FieldMetaView;
use crate::leaf::{encode_failure, leaf_bytes};
use crate::reader::{assembled, decode_field_spec};
use crate::roundtrip::{count_fits, lemma_leaf_view_round_trip, texts_told_apart};
use crate::text::{lower_text, same_ignoring_case};
use crate::tree::{flatten_spec, segments_named, split_path};
use crate::treelaws::{canonical_entries, lemma_tree_round_trip, rebuilt};
use crate::value::ValueView;
use crate::writer::{field_for, planned, stored_for, WriteOptions};
use vstd::prelude::*;

verus! {

/// Whether a leaf can be stored and read back as it is: it can be encoded,
/// its optional texts are absent or not empty, its elements can be counted
/// in `usize`, and its bytes are at most 16 GiB.
pub open spec fn storable(v: ValueView) -> bool {
    &&& encode_failure(v) is None
    &&& texts_told_apart(v)
    &&& count_fits(v)
    &&& leaf_bytes(v).len() <= MAX_FIELD_USIZE
}

/// The two compression tags are different words.
proof fn lemma_tag_words()
    ensures
        !same_ignoring_case("none"@, "zlib"@),
        same_ignoring_case("zlib"@, "zlib"@),
{
    reveal_strlit("none");
    reveal_strlit("zlib");
    assert(lower_text("none"@)[0] == 'n');
    assert(lower_text("zlib"@)[0] == 'z');
}

/// Round trip of one field: the description and the stored bytes that the
/// writer makes for a storable leaf are read back as that leaf, with and
/// without validation, where the stored bytes are the raw bytes or a
/// zlib stream that inflates to them.
pub proof fn lemma_field_round_trip(
    name: Seq<char>,
    v: ValueView,
    opts: WriteOptions,
    offset: u64,
    validate: bool,
)
    requires
        storable(v),
        stored_for(v, opts) is Some,
    ensures
        ({
            let (stored, zlib) = stored_for(v, opts)->Some_0;
            let f = field_for(name, v, opts, offset, stored, zlib);
            (zlib ==> zlib_decompress_spec(stored, field_cap(f)) == Some(leaf_bytes(v)))
                ==> decode_field_spec(f, stored, validate) == Ok::<ValueView, ErrorView>(v)
        }),
{
    reveal(decode_field_spec);
    reveal(field_raw_spec);
    lemma_leaf_view_round_trip(v);
    lemma_tag_words();
    let (stored, zlib) = stored_for(v, opts)->Some_0;
    let f = field_for(name, v, opts, offset, stored, zlib);
    let raw = leaf_bytes(v);
    assert(is_zlib(f) == zlib);
    assert(f.usize == raw.len());
    assert(raw_check(f, raw, crc32_of(raw), validate) is None);
    if !zlib {
        assert(stored == raw);
    }
}

/// The stored bytes of the fields with their places in the field table.
pub open spec fn indexed(chunks: Seq<Seq<u8>>) -> Seq<(usize, Seq<u8>)> {
    Seq::new(chunks.len(), |i: int| (i as usize, chunks[i]))
}

/// Whether every field that is tagged as a zlib stream inflates to the
/// bytes of its leaf.
pub open spec fn inflates_back(
    fields: Seq<FieldMetaView>,
    chunks: Seq<Seq<u8>>,
    named: Seq<(Seq<char>, ValueView)>,
) -> bool {
    forall|i: int|
        0 <= i < fields.len() ==> (is_zlib(#[trigger] fields[i]) ==> zlib_decompress_spec(
            chunks[i],
            field_cap(fields[i]),
        ) == Some(leaf_bytes(named[i].1)))
}

/// What a layout holds for each leaf: the leaf can be encoded and stored,
/// its stored bytes are those of [`stored_for`], and its description is
/// that of [`field_for`].
pub proof fn lemma_planned_at(named: Seq<(Seq<char>, ValueView)>, opts: WriteOptions, i: int)
    requires
        planned(named, opts) is Ok,
        0 <= i < named.len(),
    ensures
        ({
            let (fields, chunks, total) = planned(named, opts)->Ok_0;
            &&& fields.len() == named.len()
            &&& chunks.len() == named.len()
            &&& encode_failure(named[i].1) is None
            &&& stored_for(named[i].1, opts) matches Some(s) && chunks[i] == s.0 && fields[i]
                == field_for(named[i].0, named[i].1, opts, fields[i].offset, s.0, s.1)
        }),
    decreases named.len(),
{
    let front = named.drop_last();
    crate::writer::lemma_planned_contiguous(named, opts);
    let (f0, c0, t0) = planned(front, opts)->Ok_0;
    let (fields, chunks, total) = planned(named, opts)->Ok_0;
    if i < named.len() - 1 {
        lemma_planned_at(front, opts, i);
        assert(fields[i] == f0[i]);
        assert(chunks[i] == c0[i]);
        assert(front[i] == named[i]);
    }
}

/// Where the first leaves cannot be put back, neither can all.
pub proof fn lemma_rebuilt_prefix(
    named: Seq<(Seq<char>, ValueView)>,
    acc: Seq<(Seq<char>, ValueView)>,
    i: int,
)
    requires
        0 <= i <= named.len(),
        rebuilt(named, acc) is Some,
    ensures
        rebuilt(named.take(i), acc) is Some,
    decreases named.len() - i,
{
    if i < named.len() {
        lemma_rebuilt_prefix(named, acc, i + 1);
        assert(named.take(i + 1).drop_last() =~= named.take(i));
    } else {
        assert(named.take(i) =~= named);
    }
}

/// The first fields of a layout, read back, are the first leaves put back
/// at their paths.
pub proof fn lemma_assembled_prefix_is_rebuilt(
    named: Seq<(Seq<char>, ValueView)>,
    opts: WriteOptions,
    validate: bool,
    j: int,
)
    requires
        planned(named, opts) is Ok,
        named.len() <= usize::MAX,
        rebuilt(named, Seq::empty()) is Some,
        forall|i: int| 0 <= i < named.len() ==> storable((#[trigger] named[i]).1),
        forall|i: int| 0 <= i < named.len() ==> segments_named(split_path((#[trigger] named[i]).0)),
        inflates_back(planned(named, opts)->Ok_0.0, planned(named, opts)->Ok_0.1, named),
        0 <= j <= named.len(),
    ensures
        assembled(
            planned(named, opts)->Ok_0.0,
            indexed(planned(named, opts)->Ok_0.1).take(j),
            Seq::empty(),
            validate,
            Seq::empty(),
        ) == Ok::<Seq<(Seq<char>, ValueView)>, ErrorView>(
            rebuilt(named.take(j), Seq::empty())->Some_0,
        ),
    decreases j,
{
    let (fields, chunks, total) = planned(named, opts)->Ok_0;
    let list = indexed(chunks);
    lemma_rebuilt_prefix(named, Seq::empty(), j);
    if j > 0 {
        let i = j - 1;
        lemma_assembled_prefix_is_rebuilt(named, opts, validate, i);
        lemma_rebuilt_prefix(named, Seq::empty(), i);
        lemma_planned_at(named, opts, i);
        assert(list.take(j).drop_last() =~= list.take(i));
        assert(list.take(j).last() == (i as usize, chunks[i]));
        assert(named.take(j).drop_last() =~= named.take(i));
        assert(named.take(j).last() == named[i]);
        let s = stored_for(named[i].1, opts)->Some_0;
        lemma_field_round_trip(named[i].0, named[i].1, opts, fields[i].offset, validate);
        assert(is_zlib(fields[i]) == s.1) by {
            lemma_tag_words();
        }
        assert(decode_field_spec(fields[i], chunks[i], validate) == Ok::<ValueView, ErrorView>(
            named[i].1,
        ));
        let name = fields[i].name;
        assert(name == named[i].0);
        assert(name.skip(0) =~= name);
        assert(Seq::<char>::empty().is_prefix_of(name));
    }
}

/// Round trip of the payload: for a canonical record whose leaves are all
/// storable, reading back the fields that the writer lays out, in their
/// order, gives the record, with and without validation, where every field
/// that is stored as a zlib stream inflates to what was compressed.
pub proof fn lemma_payload_round_trip(
    entries: Seq<(Seq<char>, ValueView)>,
    opts: WriteOptions,
    validate: bool,
)
    requires
        canonical_entries(entries),
        flatten_spec(ValueView::Struct(entries), Seq::empty()) matches Some(named) && named.len()
            <= usize::MAX && planned(named, opts) is Ok && forall|i: int|
            0 <= i < named.len() ==> storable((#[trigger] named[i]).1),
    ensures
        ({
            let named = flatten_spec(ValueView::Struct(entries), Seq::empty())->Some_0;
            let (fields, chunks, total) = planned(named, opts)->Ok_0;
            inflates_back(fields, chunks, named) ==> assembled(
                fields,
                indexed(chunks),
                Seq::empty(),
                validate,
                Seq::empty(),
            ) == Ok::<Seq<(Seq<char>, ValueView)>, ErrorView>(entries)
        }),
{
    let named = flatten_spec(ValueView::Struct(entries), Seq::empty())->Some_0;
    let (fields, chunks, total) = planned(named, opts)->Ok_0;
    lemma_tree_round_trip(entries);
    crate::writer::lemma_planned_contiguous(named, opts);
    if inflates_back(fields, chunks, named) {
        lemma_assembled_prefix_is_rebuilt(named, opts, validate, named.len() as int);
        assert(indexed(chunks).take(named.len() as int) =~= indexed(chunks));
        assert(named.take(named.len() as int) =~= named);
    }
}

/// Path equivalence of the payload: each field that the writer lays out
/// for a canonical record with storable leaves is named by a dotted path,
/// and its stored bytes are read back as the value at that path in the
/// record, where a field that is stored as a zlib stream inflates to what
/// was compressed.
pub proof fn lemma_fields_hold_leaves(
    entries: Seq<(Seq<char>, ValueView)>,
    opts: WriteOptions,
    validate: bool,
    i: int,
)
    requires
        canonical_entries(entries),
        flatten_spec(ValueView::Struct(entries), Seq::empty()) matches Some(named) && planned(
            named,
            opts,
        ) is Ok && 0 <= i < named.len() && storable(named[i].1),
    ensures
        ({
            let named = flatten_spec(ValueView::Struct(entries), Seq::empty())->Some_0;
            let (fields, chunks, total) = planned(named, opts)->Ok_0;
            (is_zlib(fields[i]) ==> zlib_decompress_spec(chunks[i], field_cap(fields[i])) == Some(
                leaf_bytes(named[i].1),
            )) ==> crate::tree::value_at(ValueView::Struct(entries), fields[i].name) == Some(
                named[i].1,
            ) && decode_field_spec(fields[i], chunks[i], validate) == Ok::<ValueView, ErrorView>(
                named[i].1,
            )
        }),
{
    let named = flatten_spec(ValueView::Struct(entries), Seq::empty())->Some_0;
    let (fields, chunks, total) = planned(named, opts)->Ok_0;
    crate::treelaws::lemma_leaves_at_their_paths(entries);
    lemma_planned_at(named, opts, i);
    lemma_field_round_trip(named[i].0, named[i].1, opts, fields[i].offset, validate);
    lemma_tag_words();
    let s = stored_for(named[i].1, opts)->Some_0;
    assert(is_zlib(fields[i]) == s.1);
}

} // verus!
