//! Round trip of a container: what the writer puts into a file is what the
//! reader finds in it, as far as zlib, the JSON text and the header CRC
//! are read back as they were written.
use crate::checksum::{crc32_of, header_crc_agrees, header_crc_text, placeholder_text};
use crate::compress::{MAX_FIELD_CSIZE, MAX_FIELD_USIZE};
use crate::error::ErrorView;
use crate::header::{FieldMetaView, HeaderView};
use crate::json::json_parsed;
use crate::laws::{indexed, inflates_back, lemma_payload_round_trip, storable};
use crate::layout::{
    all_members, first_span_failure, group_chunks, group_covers, grouped, in_offset_order,
    indices_valid, lemma_grouped, payload_origin, sorted_by_offset, span_failure, field_end,
    ReadGroupView,
};
use crate::le::{lemma_u32_round_trip, u32_le};
use crate::reader::{
    assembled, finish_spec, header_failure, header_len_spec, preamble_spec, read_fields_spec,
    read_groups_spec, read_header_spec, read_spec, MAX_HEADER_LEN,
};
use crate::roundtrip::{lemma_back_part, lemma_front_part};
use crate::schema::{header_doc, header_of_text, lemma_header_doc_round_trip};
use crate::text::{hex8, lower_text, same_ignoring_case};
use crate::tree::flatten_spec;
use crate::treelaws::canonical_entries;
use crate::value::ValueView;
use crate::writer::{
    close_header, closed, file_image, header_line, lemma_close_header, lemma_planned_contiguous,
    lemma_planned_sizes, magic_seq, open_header, payload_of, planned, root_word, sealed,
    with_crc, write_spec, WriteOptions, CLOSE_ROUNDS,
};
use vstd::prelude::*;
use vstd::utf8::{encode_utf8, encode_utf8_decode_utf8, encode_utf8_valid_utf8};

verus! {

/// Where the stored bytes of each field stand in the payload: at the
/// field's offset, in the field's stored size.
pub proof fn lemma_payload_layout(named: Seq<(Seq<char>, ValueView)>, opts: WriteOptions)
    requires
        planned(named, opts) is Ok,
    ensures
        ({
            let (fields, chunks, total) = planned(named, opts)->Ok_0;
            &&& fields.len() == named.len()
            &&& chunks.len() == named.len()
            &&& payload_of(chunks).len() == total
            &&& forall|i: int|
                0 <= i < fields.len() ==> (#[trigger] fields[i]).csize == chunks[i].len()
                    && fields[i].offset + chunks[i].len() <= total && payload_of(
                    chunks,
                ).subrange(fields[i].offset as int, fields[i].offset + chunks[i].len())
                    == chunks[i]
        }),
    decreases named.len(),
{
    if named.len() > 0 {
        let front = named.drop_last();
        lemma_payload_layout(front, opts);
        lemma_planned_contiguous(named, opts);
        let (f0, c0, t0) = planned(front, opts)->Ok_0;
        let (fields, chunks, total) = planned(named, opts)->Ok_0;
        let stored = chunks.last();
        assert(chunks.drop_last() =~= c0);
        assert(payload_of(chunks) == payload_of(c0) + stored);
        lemma_back_part(payload_of(c0), stored);
        assert forall|i: int| 0 <= i < fields.len() implies (#[trigger] fields[i]).csize
            == chunks[i].len() && fields[i].offset + chunks[i].len() <= total && payload_of(
            chunks,
        ).subrange(fields[i].offset as int, fields[i].offset + chunks[i].len()) == chunks[i] by {
            if i < fields.len() - 1 {
                assert(fields[i] == f0[i]);
                assert(chunks[i] == c0[i]);
                lemma_front_part(
                    payload_of(c0),
                    stored,
                    f0[i].offset as int,
                    f0[i].offset + c0[i].len(),
                );
            } else {
                assert(fields[i].offset == t0);
            }
        }
    }
}

/// Where the parts of a file stand in it.
pub proof fn lemma_image_layout(line: Seq<char>, chunks: Seq<Seq<u8>>)
    requires
        encode_utf8(line).len() <= u32::MAX,
    ensures
        ({
            let image = file_image(line, chunks);
            let n = encode_utf8(line).len() as int;
            &&& image.len() == 12 + n + payload_of(chunks).len()
            &&& image.take(8) == magic_seq()
            &&& image.subrange(8, 12) == u32_le(n as u32)
            &&& image.subrange(12, 12 + n) == encode_utf8(line)
            &&& image.subrange(12 + n, image.len() as int) == payload_of(chunks)
        }),
{
    let n = encode_utf8(line).len() as int;
    let head1 = magic_seq() + u32_le(n as u32);
    let head2 = head1 + encode_utf8(line);
    let image = head2 + payload_of(chunks);
    assert(image == file_image(line, chunks));
    lemma_u32_round_trip(n as u32);
    lemma_back_part(magic_seq(), u32_le(n as u32));
    lemma_back_part(head1, encode_utf8(line));
    lemma_back_part(head2, payload_of(chunks));
    assert(image.take(8) =~= magic_seq());
    assert(image.subrange(8, 12) == u32_le(n as u32)) by {
        lemma_front_part(head2, payload_of(chunks), 8, 12);
        lemma_front_part(head1, encode_utf8(line), 8, 12);
    }
    assert(image.subrange(12, 12 + n) == encode_utf8(line)) by {
        lemma_front_part(head2, payload_of(chunks), 12, 12 + n);
    }
}

/// What the outside parts owe to the header of a file: the line is at
/// least two bytes and at most 64 MiB, the JSON text is read back as the
/// document that was written, and the substitution of the stored CRC makes
/// of the line what it makes of the line with eight zeros in the CRC's
/// place.
pub open spec fn header_reads_back(h: HeaderView, line: Seq<char>, pretty: bool) -> bool {
    &&& 2 <= encode_utf8(line).len() <= MAX_HEADER_LEN
    &&& json_parsed(line) == Some(header_doc(h))
    &&& placeholder_text(line) == placeholder_text(
        header_line(with_crc(h, "00000000"@), pretty),
    )
}

/// The CRC that a closed header stores agrees with the CRC of its line,
/// where the substitution of the stored CRC makes of the line what it makes
/// of the line with eight zeros in the CRC's place.
pub proof fn lemma_closed_crc_agrees(h: HeaderView, line: Seq<char>, total: nat, pretty: bool)
    requires
        closed(h, line, total, pretty),
        placeholder_text(line) == placeholder_text(header_line(with_crc(h, "00000000"@), pretty)),
    ensures
        h.header_crc32_hex == header_crc_text(line),
        header_crc_agrees(h.header_crc32_hex, header_crc_text(line)),
{
    let zero = header_line(with_crc(h, "00000000"@), pretty);
    let x = crc32_of(encode_utf8(placeholder_text(zero)));
    assert(sealed(h, pretty).header_crc32_hex == header_crc_text(zero));
    assert(h.header_crc32_hex == hex8(x));
    crate::text::lemma_hex8_trimmed(x);
    crate::text::lemma_hex8_upper(x);
}

/// The header of a file that holds a closed header is read back, where
/// [`header_reads_back`].
pub proof fn lemma_header_read_back(
    h: HeaderView,
    line: Seq<char>,
    chunks: Seq<Seq<u8>>,
    pretty: bool,
    validate: bool,
)
    requires
        closed(h, line, payload_of(chunks).len(), pretty),
        header_reads_back(h, line, pretty),
    ensures
        read_header_spec(
            file_image(line, chunks),
            file_image(line, chunks).len() as u64,
            validate,
        ) == Ok::<(HeaderView, u32, Seq<char>), ErrorView>(
            (h, encode_utf8(line).len() as u32, line),
        ),
{
    reveal(read_header_spec);
    let image = file_image(line, chunks);
    let n = encode_utf8(line).len() as int;
    lemma_image_layout(line, chunks);
    lemma_u32_round_trip(n as u32);
    encode_utf8_valid_utf8(line);
    encode_utf8_decode_utf8(line);
    lemma_header_doc_round_trip(h);
    assert(header_len_spec(image) == Ok::<u32, ErrorView>(n as u32));
    assert(preamble_spec(image) == Ok::<(u32, Seq<char>), ErrorView>((n as u32, line)));
    assert(header_of_text(line) == Some(h));
    lemma_closed_crc_agrees(h, line, payload_of(chunks).len(), pretty);
    assert(image.len() == h.file_size);
    assert(header_failure(h, line, n as u32, image.len() as u64, validate) is None);
}

/// The places `0..n` of a field table.
pub open spec fn all_places(n: nat) -> Seq<usize> {
    Seq::new(n, |i: int| i as usize)
}

/// The fields of a layout come one after the other.
pub proof fn lemma_offsets_ordered(named: Seq<(Seq<char>, ValueView)>, opts: WriteOptions)
    requires
        planned(named, opts) is Ok,
    ensures
        ({
            let (fields, chunks, total) = planned(named, opts)->Ok_0;
            forall|i: int, j: int|
                0 <= i < j < fields.len() ==> (#[trigger] fields[i]).offset + fields[i].csize <= (
                #[trigger] fields[j]).offset
        }),
    decreases named.len(),
{
    if named.len() > 0 {
        let front = named.drop_last();
        lemma_offsets_ordered(front, opts);
        lemma_payload_layout(front, opts);
        lemma_planned_contiguous(named, opts);
        let (f0, c0, t0) = planned(front, opts)->Ok_0;
        let (fields, chunks, total) = planned(named, opts)->Ok_0;
        assert forall|i: int, j: int| 0 <= i < j < fields.len() implies (
        #[trigger] fields[i]).offset + fields[i].csize <= (#[trigger] fields[j]).offset by {
            assert(fields[i] == f0[i]);
            if j < fields.len() - 1 {
                assert(fields[j] == f0[j]);
            } else {
                assert(fields[j].offset == t0);
            }
        }
    }
}

/// Fields that none has a wrong place have no first wrong place.
pub proof fn lemma_no_span_failure(
    fields: Seq<FieldMetaView>,
    wanted: Seq<usize>,
    payload_start: u64,
    file_len: u64,
)
    requires
        forall|i: int|
            0 <= i < wanted.len() ==> span_failure(
                fields[(#[trigger] wanted[i]) as int],
                payload_start,
                file_len,
            ) is None,
    ensures
        first_span_failure(fields, wanted, payload_start, file_len) is None,
    decreases wanted.len(),
{
    if wanted.len() > 0 {
        let rest = wanted.drop_first();
        assert forall|i: int| 0 <= i < rest.len() implies span_failure(
            fields[(#[trigger] rest[i]) as int],
            payload_start,
            file_len,
        ) is None by {
            assert(rest[i] == wanted[i + 1]);
        }
        lemma_no_span_failure(fields, rest, payload_start, file_len);
        assert(span_failure(fields[wanted[0] as int], payload_start, file_len) is None);
    }
}

/// No group ends behind the end of all of its fields.
pub proof fn lemma_group_ends(fields: Seq<FieldMetaView>, sorted: Seq<usize>, bound: u64)
    requires
        forall|i: int|
            0 <= i < sorted.len() ==> field_end(fields[(#[trigger] sorted[i]) as int]) <= bound,
    ensures
        forall|k: int|
            0 <= k < grouped(fields, sorted).len() ==> (#[trigger] grouped(fields, sorted)[k]).end
                <= bound,
    decreases sorted.len(),
{
    if sorted.len() > 0 {
        let front = sorted.drop_last();
        assert forall|i: int| 0 <= i < front.len() implies field_end(
            fields[(#[trigger] front[i]) as int],
        ) <= bound by {
            assert(front[i] == sorted[i]);
        }
        lemma_group_ends(fields, front, bound);
        let g = grouped(fields, front);
        let r = grouped(fields, sorted);
        assert(field_end(fields[sorted[sorted.len() - 1] as int]) <= bound);
        assert forall|k: int| 0 <= k < r.len() implies (#[trigger] r[k]).end <= bound by {
            if k < r.len() - 1 {
                assert(r[k] == g[k]);
            }
        }
    }
}

/// The stored bytes of fields with their places.
pub open spec fn placed(places: Seq<usize>, chunks: Seq<Seq<u8>>) -> Seq<(usize, Seq<u8>)> {
    Seq::new(places.len(), |i: int| (places[i], chunks[places[i] as int]))
}

/// Whether the stored bytes of every field stand in the file at the
/// field's place behind `origin`.
pub open spec fn fields_in_place(
    fields: Seq<FieldMetaView>,
    chunks: Seq<Seq<u8>>,
    image: Seq<u8>,
    origin: u64,
) -> bool {
    &&& fields.len() == chunks.len()
    &&& forall|i: int|
        0 <= i < fields.len() ==> (#[trigger] fields[i]).csize == chunks[i].len() && origin
            + fields[i].offset + fields[i].csize <= image.len() && image.len() <= u64::MAX
            && image.subrange(
            origin + fields[i].offset,
            origin + fields[i].offset + fields[i].csize,
        ) == chunks[i]
}

/// The fields of a group are cut out of the bytes of the group as they
/// stand in the file.
pub proof fn lemma_group_cut(
    fields: Seq<FieldMetaView>,
    chunks: Seq<Seq<u8>>,
    image: Seq<u8>,
    origin: u64,
    g: ReadGroupView,
)
    requires
        fields_in_place(fields, chunks, image, origin),
        g.start <= g.end,
        origin + g.end <= image.len(),
        forall|k: int|
            0 <= k < g.members.len() ==> (#[trigger] g.members[k]) < fields.len() && g.start
                <= fields[g.members[k] as int].offset && field_end(fields[g.members[k] as int])
                <= g.end,
    ensures
        group_chunks(fields, g, image.subrange(origin + g.start, origin + g.end)) == Some(
            placed(g.members, chunks),
        ),
    decreases g.members.len(),
{
    let bytes = image.subrange(origin + g.start, origin + g.end);
    if g.members.len() == 0 {
        assert(placed(g.members, chunks) =~= Seq::<(usize, Seq<u8>)>::empty());
    } else {
        let front = ReadGroupView { members: g.members.drop_last(), ..g };
        assert forall|k: int| 0 <= k < front.members.len() implies (#[trigger] front.members[k])
            < fields.len() && front.start <= fields[front.members[k] as int].offset && field_end(
            fields[front.members[k] as int],
        ) <= front.end by {
            assert(front.members[k] == g.members[k]);
        }
        lemma_group_cut(fields, chunks, image, origin, front);
        let x = g.members.last();
        assert(x == g.members[g.members.len() - 1]);
        let f = fields[x as int];
        assert(f.csize == chunks[x as int].len());
        assert(field_end(f) == f.offset + f.csize);
        let rel = f.offset - g.start;
        assert(bytes.subrange(rel, rel + f.csize) =~= image.subrange(
            origin + f.offset,
            origin + f.offset + f.csize,
        ));
        assert(placed(g.members, chunks) =~= placed(front.members, chunks).push(
            (x, chunks[x as int]),
        ));
    }
}

/// Reading fields in a row is reading the first ones, and then the rest.
pub proof fn lemma_assembled_concat(
    fields: Seq<FieldMetaView>,
    a: Seq<(usize, Seq<u8>)>,
    b: Seq<(usize, Seq<u8>)>,
    prefix: Seq<char>,
    validate: bool,
    acc: Seq<(Seq<char>, ValueView)>,
)
    ensures
        assembled(fields, a + b, prefix, validate, acc) == match assembled(
            fields,
            a,
            prefix,
            validate,
            acc,
        ) {
            Err(k) => Err(k),
            Ok(e) => assembled(fields, b, prefix, validate, e),
        },
    decreases b.len(),
{
    if b.len() == 0 {
        assert(a + b =~= a);
    } else {
        lemma_assembled_concat(fields, a, b.drop_last(), prefix, validate, acc);
        assert((a + b).drop_last() =~= a + b.drop_last());
        assert((a + b).last() == b.last());
    }
}

/// Reading the first groups of a plan is reading their fields in a row.
pub proof fn lemma_groups_read(
    fields: Seq<FieldMetaView>,
    chunks: Seq<Seq<u8>>,
    image: Seq<u8>,
    origin: u64,
    groups: Seq<ReadGroupView>,
    prefix: Seq<char>,
    validate: bool,
    k: int,
)
    requires
        fields_in_place(fields, chunks, image, origin),
        0 <= k <= groups.len(),
        forall|m: int| 0 <= m < groups.len() ==> group_covers(fields, #[trigger] groups[m]),
        forall|m: int| 0 <= m < groups.len() ==> origin + (#[trigger] groups[m]).end <= image.len(),
    ensures
        read_groups_spec(fields, groups.take(k), image, origin, prefix, validate, Seq::empty())
            == assembled(
            fields,
            placed(all_members(groups.take(k)), chunks),
            prefix,
            validate,
            Seq::empty(),
        ),
    decreases k,
{
    if k == 0 {
        assert(groups.take(0) =~= Seq::<ReadGroupView>::empty());
        assert(all_members(groups.take(0)) =~= Seq::<usize>::empty());
        assert(placed(all_members(groups.take(0)), chunks) =~= Seq::<(usize, Seq<u8>)>::empty());
    } else {
        let m = k - 1;
        lemma_groups_read(fields, chunks, image, origin, groups, prefix, validate, m);
        let g = groups[m];
        assert(groups.take(k).drop_last() =~= groups.take(m));
        assert(groups.take(k).last() == g);
        assert(group_covers(fields, g));
        lemma_group_cut(fields, chunks, image, origin, g);
        let before = all_members(groups.take(m));
        assert(all_members(groups.take(k)) == before + g.members);
        assert(placed(before + g.members, chunks) =~= placed(before, chunks) + placed(
            g.members,
            chunks,
        ));
        lemma_assembled_concat(
            fields,
            placed(before, chunks),
            placed(g.members, chunks),
            prefix,
            validate,
            Seq::empty(),
        );
    }
}

/// The places from `lo` on, `count` of them.
pub open spec fn places_from(lo: int, count: nat) -> Seq<usize> {
    Seq::new(count, |t: int| (lo + t) as usize)
}

/// Fields in a row that stand in the order of their offsets stay as they
/// are when they are sorted by offset.
pub proof fn lemma_sorted_row(fields: Seq<FieldMetaView>, lo: int, count: nat)
    requires
        0 <= lo,
        lo + count <= fields.len(),
        fields.len() <= usize::MAX,
        forall|i: int, j: int|
            0 <= i < j < fields.len() ==> (#[trigger] fields[i]).offset <= (
            #[trigger] fields[j]).offset,
    ensures
        sorted_by_offset(fields, places_from(lo, count)) == places_from(lo, count),
    decreases count,
{
    if count > 0 {
        let m = (count - 1) as nat;
        lemma_sorted_row(fields, lo, m);
        assert(places_from(lo, count).drop_last() =~= places_from(lo, m));
        assert(places_from(lo, count).last() == (lo + m) as usize);
        let front = places_from(lo, m);
        if m > 0 {
            assert(front.last() == (lo + m - 1) as usize);
            assert(fields[lo + m - 1].offset <= fields[lo + m].offset);
            assert(front.push((lo + m) as usize) =~= places_from(lo, count));
        } else {
            assert(seq![(lo + m) as usize] =~= places_from(lo, count));
        }
    } else {
        assert(places_from(lo, count) =~= Seq::<usize>::empty());
    }
}

/// The fields in a row of a file whose fields stand in the order of the
/// table, each at its place, are read as their stored bytes in a row.
pub proof fn lemma_row_read(
    h: HeaderView,
    header_len: u32,
    chunks: Seq<Seq<u8>>,
    image: Seq<u8>,
    prefix: Seq<char>,
    validate: bool,
    lo: int,
    count: nat,
)
    requires
        h.payload_start > 0,
        fields_in_place(h.fields, chunks, image, h.payload_start),
        h.fields.len() <= usize::MAX,
        image.len() <= usize::MAX,
        0 <= lo,
        lo + count <= h.fields.len(),
        forall|i: int|
            0 <= i < h.fields.len() ==> (#[trigger] h.fields[i]).usize <= MAX_FIELD_USIZE
                && h.fields[i].csize <= MAX_FIELD_CSIZE,
        forall|i: int, j: int|
            0 <= i < j < h.fields.len() ==> (#[trigger] h.fields[i]).offset <= (
            #[trigger] h.fields[j]).offset,
    ensures
        read_fields_spec(h, header_len, image, places_from(lo, count), prefix, validate)
            == assembled(
            h.fields,
            placed(places_from(lo, count), chunks),
            prefix,
            validate,
            Seq::empty(),
        ),
{
    reveal(read_fields_spec);
    reveal(span_failure);
    let fields = h.fields;
    let places = places_from(lo, count);
    let origin = payload_origin(header_len, h.payload_start);
    assert(origin == h.payload_start);
    lemma_no_span_failure(fields, places, origin, image.len() as u64);
    lemma_sorted_row(fields, lo, count);
    assert(indices_valid(places, fields.len()));
    assert(in_offset_order(fields, places));
    lemma_grouped(fields, places);
    let groups = grouped(fields, places);
    assert forall|i: int| 0 <= i < places.len() implies field_end(
        fields[(#[trigger] places[i]) as int],
    ) <= (image.len() - origin) as u64 by {
        assert(fields[lo + i].csize == chunks[lo + i].len());
    }
    lemma_group_ends(fields, places, (image.len() - origin) as u64);
    lemma_groups_read(fields, chunks, image, origin, groups, prefix, validate, groups.len() as int);
    assert(groups.take(groups.len() as int) =~= groups);
}

/// The fields of a file whose fields stand in the order of the table, each
/// at its place, are read as the stored bytes of the table in a row.
pub proof fn lemma_fields_read(
    h: HeaderView,
    header_len: u32,
    chunks: Seq<Seq<u8>>,
    image: Seq<u8>,
    prefix: Seq<char>,
    validate: bool,
)
    requires
        h.payload_start > 0,
        fields_in_place(h.fields, chunks, image, h.payload_start),
        h.fields.len() <= usize::MAX,
        image.len() <= usize::MAX,
        forall|i: int|
            0 <= i < h.fields.len() ==> (#[trigger] h.fields[i]).usize <= MAX_FIELD_USIZE
                && h.fields[i].csize <= MAX_FIELD_CSIZE,
        forall|i: int, j: int|
            0 <= i < j < h.fields.len() ==> (#[trigger] h.fields[i]).offset <= (
            #[trigger] h.fields[j]).offset,
    ensures
        read_fields_spec(h, header_len, image, all_places(h.fields.len()), prefix, validate)
            == assembled(h.fields, crate::laws::indexed(chunks), prefix, validate, Seq::empty()),
{
    lemma_row_read(h, header_len, chunks, image, prefix, validate, 0, h.fields.len());
    assert(places_from(0, h.fields.len()) =~= all_places(h.fields.len()));
    assert(placed(all_places(h.fields.len()), chunks) =~= crate::laws::indexed(chunks));
}

/// The two words for the root of a file are different words.
proof fn lemma_root_words()
    ensures
        !same_ignoring_case("struct"@, "single"@),
        same_ignoring_case("single"@, "single"@),
        "data"@.len() == 4,
        !"data"@.contains('.'),
{
    reveal_strlit("struct");
    reveal_strlit("single");
    reveal_strlit("data");
    assert(lower_text("struct"@)[1] == 't');
    assert(lower_text("single"@)[1] == 'i');
    assert(!"data"@.contains('.')) by {
        if "data"@.contains('.') {
            let i = choose|i: int| 0 <= i < "data"@.len() && "data"@[i] == '.';
            assert(i == 0 || i == 1 || i == 2 || i == 3);
        }
    }
}

/// The record that stands for a value in a file: the fields of a record,
/// and the one field `data` for a leaf.
pub open spec fn as_record(v: ValueView) -> Seq<(Seq<char>, ValueView)> {
    match v {
        ValueView::Struct(entries) => entries,
        _ => seq![("data"@, v)],
    }
}

/// Whether a value can be written and read back as it is: every leaf in it
/// is storable, and the record that stands for it is canonical.
pub open spec fn writable(v: ValueView) -> bool {
    &&& canonical_entries(as_record(v))
    &&& flatten_spec(v, Seq::empty()) matches Some(named) && named.len() <= usize::MAX && forall|
        i: int,
    |
        0 <= i < named.len() ==> storable((#[trigger] named[i]).1)
}

/// What the outside parts owe to a file that the writer made: the header
/// is read back as it was written ([`header_reads_back`]), and every field
/// that is stored as a zlib stream inflates to what was compressed.
pub open spec fn outside_reads_back(
    v: ValueView,
    opts: WriteOptions,
    created_utc: Seq<char>,
    producer_version: Seq<char>,
) -> bool {
    let named = flatten_spec(v, Seq::empty())->Some_0;
    let (fields, chunks, total) = planned(named, opts)->Ok_0;
    let (h, line) = close_header(
        open_header(root_word(v), created_utc, producer_version, fields),
        total,
        opts.pretty_header,
        CLOSE_ROUNDS as nat,
    )->Ok_0;
    header_reads_back(h, line, opts.pretty_header) && inflates_back(fields, chunks, named)
}

/// A leaf flattens as the one field `data` of a record does.
proof fn lemma_flatten_as_record(v: ValueView)
    ensures
        flatten_spec(v, Seq::empty()) == flatten_spec(
            ValueView::Struct(as_record(v)),
            Seq::empty(),
        ),
{
    lemma_root_words();
    match v {
        ValueView::Struct(entries) => {
            assert(as_record(v) == entries);
            assert(ValueView::Struct(as_record(v)) == v);
        },
        _ => {
            let e = as_record(v);
            assert(e.drop_last() =~= Seq::<(Seq<char>, ValueView)>::empty());
            assert(e.last() == ("data"@, v));
            assert(crate::tree::flatten_entries(e.drop_last(), Seq::empty()) == Some(
                Seq::<(Seq<char>, ValueView)>::empty(),
            ));
            assert(crate::tree::join_path(Seq::empty(), "data"@) == "data"@);
            let one = seq![("data"@, v)];
            assert(flatten_spec(v, Seq::empty()) == Some(one));
            assert(flatten_spec(v, "data"@) == Some(one));
            assert(Seq::<(Seq<char>, ValueView)>::empty() + one =~= one);
            assert(crate::tree::flatten_entries(e, Seq::empty()) == Some(one));
            assert(flatten_spec(ValueView::Struct(e), Seq::empty())
                == crate::tree::flatten_entries(e, Seq::empty()));
        },
    }
}

/// Round trip of a container: a writable value is what reading gives, with
/// and without validation, from the file that writing it gives, where the
/// file fits in memory and the outside parts read back what they wrote
/// ([`outside_reads_back`]).
#[verifier::rlimit(60)]
pub proof fn lemma_container_round_trip(
    v: ValueView,
    opts: WriteOptions,
    created_utc: Seq<char>,
    producer_version: Seq<char>,
    validate: bool,
)
    requires
        writable(v),
        write_spec(v, opts, created_utc, producer_version) matches Ok(image) && image.len()
            <= usize::MAX,
    ensures
        outside_reads_back(v, opts, created_utc, producer_version) ==> read_spec(
            write_spec(v, opts, created_utc, producer_version)->Ok_0,
            validate,
        ) == Ok::<ValueView, ErrorView>(v),
{
    if outside_reads_back(v, opts, created_utc, producer_version) {
        let entries = as_record(v);
        let named = flatten_spec(v, Seq::empty())->Some_0;
        let (fields, chunks, total) = planned(named, opts)->Ok_0;
        let opened = open_header(root_word(v), created_utc, producer_version, fields);
        let (h, line) = close_header(opened, total, opts.pretty_header, CLOSE_ROUNDS as nat)->Ok_0;
        let image = file_image(line, chunks);
        let n = encode_utf8(line).len() as int;
        lemma_flatten_as_record(v);
        lemma_root_words();
        lemma_close_header(opened, total, opts.pretty_header, CLOSE_ROUNDS as nat);
        assert(h.fields == fields);
        assert(h.root == root_word(v));
        lemma_payload_layout(named, opts);
        lemma_offsets_ordered(named, opts);
        lemma_planned_sizes(named, opts);
        lemma_image_layout(line, chunks);
        lemma_header_read_back(h, line, chunks, opts.pretty_header, validate);
        let payload = payload_of(chunks);
        assert forall|i: int| 0 <= i < fields.len() implies (#[trigger] fields[i]).csize
            == chunks[i].len() && h.payload_start + fields[i].offset + fields[i].csize
            <= image.len() && image.len() <= u64::MAX && image.subrange(
            h.payload_start + fields[i].offset,
            h.payload_start + fields[i].offset + fields[i].csize,
        ) == chunks[i] by {
            assert(image.subrange(12 + n, image.len() as int).subrange(
                fields[i].offset as int,
                fields[i].offset + fields[i].csize,
            ) =~= image.subrange(
                12 + n + fields[i].offset,
                12 + n + fields[i].offset + fields[i].csize,
            ));
        }
        assert forall|i: int| 0 <= i < fields.len() implies (#[trigger] fields[i]).usize
            <= MAX_FIELD_USIZE && fields[i].csize <= MAX_FIELD_CSIZE by {
            crate::laws::lemma_planned_at(named, opts, i);
            assert(storable(named[i].1));
        }
        assert forall|i: int, j: int| 0 <= i < j < fields.len() implies (
        #[trigger] fields[i]).offset <= (#[trigger] fields[j]).offset by {
            assert(fields[i].offset + fields[i].csize <= fields[j].offset);
        }
        lemma_fields_read(h, n as u32, chunks, image, Seq::empty(), validate);
        lemma_payload_round_trip(entries, opts, validate);
        assert(all_places(fields.len()) =~= Seq::new(fields.len(), |i: int| i as usize));
        reveal(finish_spec);
        match v {
            ValueView::Struct(_) => {},
            _ => {
                assert(entries[0] == ("data"@, v));
            },
        }
    }
}

/// Path equivalence of a container: reading a leaf by its path from the
/// file that writing a record gives is the value at that path in the
/// record, where the path is not changed by trimming, the file fits in
/// memory and the outside parts read back what they wrote
/// ([`outside_reads_back`]).
#[verifier::rlimit(60)]
pub proof fn lemma_leaf_read_back(
    entries: Seq<(Seq<char>, ValueView)>,
    opts: WriteOptions,
    created_utc: Seq<char>,
    producer_version: Seq<char>,
    validate: bool,
    i: int,
)
    requires
        writable(ValueView::Struct(entries)),
        write_spec(ValueView::Struct(entries), opts, created_utc, producer_version) matches Ok(
            image,
        ) && image.len() <= usize::MAX,
        0 <= i < flatten_spec(ValueView::Struct(entries), Seq::empty())->Some_0.len(),
    ensures
        ({
            let v = ValueView::Struct(entries);
            let path = flatten_spec(v, Seq::empty())->Some_0[i].0;
            let leaf = flatten_spec(v, Seq::empty())->Some_0[i].1;
            let image = write_spec(v, opts, created_utc, producer_version)->Ok_0;
            outside_reads_back(v, opts, created_utc, producer_version) && crate::text::trimmed(
                path,
            ) == path ==> crate::tree::value_at(v, path) == Some(leaf)
                && crate::reader::read_var_spec(image, path, validate) == Ok::<
                ValueView,
                ErrorView,
            >(leaf)
        }),
{
    let v = ValueView::Struct(entries);
    let named = flatten_spec(v, Seq::empty())->Some_0;
    let path = named[i].0;
    let leaf = named[i].1;
    if outside_reads_back(v, opts, created_utc, producer_version) && crate::text::trimmed(path)
        == path {
        let (fields, chunks, total) = planned(named, opts)->Ok_0;
        let opened = open_header(root_word(v), created_utc, producer_version, fields);
        let (h, line) = close_header(opened, total, opts.pretty_header, CLOSE_ROUNDS as nat)->Ok_0;
        let image = file_image(line, chunks);
        let n = encode_utf8(line).len() as int;
        lemma_close_header(opened, total, opts.pretty_header, CLOSE_ROUNDS as nat);
        assert(h.fields == fields);
        lemma_payload_layout(named, opts);
        lemma_planned_sizes(named, opts);
        lemma_image_layout(line, chunks);
        lemma_header_read_back(h, line, chunks, opts.pretty_header, validate);
        crate::treelaws::lemma_leaves_at_their_paths(entries);
        crate::treelaws::lemma_flatten_entries(entries, Seq::empty());
        assert(path.len() > 0);
        crate::laws::lemma_planned_at(named, opts, i);
        assert(fields[i].name == path);
        // the field is the first, and so the one, of its name
        crate::layout::lemma_first_named(fields, path);
        let first = crate::layout::first_named(fields, path);
        assert(first <= i) by {
            if first > i {
                assert(fields[i].name != path);
            }
        }
        if first < i {
            crate::laws::lemma_planned_at(named, opts, first);
            crate::treelaws::lemma_names_distinct(entries, first, i);
        }
        assert(first == i);
        reveal(crate::layout::selected);
        reveal(span_failure);
        let f = fields[i];
        let origin = payload_origin(n as u32, h.payload_start);
        assert(origin == 12 + n);
        assert(f.csize == chunks[i].len());
        assert(storable(leaf));
        assert(image.subrange(origin + f.offset, origin + f.offset + f.csize) =~= payload_of(
            chunks,
        ).subrange(f.offset as int, f.offset + f.csize)) by {
            assert(image.subrange(12 + n, image.len() as int).subrange(
                f.offset as int,
                f.offset + f.csize,
            ) =~= image.subrange(12 + n + f.offset, 12 + n + f.offset + f.csize));
        }
        crate::laws::lemma_field_round_trip(path, leaf, opts, f.offset, validate);
        let s = crate::writer::stored_for(leaf, opts)->Some_0;
        assert(crate::compress::is_zlib(f) ==> crate::compress::zlib_decompress_spec(
            chunks[i],
            crate::compress::field_cap(f),
        ) == Some(crate::leaf::leaf_bytes(leaf)));
    }
}

/// The fields whose names begin with a prefix are a row of the table where
/// the names in that row, and no others, begin with it.
pub proof fn lemma_below_is_row(
    fields: Seq<FieldMetaView>,
    prefix: Seq<char>,
    lo: int,
    count: nat,
    n: int,
)
    requires
        0 <= lo,
        lo + count <= fields.len(),
        fields.len() <= usize::MAX,
        0 <= n <= fields.len(),
        forall|i: int|
            0 <= i < fields.len() ==> (prefix.is_prefix_of((#[trigger] fields[i]).name) <==> lo
                <= i < lo + count),
    ensures
        crate::layout::fields_below(fields.take(n), prefix) == places_from(
            lo,
            if n <= lo {
                0nat
            } else if n <= lo + count {
                (n - lo) as nat
            } else {
                count
            },
        ),
    decreases n,
{
    let part = fields.take(n);
    if n == 0 {
        assert(places_from(lo, 0) =~= Seq::<usize>::empty());
    } else {
        lemma_below_is_row(fields, prefix, lo, count, n - 1);
        assert(part.drop_last() =~= fields.take(n - 1));
        assert(part.last() == fields[n - 1]);
        if lo <= n - 1 < lo + count {
            assert(places_from(lo, (n - 1 - lo) as nat).push((n - 1) as usize) =~= places_from(
                lo,
                (n - lo) as nat,
            ));
        }
    }
}

/// The first fields of the row of a record, read back below the path of
/// the record, are its first leaves put back at their paths.
pub proof fn lemma_row_is_rebuilt(
    named: Seq<(Seq<char>, ValueView)>,
    bare: Seq<(Seq<char>, ValueView)>,
    path: Seq<char>,
    lo: int,
    opts: WriteOptions,
    validate: bool,
    j: int,
)
    requires
        planned(named, opts) is Ok,
        named.len() <= usize::MAX,
        0 <= lo,
        lo + bare.len() <= named.len(),
        forall|t: int|
            0 <= t < bare.len() ==> (#[trigger] named[lo + t]).1 == bare[t].1 && named[lo + t].0
                == path + seq!['.'] + bare[t].0,
        crate::treelaws::rebuilt(bare, Seq::empty()) is Some,
        forall|i: int| 0 <= i < named.len() ==> storable((#[trigger] named[i]).1),
        forall|t: int|
            0 <= t < bare.len() ==> crate::tree::segments_named(
                crate::tree::split_path((#[trigger] bare[t]).0),
            ),
        inflates_back(planned(named, opts)->Ok_0.0, planned(named, opts)->Ok_0.1, named),
        0 <= j <= bare.len(),
    ensures
        assembled(
            planned(named, opts)->Ok_0.0,
            placed(places_from(lo, bare.len()), planned(named, opts)->Ok_0.1).take(j),
            path + seq!['.'],
            validate,
            Seq::empty(),
        ) == Ok::<Seq<(Seq<char>, ValueView)>, ErrorView>(
            crate::treelaws::rebuilt(bare.take(j), Seq::empty())->Some_0,
        ),
    decreases j,
{
    let (fields, chunks, total) = planned(named, opts)->Ok_0;
    let list = placed(places_from(lo, bare.len()), chunks);
    let prefix = path + seq!['.'];
    crate::laws::lemma_rebuilt_prefix(bare, Seq::empty(), j);
    if j > 0 {
        let t = j - 1;
        let i = lo + t;
        lemma_row_is_rebuilt(named, bare, path, lo, opts, validate, t);
        crate::laws::lemma_rebuilt_prefix(bare, Seq::empty(), t);
        crate::laws::lemma_planned_at(named, opts, i);
        assert(list.take(j).drop_last() =~= list.take(t));
        assert(list.take(j).last() == (i as usize, chunks[i]));
        assert(bare.take(j).drop_last() =~= bare.take(t));
        assert(bare.take(j).last() == bare[t]);
        crate::laws::lemma_field_round_trip(
            named[i].0,
            named[i].1,
            opts,
            fields[i].offset,
            validate,
        );
        let s = crate::writer::stored_for(named[i].1, opts)->Some_0;
        assert(crate::compress::is_zlib(fields[i]) ==> crate::compress::zlib_decompress_spec(
            chunks[i],
            crate::compress::field_cap(fields[i]),
        ) == Some(crate::leaf::leaf_bytes(named[i].1)));
        assert(crate::reader::decode_field_spec(fields[i], chunks[i], validate) == Ok::<
            ValueView,
            ErrorView,
        >(bare[t].1));
        let name = fields[i].name;
        assert(name == prefix + bare[t].0);
        assert(prefix.is_prefix_of(name)) by {
            assert(prefix =~= name.subrange(0, prefix.len() as int));
        }
        assert(name.skip(prefix.len() as int) =~= bare[t].0);
    }
}

/// The segments of the path that segments give are those segments.
pub proof fn lemma_join_all_parts(prefix: Seq<char>, parts: Seq<Seq<char>>)
    requires
        crate::subtree::parts_plain(parts),
    ensures
        crate::treelaws::prefix_parts(crate::subtree::join_all(prefix, parts))
            == crate::treelaws::prefix_parts(prefix) + parts,
    decreases parts.len(),
{
    if parts.len() > 0 {
        let next = crate::tree::join_path(prefix, parts[0]);
        let rest = parts.drop_first();
        assert(crate::treelaws::key_plain(parts[0]));
        crate::treelaws::lemma_join_parts(prefix, parts[0]);
        assert forall|t: int| 0 <= t < rest.len() implies crate::treelaws::key_plain(
            #[trigger] rest[t],
        ) by {
            assert(rest[t] == parts[t + 1]);
        }
        lemma_join_all_parts(next, rest);
        assert(crate::treelaws::prefix_parts(prefix).push(parts[0]) + rest
            =~= crate::treelaws::prefix_parts(prefix) + parts);
    } else {
        assert(crate::treelaws::prefix_parts(prefix) + parts =~= crate::treelaws::prefix_parts(
            prefix,
        ));
    }
}

/// Reading below a path: reading the path of a record from the file that
/// writing a record gives is the record at that path, where the path is
/// not changed by trimming, the file fits in memory and the outside parts
/// read back what they wrote ([`outside_reads_back`]).
#[verifier::rlimit(60)]
pub proof fn lemma_subtree_read_back(
    entries: Seq<(Seq<char>, ValueView)>,
    opts: WriteOptions,
    created_utc: Seq<char>,
    producer_version: Seq<char>,
    validate: bool,
    parts: Seq<Seq<char>>,
    sub: Seq<(Seq<char>, ValueView)>,
)
    requires
        writable(ValueView::Struct(entries)),
        write_spec(ValueView::Struct(entries), opts, created_utc, producer_version) matches Ok(
            image,
        ) && image.len() <= usize::MAX,
        parts.len() > 0,
        crate::subtree::parts_plain(parts),
        crate::tree::walk(ValueView::Struct(entries), parts) == Some(ValueView::Struct(sub)),
    ensures
        ({
            let v = ValueView::Struct(entries);
            let path = crate::subtree::join_all(Seq::empty(), parts);
            let image = write_spec(v, opts, created_utc, producer_version)->Ok_0;
            outside_reads_back(v, opts, created_utc, producer_version) && crate::text::trimmed(
                path,
            ) == path ==> crate::tree::value_at(v, path) == Some(ValueView::Struct(sub))
                && crate::reader::read_var_spec(image, path, validate) == Ok::<
                ValueView,
                ErrorView,
            >(ValueView::Struct(sub))
        }),
{
    let v = ValueView::Struct(entries);
    let path = crate::subtree::join_all(Seq::empty(), parts);
    let named = flatten_spec(v, Seq::empty())->Some_0;
    crate::subtree::lemma_block(entries, Seq::empty(), parts, sub);
    lemma_join_all_parts(Seq::empty(), parts);
    assert(Seq::<Seq<char>>::empty() + parts =~= parts);
    assert(crate::tree::split_path(path) == parts);
    if outside_reads_back(v, opts, created_utc, producer_version) && crate::text::trimmed(path)
        == path {
        let (fields, chunks, total) = planned(named, opts)->Ok_0;
        let opened = open_header(root_word(v), created_utc, producer_version, fields);
        let (h, line) = close_header(opened, total, opts.pretty_header, CLOSE_ROUNDS as nat)->Ok_0;
        let image = file_image(line, chunks);
        let n = encode_utf8(line).len() as int;
        lemma_close_header(opened, total, opts.pretty_header, CLOSE_ROUNDS as nat);
        assert(h.fields == fields);
        lemma_payload_layout(named, opts);
        lemma_offsets_ordered(named, opts);
        lemma_planned_sizes(named, opts);
        lemma_image_layout(line, chunks);
        lemma_header_read_back(h, line, chunks, opts.pretty_header, validate);
        // the leaves of the record at the path, below the path and at the top
        let block = crate::tree::flatten_entries(sub, path)->Some_0;
        let lo = crate::subtree::block_start(entries, Seq::empty(), parts);
        crate::subtree::lemma_entries_prefixed_top(sub, path);
        let bare = crate::tree::flatten_entries(sub, Seq::empty())->Some_0;
        crate::treelaws::lemma_tree_round_trip(sub);
        crate::treelaws::lemma_parts_exist(sub);
        crate::treelaws::lemma_flatten_entries(sub, Seq::empty());
        assert(bare.len() > 0);
        let prefix = path + seq!['.'];
        assert forall|t: int| 0 <= t < bare.len() implies (#[trigger] named[lo + t]).1
            == bare[t].1 && named[lo + t].0 == path + seq!['.'] + bare[t].0 by {
            assert(named.subrange(lo, lo + block.len())[t] == named[lo + t]);
            assert(block[t].0 == crate::subtree::dotted(path, bare[t].0));
        }
        // no field has the path as its name
        assert forall|i: int| 0 <= i < fields.len() implies (#[trigger] fields[i]).name
            != path by {
            crate::laws::lemma_planned_at(named, opts, i);
            assert(named[i].0 != path);
        }
        crate::layout::lemma_first_named(fields, path);
        let first = crate::layout::first_named(fields, path);
        assert(first == fields.len()) by {
            if first < fields.len() {
                assert(fields[first].name == path);
            }
        }
        // the fields below the path are the row of the record
        assert forall|i: int| 0 <= i < fields.len() implies (prefix.is_prefix_of(
            (#[trigger] fields[i]).name,
        ) <==> lo <= i < lo + bare.len()) by {
            crate::laws::lemma_planned_at(named, opts, i);
            if lo <= i < lo + bare.len() {
                let t = i - lo;
                assert(named[lo + t].0 == prefix + bare[t].0);
                assert(prefix =~= (prefix + bare[t].0).subrange(0, prefix.len() as int));
            } else {
                assert(!crate::subtree::lies_below(path, named[i].0));
            }
        }
        lemma_below_is_row(fields, prefix, lo, bare.len(), fields.len() as int);
        assert(fields.take(fields.len() as int) =~= fields);
        let below = crate::layout::fields_below(fields, prefix);
        assert(below == places_from(lo, bare.len()));
        reveal(crate::layout::selected);
        // reading the row gives the record
        assert forall|i: int| 0 <= i < fields.len() implies (#[trigger] fields[i]).csize
            == chunks[i].len() && h.payload_start + fields[i].offset + fields[i].csize
            <= image.len() && image.len() <= u64::MAX && image.subrange(
            h.payload_start + fields[i].offset,
            h.payload_start + fields[i].offset + fields[i].csize,
        ) == chunks[i] by {
            assert(image.subrange(12 + n, image.len() as int).subrange(
                fields[i].offset as int,
                fields[i].offset + fields[i].csize,
            ) =~= image.subrange(
                12 + n + fields[i].offset,
                12 + n + fields[i].offset + fields[i].csize,
            ));
        }
        assert forall|i: int| 0 <= i < fields.len() implies (#[trigger] fields[i]).usize
            <= MAX_FIELD_USIZE && fields[i].csize <= MAX_FIELD_CSIZE by {
            crate::laws::lemma_planned_at(named, opts, i);
            assert(storable(named[i].1));
        }
        assert forall|i: int, j: int| 0 <= i < j < fields.len() implies (
        #[trigger] fields[i]).offset <= (#[trigger] fields[j]).offset by {
            assert(fields[i].offset + fields[i].csize <= fields[j].offset);
        }
        lemma_row_read(h, n as u32, chunks, image, prefix, validate, lo, bare.len());
        lemma_row_is_rebuilt(named, bare, path, lo, opts, validate, bare.len() as int);
        let list = placed(places_from(lo, bare.len()), chunks);
        assert(list.take(bare.len() as int) =~= list);
        assert(bare.take(bare.len() as int) =~= bare);
    }
}

} // verus!
