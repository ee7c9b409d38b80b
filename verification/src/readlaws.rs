//! What the errors of a read say: an error that carries a field's name
//! carries the numbers of a field of that name in the header's table, and
//! an error about the header carries what the header states.
use crate::checksum::header_crc_text;
use crate::compress::field_raw_spec;
use crate::decode::decode_leaf_spec;
use crate::error::ErrorView;
use crate::header::{FieldMetaView, HeaderView};
use crate::layout::{
    first_span_failure, group_chunks, group_covers, grouped, indices_valid, lemma_grouped,
    lemma_sorted_by_offset, payload_origin, selected, sorted_by_offset, span_failure,
    ReadGroupView,
};
use crate::reader::{
    assembled, decode_field_spec, lemma_chunk_indices, preamble_spec, read_fields_spec,
    read_groups_spec, read_header_spec, read_spec, read_var_spec,
};
use crate::schema::header_of_text;
use crate::text::{trimmed, upper_text};
use crate::value::ValueView;
use vstd::prelude::*;

verus! {

/// Whether an error is one that reading the field `f` can end with, and
/// says of the field what the table says: its name, and with it the place
/// of a field out of bounds, or the declared size or the stored CRC that
/// the bytes did not have.
pub open spec fn belongs_to(e: ErrorView, f: FieldMetaView) -> bool {
    match e {
        ErrorView::FieldOutOfBounds { name, offset, csize, payload_len } => name == f.name
            && offset == f.offset && csize == f.csize,
        ErrorView::DecompressionFailed { name } => name == f.name,
        ErrorView::FieldSizeMismatch { name, expected, got } => name == f.name && expected
            == f.usize && got != expected,
        ErrorView::FieldCrcMismatch { name, expected, got } => name == f.name && expected
            == f.crc32 && got != expected,
        _ => false,
    }
}

/// Whether an error is one that reading fields of a table can end with: an
/// I/O, format or unsupported error, or an error that belongs to a field
/// of the table.
pub open spec fn of_table(e: ErrorView, fields: Seq<FieldMetaView>) -> bool {
    e is Io || e is Format || e is Unsupported || exists|i: int|
        0 <= i < fields.len() && belongs_to(e, #[trigger] fields[i])
}

/// The error of decoding a field is a format or unsupported error, or
/// belongs to the field.
pub proof fn lemma_field_error(f: FieldMetaView, stored: Seq<u8>, validate: bool)
    ensures
        decode_field_spec(f, stored, validate) matches Err(e) ==> e is Format || e is Unsupported
            || belongs_to(e, f),
{
    reveal(decode_field_spec);
    reveal(field_raw_spec);
    reveal(decode_leaf_spec);
}

/// The error of the place of a field is a format or unsupported error, or
/// belongs to the field.
pub proof fn lemma_span_error(f: FieldMetaView, payload_start: u64, file_len: u64)
    ensures
        span_failure(f, payload_start, file_len) matches Some(e) ==> e is Format
            || e is Unsupported || belongs_to(e, f),
{
    reveal(span_failure);
}

/// The error of assembling fields is one of the table.
pub proof fn lemma_assembled_errors(
    fields: Seq<FieldMetaView>,
    chunks: Seq<(usize, Seq<u8>)>,
    prefix: Seq<char>,
    validate: bool,
    acc: Seq<(Seq<char>, ValueView)>,
)
    requires
        forall|k: int| 0 <= k < chunks.len() ==> (#[trigger] chunks[k]).0 < fields.len(),
    ensures
        assembled(fields, chunks, prefix, validate, acc) matches Err(e) ==> of_table(e, fields),
    decreases chunks.len(),
{
    if chunks.len() > 0 {
        let front = chunks.drop_last();
        assert forall|k: int| 0 <= k < front.len() implies (#[trigger] front[k]).0
            < fields.len() by {
            assert(front[k] == chunks[k]);
        }
        lemma_assembled_errors(fields, front, prefix, validate, acc);
        let i = chunks.last().0 as int;
        assert(chunks[chunks.len() - 1].0 < fields.len());
        lemma_field_error(fields[i], chunks.last().1, validate);
        let r = assembled(fields, chunks, prefix, validate, acc);
        if r is Err && belongs_to(r->Err_0, fields[i]) {
            assert(of_table(r->Err_0, fields));
        }
    }
}

/// The error of reading groups is one of the table.
pub proof fn lemma_groups_errors(
    fields: Seq<FieldMetaView>,
    groups: Seq<ReadGroupView>,
    image: Seq<u8>,
    payload_start: u64,
    prefix: Seq<char>,
    validate: bool,
    acc: Seq<(Seq<char>, ValueView)>,
)
    requires
        forall|i: int| 0 <= i < groups.len() ==> group_covers(fields, #[trigger] groups[i]),
    ensures
        read_groups_spec(fields, groups, image, payload_start, prefix, validate, acc) matches Err(
            e,
        ) ==> of_table(e, fields),
    decreases groups.len(),
{
    if groups.len() > 0 {
        let front = groups.drop_last();
        assert forall|i: int| 0 <= i < front.len() implies group_covers(
            fields,
            #[trigger] front[i],
        ) by {
            assert(front[i] == groups[i]);
        }
        lemma_groups_errors(fields, front, image, payload_start, prefix, validate, acc);
        let before = read_groups_spec(fields, front, image, payload_start, prefix, validate, acc);
        if before is Ok {
            let g = groups.last();
            assert(group_covers(fields, groups[groups.len() - 1]));
            let bytes = image.subrange(payload_start + g.start, payload_start + g.end);
            if group_chunks(fields, g, bytes) is Some {
                let chunks = group_chunks(fields, g, bytes)->Some_0;
                lemma_chunk_indices(fields, g, bytes);
                assert forall|k: int| 0 <= k < chunks.len() implies (#[trigger] chunks[k]).0
                    < fields.len() by {
                    assert(chunks[k].0 == g.members[k]);
                }
                lemma_assembled_errors(fields, chunks, prefix, validate, before->Ok_0);
            }
        }
    }
}

/// The error of the places of fields is one of the table.
pub proof fn lemma_spans_errors(
    fields: Seq<FieldMetaView>,
    wanted: Seq<usize>,
    payload_start: u64,
    file_len: u64,
)
    requires
        indices_valid(wanted, fields.len()),
    ensures
        first_span_failure(fields, wanted, payload_start, file_len) matches Some(e) ==> of_table(
            e,
            fields,
        ),
    decreases wanted.len(),
{
    if wanted.len() > 0 {
        let rest = wanted.drop_first();
        assert forall|i: int| 0 <= i < rest.len() implies (#[trigger] rest[i]) < fields.len() by {
            assert(rest[i] == wanted[i + 1]);
        }
        lemma_spans_errors(fields, rest, payload_start, file_len);
        let f = fields[wanted[0] as int];
        lemma_span_error(f, payload_start, file_len);
        let r = span_failure(f, payload_start, file_len);
        if r is Some && belongs_to(r->Some_0, f) {
            assert(of_table(r->Some_0, fields));
        }
    }
}

/// The error of reading fields is one of the header's table: where it
/// carries a name, the table holds a field of that name with the numbers
/// that the error carries.
pub proof fn lemma_fields_errors(
    h: HeaderView,
    header_len: u32,
    image: Seq<u8>,
    wanted: Seq<usize>,
    prefix: Seq<char>,
    validate: bool,
)
    requires
        indices_valid(wanted, h.fields.len()),
    ensures
        read_fields_spec(h, header_len, image, wanted, prefix, validate) matches Err(e)
            ==> of_table(e, h.fields),
{
    reveal(read_fields_spec);
    let ps = payload_origin(header_len, h.payload_start);
    lemma_spans_errors(h.fields, wanted, ps, image.len() as u64);
    lemma_sorted_by_offset(h.fields, wanted);
    let sorted = sorted_by_offset(h.fields, wanted);
    lemma_grouped(h.fields, sorted);
    lemma_groups_errors(
        h.fields,
        grouped(h.fields, sorted),
        image,
        ps,
        prefix,
        validate,
        Seq::empty(),
    );
}

/// The header that a file states and its text, where both can be read.
pub open spec fn stated(image: Seq<u8>) -> Option<(HeaderView, Seq<char>)> {
    match preamble_spec(image) {
        Ok((len, line)) => match header_of_text(line) {
            Some(h) => Some((h, line)),
            None => None,
        },
        Err(_) => None,
    }
}

/// Whether an error says of a file what is true of it. An error about
/// the header's CRC holds the stored CRC, trimmed and in capitals, and the
/// CRC of the header's text; an error about the file's size holds the size
/// that the header states and the length of the file; both come from
/// validating reads only. An error about a variable holds the path that
/// was asked for. An error that carries a field's name belongs to a field
/// of the header's table.
pub open spec fn says_true(e: ErrorView, image: Seq<u8>, validate: bool, path: Seq<char>) -> bool {
    match e {
        ErrorView::Io | ErrorView::Utf8 | ErrorView::Json | ErrorView::Format
        | ErrorView::Unsupported => true,
        ErrorView::HeaderCrcMismatch { expected, got } => {
            &&& validate
            &&& stated(image) is Some
            &&& expected == upper_text(trimmed(stated(image)->Some_0.0.header_crc32_hex))
            &&& got == header_crc_text(stated(image)->Some_0.1)
            &&& got != expected
        },
        ErrorView::FileSizeMismatch { expected, got } => {
            &&& validate
            &&& stated(image) is Some
            &&& expected == stated(image)->Some_0.0.file_size
            &&& got == image.len() as u64
            &&& got != expected
        },
        ErrorView::VarNotFound(p) => p == path && path.len() > 0,
        _ => stated(image) is Some && of_table(e, stated(image)->Some_0.0.fields),
    }
}

/// The error of reading a header says what is true of the file.
pub proof fn lemma_header_errors(image: Seq<u8>, validate: bool, path: Seq<char>)
    ensures
        read_header_spec(image, image.len() as u64, validate) matches Err(e) ==> says_true(
            e,
            image,
            validate,
            path,
        ) && !(e is VarNotFound),
        read_header_spec(image, image.len() as u64, validate) matches Ok(t) ==> stated(image)
            == Some((t.0, t.2)),
{
    reveal(read_header_spec);
}

/// The error of reading a file says what is true of the file, where the
/// table of the header has no more fields than `usize` can count.
pub proof fn lemma_read_errors(image: Seq<u8>, validate: bool)
    requires
        stated(image) is Some ==> stated(image)->Some_0.0.fields.len() <= usize::MAX,
    ensures
        read_spec(image, validate) matches Err(e) ==> says_true(e, image, validate, Seq::empty()),
{
    lemma_header_errors(image, validate, Seq::empty());
    let r = read_header_spec(image, image.len() as u64, validate);
    if r is Ok {
        let (h, len, line) = r->Ok_0;
        let all = Seq::new(h.fields.len(), |i: int| i as usize);
        lemma_fields_errors(h, len, image, all, Seq::empty(), validate);
    }
}

/// The error of reading a variable says what is true of the file and of
/// the path.
pub proof fn lemma_read_var_errors(image: Seq<u8>, var_path: Seq<char>, validate: bool)
    requires
        stated(image) is Some ==> stated(image)->Some_0.0.fields.len() <= usize::MAX,
    ensures
        read_var_spec(image, var_path, validate) matches Err(e) ==> says_true(
            e,
            image,
            validate,
            trimmed(var_path),
        ),
{
    let path = trimmed(var_path);
    lemma_header_errors(image, validate, path);
    lemma_read_errors(image, validate);
    let r = read_header_spec(image, image.len() as u64, validate);
    if r is Ok && path.len() > 0 {
        let (h, len, line) = r->Ok_0;
        let ps = payload_origin(len, h.payload_start);
        reveal(selected);
        match selected(h.fields, path) {
            None => {},
            Some((true, one)) => {
                crate::layout::lemma_first_named(h.fields, path);
                let f = h.fields[one[0] as int];
                lemma_span_error(f, ps, image.len() as u64);
                lemma_field_error(
                    f,
                    image.subrange(ps + f.offset, ps + f.offset + f.csize),
                    validate,
                );
            },
            Some((false, below)) => {
                crate::layout::lemma_fields_below(h.fields, path + seq!['.']);
                lemma_fields_errors(h, len, image, below, path + seq!['.'], validate);
            },
        }
    }
}

} // verus!
