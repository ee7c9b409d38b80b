//! The reader: from the bytes of a container back to a value.
use crate::checksum::{header_crc_agrees, header_crc_text, validate_header_crc};
use crate::compress::{decode_field_bytes, field_raw_spec};
use crate::decode::{decode_leaf, decode_leaf_spec};
use crate::error::{ErrorView, GbfError};
use crate::header::{fields_view, FieldMeta, FieldMetaView, Header, HeaderView, MAGIC_BYTES};
use crate::layout::{
    all_indices, check_span, check_spans, field_payload_start, first_span_failure, group_chunks,
    grouped, groups_view, indices_valid, lemma_grouped, payload_origin, plan_groups, select_fields,
    selected, sort_by_offset, sorted_by_offset, span_failure, split_group, stored_view, ReadGroupView, Selection,
};
use crate::le::{u32_at, u32_of_le};
use crate::leaf::codes_in_range;
use crate::schema::{header_of_text, parse_header};
use crate::text::{
    concat2, eq_ignoring_case, same_ignoring_case, strip_prefix_of, text_of_utf8, trim_text,
    trimmed, upper_text,
};
use crate::tree::{assign_by_path, assign_spec, entries_get, segments_named, split_path};
use crate::value::{lemma_entries_view, lemma_struct_view, GbfValue, StructMap, ValueView};
use crate::writer::magic_seq;
use vstd::prelude::*;
use vstd::slice::slice_subrange;
use vstd::string::StringExecFns;
use vstd::utf8::{decode_utf8, valid_utf8};

verus! {

/// How a container is read.
#[derive(Debug, Clone, Copy)]
pub struct ReadOptions {
    /// Whether the header CRC, the sizes and the field CRCs are checked.
    pub validate: bool,
}

impl Default for ReadOptions {
    fn default() -> (r: Self)
        ensures
            !r.validate,
    {
        ReadOptions { validate: false }
    }
}

/// No header may be longer than this: 64 MiB.
pub const MAX_HEADER_LEN: u32 = 67108864;

/// Whether a file holds its first eight bytes and they are not the magic.
pub open spec fn bad_magic(prefix: Seq<u8>) -> bool {
    prefix.len() >= 8 && prefix.take(8) != magic_seq()
}

/// The message of the error for a file that begins with other bytes than
/// the magic.
pub open spec fn bad_magic_text() -> Seq<char> {
    "bad magic; not a GBF/GREDBIN file"@
}

/// The length of the header that the first twelve bytes of a file
/// announce: too few bytes are an I/O error, another magic and a length
/// below 2 or above 64 MiB are format errors.
pub open spec fn header_len_spec(prefix: Seq<u8>) -> Result<u32, ErrorView> {
    if prefix.len() < 8 {
        Err(ErrorView::Io)
    } else if prefix.take(8) != magic_seq() {
        Err(ErrorView::Format)
    } else if prefix.len() < 12 {
        Err(ErrorView::Io)
    } else {
        let len = u32_of_le(prefix.subrange(8, 12));
        if len < 2 || len > MAX_HEADER_LEN {
            Err(ErrorView::Format)
        } else {
            Ok(len)
        }
    }
}

/// The length and the text of the header at the beginning of a file: after
/// the checks of [`header_len_spec`], too few bytes for the header are an
/// I/O error and a header that is not UTF-8 is a UTF-8 error.
pub open spec fn preamble_spec(prefix: Seq<u8>) -> Result<(u32, Seq<char>), ErrorView> {
    match header_len_spec(prefix) {
        Err(k) => Err(k),
        Ok(len) => if prefix.len() < 12 + len {
            Err(ErrorView::Io)
        } else if !valid_utf8(prefix.subrange(12, 12 + len)) {
            Err(ErrorView::Utf8)
        } else {
            Ok((len, decode_utf8(prefix.subrange(12, 12 + len))))
        },
    }
}

/// Reads the magic and the length of the header from the first bytes of a
/// file.
pub fn header_length(prefix: &[u8]) -> (r: Result<u32, GbfError>)
    ensures
        bad_magic(prefix@) ==> (r matches Err(GbfError::Format(m)) && m@ == bad_magic_text()),
        match r {
            Ok(len) => header_len_spec(prefix@) == Ok::<u32, ErrorView>(len),
            Err(e) => header_len_spec(prefix@) == Err::<u32, ErrorView>(e@),
        },
{
    if prefix.len() < 8 {
        return Err(GbfError::Io(String::from_str("unexpected end of file in the magic")));
    }
    let magic = MAGIC_BYTES;
    let mut k: usize = 0;
    while k < 8
        invariant
            0 <= k <= 8,
            prefix.len() >= 8,
            magic == MAGIC_BYTES,
            forall|j: int| 0 <= j < k ==> prefix@[j] == magic_seq()[j],
        decreases 8 - k,
    {
        if prefix[k] != magic[k] {
            proof {
                assert(prefix@.take(8)[k as int] != magic_seq()[k as int]);
            }
            return Err(GbfError::Format(String::from_str("bad magic; not a GBF/GREDBIN file")));
        }
        k = k + 1;
    }
    assert(prefix@.take(8) =~= magic_seq());
    if prefix.len() < 12 {
        return Err(GbfError::Io(String::from_str("unexpected end of file in the header length")));
    }
    let len = u32_at(prefix, 8);
    if len < 2 || len > MAX_HEADER_LEN {
        return Err(GbfError::Format(String::from_str("invalid header_len")));
    }
    Ok(len)
}

/// Reads the length and the text of the header from the beginning of a
/// file.
pub fn read_preamble(prefix: &[u8]) -> (r: Result<(u32, String), GbfError>)
    ensures
        bad_magic(prefix@) ==> (r matches Err(GbfError::Format(m)) && m@ == bad_magic_text()),
        match r {
            Ok(t) => preamble_spec(prefix@) == Ok::<(u32, Seq<char>), ErrorView>((t.0, t.1@)),
            Err(e) => preamble_spec(prefix@) == Err::<(u32, Seq<char>), ErrorView>(e@),
        },
{
    let len = header_length(prefix)?;
    if prefix.len() - 12 < len as usize {
        return Err(GbfError::Io(String::from_str("unexpected end of file in the header")));
    }
    let bytes = slice_subrange(prefix, 12, 12 + len as usize);
    match text_of_utf8(bytes) {
        Some(s) => Ok((len, s)),
        None => Err(GbfError::Utf8(String::from_str("the header is not valid UTF-8"))),
    }
}

/// What a validating read finds wrong with a header, if anything: first
/// the CRC of the header text, then the length of the file, which the
/// header states, then the start of the payload, which it states too. The
/// error for a CRC holds the stored CRC in capitals and the CRC of the
/// text; the error for the length holds the stated and the true length.
pub open spec fn header_failure(
    h: HeaderView,
    line: Seq<char>,
    header_len: u32,
    file_len: u64,
    validate: bool,
) -> Option<ErrorView> {
    if !validate {
        None
    } else if !header_crc_agrees(h.header_crc32_hex, header_crc_text(line)) {
        Some(
            ErrorView::HeaderCrcMismatch {
                expected: upper_text(trimmed(h.header_crc32_hex)),
                got: header_crc_text(line),
            },
        )
    } else if file_len != h.file_size {
        Some(ErrorView::FileSizeMismatch { expected: h.file_size, got: file_len })
    } else if h.payload_start != 8 + 4 + header_len {
        Some(ErrorView::Format)
    } else {
        None
    }
}

/// Holds a header against its text and the file it came from. Without
/// validation nothing is checked.
pub fn check_header(header: &Header, line: &str, header_len: u32, file_len: u64, validate: bool) -> (r:
    Result<(), GbfError>)
    ensures
        match r {
            Ok(_) => header_failure(header@, line@, header_len, file_len, validate) is None,
            Err(e) => header_failure(header@, line@, header_len, file_len, validate) == Some(e@),
        },
{
    if !validate {
        return Ok(());
    }
    validate_header_crc(header, line)?;
    if file_len != header.file_size {
        return Err(GbfError::FileSizeMismatch { expected: header.file_size, got: file_len });
    }
    let payload_start = 8u64 + 4u64 + header_len as u64;
    if header.payload_start != payload_start {
        return Err(GbfError::Format(String::from_str("payload_start mismatch")));
    }
    Ok(())
}

/// The header of a file of `file_len` bytes that begins with `prefix`, its
/// length and its text; or what the error says that reading it ends with.
#[verifier::opaque]
pub open spec fn read_header_spec(prefix: Seq<u8>, file_len: u64, validate: bool) -> Result<
    (HeaderView, u32, Seq<char>),
    ErrorView,
> {
    match preamble_spec(prefix) {
        Err(k) => Err(k),
        Ok((len, line)) => match header_of_text(line) {
            None => Err(ErrorView::Json),
            Some(h) => match header_failure(h, line, len, file_len, validate) {
                Some(k) => Err(k),
                None => Ok((h, len, line)),
            },
        },
    }
}

/// Reads the header of a file of `file_len` bytes from its first bytes,
/// which hold at least the magic, the length and the header.
pub fn read_header_from(prefix: &[u8], file_len: u64, opts: ReadOptions) -> (r: Result<
    (Header, u32, String),
    GbfError,
>)
    ensures
        bad_magic(prefix@) ==> (r matches Err(GbfError::Format(m)) && m@ == bad_magic_text()),
        match r {
            Ok(t) => read_header_spec(prefix@, file_len, opts.validate) == Ok::<
                (HeaderView, u32, Seq<char>),
                ErrorView,
            >((t.0@, t.1, t.2@)),
            Err(e) => read_header_spec(prefix@, file_len, opts.validate) == Err::<
                (HeaderView, u32, Seq<char>),
                ErrorView,
            >(e@),
        },
{
    proof {
        reveal(read_header_spec);
    }
    let (len, line) = read_preamble(prefix)?;
    let header = parse_header(line.as_str())?;
    check_header(&header, line.as_str(), len, file_len, opts.validate)?;
    Ok((header, len, line))
}

/// Reads the header of a container without decoding any field: the header,
/// the length of its text in bytes, and the text.
pub fn read_header_only(image: &[u8], opts: ReadOptions) -> (r: Result<
    (Header, u32, String),
    GbfError,
>)
    ensures
        bad_magic(image@) ==> (r matches Err(GbfError::Format(m)) && m@ == bad_magic_text()),
        match r {
            Ok(t) => read_header_spec(image@, image@.len() as u64, opts.validate) == Ok::<
                (HeaderView, u32, Seq<char>),
                ErrorView,
            >((t.0@, t.1, t.2@)),
            Err(e) => read_header_spec(image@, image@.len() as u64, opts.validate) == Err::<
                (HeaderView, u32, Seq<char>),
                ErrorView,
            >(e@),
        },
{
    read_header_from(image, image.len() as u64, opts)
}

/// The leaf of a field, given its stored bytes, or what the error says
/// that decoding it ends with: the stored bytes become raw bytes
/// ([`field_raw_spec`]), the raw bytes a leaf ([`decode_leaf_spec`]), and
/// under validation a categorical leaf with a code that names no category
/// is a format error.
#[verifier::opaque]
pub open spec fn decode_field_spec(f: FieldMetaView, stored: Seq<u8>, validate: bool) -> Result<
    ValueView,
    ErrorView,
> {
    match field_raw_spec(f, stored, validate) {
        Err(k) => Err(k),
        Ok(raw) => match decode_leaf_spec(f.kind, f.class_name, f.shape, f.complex, raw) {
            Err(k) => Err(k),
            Ok(v) => if validate && (v matches ValueView::Categorical(a) && !a.codes_in_range()) {
                Err(ErrorView::Format)
            } else {
                Ok(v)
            },
        },
    }
}

/// Decodes the leaf of a field from its stored bytes.
pub fn decode_field(field: &FieldMeta, stored: &[u8], validate: bool) -> (r: Result<
    GbfValue,
    GbfError,
>)
    ensures
        r matches Ok(v) ==> v@.is_leaf(),
        r matches Err(e) ==> e.names(field.name@),
        match r {
            Ok(v) => decode_field_spec(field@, stored@, validate) == Ok::<ValueView, ErrorView>(
                v@,
            ),
            Err(e) => decode_field_spec(field@, stored@, validate) == Err::<ValueView, ErrorView>(
                e@,
            ),
        },
{
    proof {
        reveal(decode_field_spec);
    }
    let raw = decode_field_bytes(field, stored, validate)?;
    let leaf = decode_leaf(field, raw.as_slice())?;
    if validate {
        match &leaf {
            GbfValue::Categorical(a) => {
                assert(a@.categories.len() == a.categories@.len());
                assert(leaf@ == ValueView::Categorical(a@));
                if !codes_in_range(&a.codes, a.categories.len()) {
                    assert(!a@.codes_in_range());
                    return Err(
                        crate::error::format_error(
                            "categorical code without a category in `",
                            field.name.as_str(),
                            "`",
                        ),
                    );
                }
            },
            _ => {},
        }
    }
    Ok(leaf)
}

/// The record that grows out of `acc` when the fields of `chunks` are
/// decoded and put at their paths, in order; the path of a field is its
/// name without `prefix`. A field whose name does not begin with `prefix`,
/// a path with an empty segment, and a path through a leaf are format
/// errors.
pub open spec fn assembled(
    fields: Seq<FieldMetaView>,
    chunks: Seq<(usize, Seq<u8>)>,
    prefix: Seq<char>,
    validate: bool,
    acc: Seq<(Seq<char>, ValueView)>,
) -> Result<Seq<(Seq<char>, ValueView)>, ErrorView>
    decreases chunks.len(),
{
    if chunks.len() == 0 {
        Ok(acc)
    } else {
        match assembled(fields, chunks.drop_last(), prefix, validate, acc) {
            Err(k) => Err(k),
            Ok(entries) => {
                let f = fields[chunks.last().0 as int];
                match decode_field_spec(f, chunks.last().1, validate) {
                    Err(k) => Err(k),
                    Ok(leaf) => if !prefix.is_prefix_of(f.name) {
                        Err(ErrorView::Format)
                    } else {
                        let parts = split_path(f.name.skip(prefix.len() as int));
                        if !segments_named(parts) {
                            Err(ErrorView::Format)
                        } else {
                            match assign_spec(entries, parts, leaf) {
                                None => Err(ErrorView::Format),
                                Some(next) => Ok(next),
                            }
                        }
                    },
                }
            },
        }
    }
}

/// Where the first fields cannot be assembled, neither can all.
pub proof fn lemma_assembled_prefix(
    fields: Seq<FieldMetaView>,
    chunks: Seq<(usize, Seq<u8>)>,
    prefix: Seq<char>,
    validate: bool,
    acc: Seq<(Seq<char>, ValueView)>,
    i: int,
)
    requires
        0 <= i <= chunks.len(),
        assembled(fields, chunks.take(i), prefix, validate, acc) is Err,
    ensures
        assembled(fields, chunks, prefix, validate, acc) == assembled(
            fields,
            chunks.take(i),
            prefix,
            validate,
            acc,
        ),
    decreases chunks.len() - i,
{
    if i < chunks.len() {
        assert(chunks.take(i + 1).drop_last() =~= chunks.take(i));
        lemma_assembled_prefix(fields, chunks, prefix, validate, acc, i + 1);
    } else {
        assert(chunks.take(i) =~= chunks);
    }
}

/// Decodes the fields of `chunks` (a field's place in the table and its
/// stored bytes) and puts each at its path below `out`; the path of a field
/// is its name without `prefix`.
///
/// On an error `out` holds the fields that were put before it.
pub fn decode_into(
    out: &mut StructMap,
    fields: &Vec<FieldMeta>,
    chunks: &Vec<(usize, Vec<u8>)>,
    prefix: &str,
    validate: bool,
) -> (r: Result<(), GbfError>)
    requires
        forall|i: int| 0 <= i < chunks.len() ==> (#[trigger] chunks@[i]).0 < fields.len(),
    ensures
        old(out).wf() ==> final(out).wf(),
        match r {
            Ok(_) => assembled(
                fields_view(fields@),
                stored_view(chunks@),
                prefix@,
                validate,
                old(out)@,
            ) == Ok::<Seq<(Seq<char>, ValueView)>, ErrorView>(final(out)@),
            Err(e) => assembled(
                fields_view(fields@),
                stored_view(chunks@),
                prefix@,
                validate,
                old(out)@,
            ) == Err::<Seq<(Seq<char>, ValueView)>, ErrorView>(e@),
        },
{
    let ghost all = fields_view(fields@);
    let ghost list = stored_view(chunks@);
    let ghost start = out@;
    let mut i: usize = 0;
    while i < chunks.len()
        invariant
            0 <= i <= chunks.len(),
            all == fields_view(fields@),
            list == stored_view(chunks@),
            start == old(out)@,
            old(out).wf() ==> out.wf(),
            forall|j: int| 0 <= j < chunks.len() ==> (#[trigger] chunks@[j]).0 < fields.len(),
            assembled(all, list.take(i as int), prefix@, validate, start) == Ok::<
                Seq<(Seq<char>, ValueView)>,
                ErrorView,
            >(out@),
        decreases chunks.len() - i,
    {
        proof {
            assert(list.take(i + 1).drop_last() =~= list.take(i as int));
            assert(list.take(i + 1).last() == (chunks@[i as int].0, chunks@[i as int].1@));
            assert(chunks@[i as int].0 < fields.len());
        }
        let field = &fields[chunks[i].0];
        let leaf = match decode_field(field, chunks[i].1.as_slice(), validate) {
            Ok(v) => v,
            Err(e) => {
                proof {
                    lemma_assembled_prefix(all, list, prefix@, validate, start, i + 1);
                }
                return Err(e);
            },
        };
        let rel = match strip_prefix_of(field.name.as_str(), prefix) {
            Some(r) => r,
            None => {
                proof {
                    lemma_assembled_prefix(all, list, prefix@, validate, start, i + 1);
                }
                return Err(GbfError::Format(String::from_str("internal field lookup failure")));
            },
        };
        proof {
            assert(rel@ =~= field.name@.skip(prefix@.len() as int));
        }
        match assign_by_path(out, rel, leaf) {
            Ok(_) => {},
            Err(e) => {
                proof {
                    lemma_assembled_prefix(all, list, prefix@, validate, start, i + 1);
                }
                return Err(e);
            },
        }
        i = i + 1;
    }
    proof {
        assert(list.take(i as int) =~= list);
    }
    Ok(())
}

/// The value of a file, given the word for its root and the record of its
/// fields: under `single` the field `data`, or the first field where there
/// is no `data`; else, and for an empty record, the record.
#[verifier::opaque]
pub open spec fn finish_spec(root: Seq<char>, entries: Seq<(Seq<char>, ValueView)>) -> ValueView {
    if same_ignoring_case(root, "single"@) {
        match entries_get(entries, "data"@) {
            Some(v) => v,
            None => if entries.len() > 0 {
                entries[0].1
            } else {
                ValueView::Struct(entries)
            },
        }
    } else {
        ValueView::Struct(entries)
    }
}

/// Turns the record of the fields of a file into its value.
pub fn finish_value(root: &str, out: StructMap) -> (v: GbfValue)
    ensures
        out.wf() ==> crate::order::well_ordered(v@),
        v@ == finish_spec(root@, out@),
{
    proof {
        reveal(finish_spec);
    }
    proof {
        lemma_struct_view(out);
        lemma_entries_view(out.entries@);
    }
    if eq_ignoring_case(root, "single") {
        let mut out = out;
        proof {
            crate::tree::lemma_find_get(out@, "data"@);
        }
        let i = out.position("data");
        if i < out.entries.len() {
            let (_, v) = out.entries.remove(i);
            return v;
        }
        if out.entries.len() > 0 {
            let (_, v) = out.entries.remove(0);
            return v;
        }
        proof {
            lemma_struct_view(out);
        }
        return GbfValue::Struct(out);
    }
    GbfValue::Struct(out)
}

/// The record that grows out of `acc` when the groups are read from the
/// file one after the other and their fields are decoded and put at their
/// paths. A group that ends beyond the file is an I/O error.
pub open spec fn read_groups_spec(
    fields: Seq<FieldMetaView>,
    groups: Seq<ReadGroupView>,
    image: Seq<u8>,
    payload_start: u64,
    prefix: Seq<char>,
    validate: bool,
    acc: Seq<(Seq<char>, ValueView)>,
) -> Result<Seq<(Seq<char>, ValueView)>, ErrorView>
    decreases groups.len(),
{
    if groups.len() == 0 {
        Ok(acc)
    } else {
        match read_groups_spec(
            fields,
            groups.drop_last(),
            image,
            payload_start,
            prefix,
            validate,
            acc,
        ) {
            Err(k) => Err(k),
            Ok(entries) => {
                let g = groups.last();
                if g.start > g.end || payload_start + g.end > image.len() {
                    Err(ErrorView::Io)
                } else {
                    match group_chunks(
                        fields,
                        g,
                        image.subrange(payload_start + g.start, payload_start + g.end),
                    ) {
                        None => Err(ErrorView::Io),
                        Some(chunks) => assembled(fields, chunks, prefix, validate, entries),
                    }
                }
            },
        }
    }
}

/// Where the first groups cannot be read, neither can all.
pub proof fn lemma_read_groups_prefix(
    fields: Seq<FieldMetaView>,
    groups: Seq<ReadGroupView>,
    image: Seq<u8>,
    payload_start: u64,
    prefix: Seq<char>,
    validate: bool,
    acc: Seq<(Seq<char>, ValueView)>,
    i: int,
)
    requires
        0 <= i <= groups.len(),
        read_groups_spec(fields, groups.take(i), image, payload_start, prefix, validate, acc)
            is Err,
    ensures
        read_groups_spec(fields, groups, image, payload_start, prefix, validate, acc)
            == read_groups_spec(
            fields,
            groups.take(i),
            image,
            payload_start,
            prefix,
            validate,
            acc,
        ),
    decreases groups.len() - i,
{
    if i < groups.len() {
        assert(groups.take(i + 1).drop_last() =~= groups.take(i));
        lemma_read_groups_prefix(
            fields,
            groups,
            image,
            payload_start,
            prefix,
            validate,
            acc,
            i + 1,
        );
    } else {
        assert(groups.take(i) =~= groups);
    }
}

/// The record of the wanted fields of a file, or what the error says that
/// reading them ends with, which is the error of the first field that
/// fails: the place of each wanted field is checked, the
/// fields are put in the order of their offsets and grouped, and the groups
/// are read one after the other.
#[verifier::opaque]
pub open spec fn read_fields_spec(
    h: HeaderView,
    header_len: u32,
    image: Seq<u8>,
    wanted: Seq<usize>,
    prefix: Seq<char>,
    validate: bool,
) -> Result<Seq<(Seq<char>, ValueView)>, ErrorView> {
    let ps = payload_origin(header_len, h.payload_start);
    match first_span_failure(h.fields, wanted, ps, image.len() as u64) {
        Some(k) => Err(k),
        None => read_groups_spec(
            h.fields,
            grouped(h.fields, sorted_by_offset(h.fields, wanted)),
            image,
            ps,
            prefix,
            validate,
            Seq::empty(),
        ),
    }
}

/// Reads the wanted fields of a container into a record; the path of a
/// field is its name without `prefix`.
pub fn read_fields(
    header: &Header,
    header_len: u32,
    image: &[u8],
    wanted: &Vec<usize>,
    prefix: &str,
    validate: bool,
) -> (r: Result<StructMap, GbfError>)
    requires
        indices_valid(wanted@, header.fields@.len()),
    ensures
        r matches Ok(m) ==> m.wf(),
        match r {
            Ok(m) => read_fields_spec(
                header@,
                header_len,
                image@,
                wanted@,
                prefix@,
                validate,
            ) == Ok::<Seq<(Seq<char>, ValueView)>, ErrorView>(m@),
            Err(e) => read_fields_spec(
                header@,
                header_len,
                image@,
                wanted@,
                prefix@,
                validate,
            ) == Err::<Seq<(Seq<char>, ValueView)>, ErrorView>(e@),
        },
{
    proof {
        reveal(read_fields_spec);
    }
    let ps = field_payload_start(header_len, header.payload_start);
    let fields = &header.fields;
    let ghost all = fields_view(fields@);
    check_spans(fields, wanted, ps, image.len() as u64)?;
    let sorted = sort_by_offset(fields, wanted);
    let groups = plan_groups(fields, &sorted);
    let ghost plan = groups_view(groups@);
    proof {
        lemma_grouped(all, sorted@);
    }
    let mut out = StructMap::new();
    let mut i: usize = 0;
    while i < groups.len()
        invariant
            0 <= i <= groups.len(),
            all == fields_view(fields@),
            plan == groups_view(groups@),
            plan == grouped(all, sorted@),
            out.wf(),
            read_fields_spec(header@, header_len, image@, wanted@, prefix@, validate)
                == read_groups_spec(all, plan, image@, ps, prefix@, validate, Seq::empty()),
            forall|j: int| 0 <= j < plan.len() ==> crate::layout::group_covers(all, #[trigger] plan[j]),
            read_groups_spec(
                all,
                plan.take(i as int),
                image@,
                ps,
                prefix@,
                validate,
                Seq::empty(),
            ) == Ok::<Seq<(Seq<char>, ValueView)>, ErrorView>(out@),
        decreases groups.len() - i,
    {
        let g = &groups[i];
        proof {
            assert(plan.take(i + 1).drop_last() =~= plan.take(i as int));
            assert(plan.take(i + 1).last() == g@);
            assert(crate::layout::group_covers(all, plan[i as int]));
        }
        let fits = g.start <= g.end && ps <= image.len() as u64 && g.end <= image.len() as u64
            - ps;
        if !fits {
            proof {
                lemma_read_groups_prefix(all, plan, image@, ps, prefix@, validate, Seq::empty(), i + 1);
            }
            return Err(GbfError::Io(String::from_str("failed to fill whole buffer")));
        }
        let bytes = slice_subrange(image, (ps + g.start) as usize, (ps + g.end) as usize);
        let chunks = match split_group(fields, g, bytes) {
            Ok(c) => c,
            Err(e) => {
                proof {
                    lemma_read_groups_prefix(
                        all,
                        plan,
                        image@,
                        ps,
                        prefix@,
                        validate,
                        Seq::empty(),
                        i + 1,
                    );
                }
                return Err(e);
            },
        };
        proof {
            lemma_chunk_indices(all, g@, bytes@);
            assert forall|k: int| 0 <= k < chunks.len() implies (#[trigger] chunks@[k]).0
                < fields.len() by {
                assert(stored_view(chunks@)[k].0 == chunks@[k].0);
                assert(g@.members[k] < all.len());
            }
        }
        match decode_into(&mut out, fields, &chunks, prefix, validate) {
            Ok(_) => {},
            Err(e) => {
                proof {
                    lemma_read_groups_prefix(
                        all,
                        plan,
                        image@,
                        ps,
                        prefix@,
                        validate,
                        Seq::empty(),
                        i + 1,
                    );
                }
                return Err(e);
            },
        }
        i = i + 1;
    }
    proof {
        assert(plan.take(i as int) =~= plan);
    }
    Ok(out)
}

/// The chunks of a group are those of its fields, in order.
pub proof fn lemma_chunk_indices(fields: Seq<FieldMetaView>, g: ReadGroupView, bytes: Seq<u8>)
    requires
        group_chunks(fields, g, bytes) is Some,
    ensures
        group_chunks(fields, g, bytes)->Some_0.len() == g.members.len(),
        forall|k: int|
            0 <= k < g.members.len() ==> (#[trigger] group_chunks(fields, g, bytes)->Some_0[k]).0
                == g.members[k],
    decreases g.members.len(),
{
    if g.members.len() > 0 {
        let front = ReadGroupView { members: g.members.drop_last(), ..g };
        lemma_chunk_indices(fields, front, bytes);
    }
}

/// The value of a container, or what the error says that reading it ends
/// with: the header is read, then all fields, and the record of the fields
/// becomes the value as the header's root word says.
pub open spec fn read_spec(image: Seq<u8>, validate: bool) -> Result<ValueView, ErrorView> {
    match read_header_spec(image, image.len() as u64, validate) {
        Err(k) => Err(k),
        Ok((h, len, line)) => match read_fields_spec(
            h,
            len,
            image,
            Seq::new(h.fields.len(), |i: int| i as usize),
            Seq::empty(),
            validate,
        ) {
            Err(k) => Err(k),
            Ok(entries) => Ok(finish_spec(h.root, entries)),
        },
    }
}

/// Reads the value of a container from the bytes of the file.
///
/// Returns the value that [`read_spec`] gives, and fails exactly where it
/// does, with the error that it describes: its kind, and the names and
/// numbers that the kind carries. A file that begins with other bytes than
/// the magic is refused with a message that says so.
pub fn read_file(image: &[u8], opts: ReadOptions) -> (r: Result<GbfValue, GbfError>)
    ensures
        bad_magic(image@) ==> (r matches Err(GbfError::Format(m)) && m@ == bad_magic_text()),
        r matches Ok(v) ==> crate::order::well_ordered(v@),
        match r {
            Ok(v) => read_spec(image@, opts.validate) == Ok::<ValueView, ErrorView>(v@),
            Err(e) => read_spec(image@, opts.validate) == Err::<ValueView, ErrorView>(
                e@,
            ),
        },
{
    let (header, header_len, _line) = read_header_only(image, opts)?;
    let wanted = all_indices(header.fields.len());
    proof {
        assert(header@.fields.len() == header.fields@.len());
    }
    let empty = "";
    proof {
        reveal_strlit("");
        assert(empty@ =~= Seq::<char>::empty());
    }
    let out = read_fields(&header, header_len, image, &wanted, empty, opts.validate)?;
    Ok(finish_value(header.root.as_str(), out))
}

/// The value at a path in a container, or what the error says that
/// reading it ends with. The path is trimmed; the empty path is the whole value.
/// A path that names a field is that leaf; any other path is the record of
/// the fields below it; a path that is neither is not found.
pub open spec fn read_var_spec(image: Seq<u8>, var_path: Seq<char>, validate: bool) -> Result<
    ValueView,
    ErrorView,
> {
    let path = trimmed(var_path);
    match read_header_spec(image, image.len() as u64, validate) {
        Err(k) => Err(k),
        Ok((h, len, line)) => if path.len() == 0 {
            read_spec(image, validate)
        } else {
            let ps = payload_origin(len, h.payload_start);
            match selected(h.fields, path) {
                None => Err(ErrorView::VarNotFound(path)),
                Some((true, one)) => {
                    let f = h.fields[one[0] as int];
                    match span_failure(f, ps, image.len() as u64) {
                        Some(k) => Err(k),
                        None => decode_field_spec(
                            f,
                            image.subrange(ps + f.offset, ps + f.offset + f.csize),
                            validate,
                        ),
                    }
                },
                Some((false, below)) => match read_fields_spec(
                    h,
                    len,
                    image,
                    below,
                    path + seq!['.'],
                    validate,
                ) {
                    Err(k) => Err(k),
                    Ok(entries) => Ok(ValueView::Struct(entries)),
                },
            }
        },
    }
}

/// Reads the value at a dotted path from the bytes of a container: the
/// leaf of that name, or the record of the fields below it.
///
/// Returns the value that [`read_var_spec`] gives, and fails exactly where
/// it does, with the error that it describes; where no field has the name
/// or lies below it, the error is `VarNotFound` with the trimmed path.
pub fn read_var(image: &[u8], var_path: &str, opts: ReadOptions) -> (r: Result<
    GbfValue,
    GbfError,
>)
    ensures
        bad_magic(image@) ==> (r matches Err(GbfError::Format(m)) && m@ == bad_magic_text()),
        r matches Ok(v) ==> crate::order::well_ordered(v@),
        match r {
            Ok(v) => read_var_spec(image@, var_path@, opts.validate) == Ok::<
                ValueView,
                ErrorView,
            >(v@),
            Err(e) => read_var_spec(image@, var_path@, opts.validate) == Err::<
                ValueView,
                ErrorView,
            >(e@),
        },
{
    let (header, header_len, _line) = read_header_only(image, opts)?;
    let path = trim_text(var_path);
    if path.is_empty() {
        return read_file(image, opts);
    }
    let ps = field_payload_start(header_len, header.payload_start);
    proof {
        assert(header@.fields.len() == header.fields@.len());
    }
    match select_fields(&header.fields, path)? {
        Selection::Leaf(i) => {
            let field = &header.fields[i];
            proof {
                reveal(span_failure);
            }
            check_span(field, ps, image.len() as u64)?;
            let from = (ps + field.offset) as usize;
            let stored = slice_subrange(image, from, from + field.csize as usize);
            decode_field(field, stored, opts.validate)
        },
        Selection::Subtree(below) => {
            let prefix = concat2(path, ".");
            proof {
                reveal_strlit(".");
                assert("."@ =~= seq!['.']);
            }
            let out = read_fields(
                &header,
                header_len,
                image,
                &below,
                prefix.as_str(),
                opts.validate,
            )?;
            proof {
                lemma_struct_view(out);
            }
            Ok(GbfValue::Struct(out))
        },
    }
}

/// What a validating read has checked of a header that it accepts: the
/// stored CRC agrees with the CRC of the header text, the stated file size
/// is the length of the file, and the stated start of the payload is where
/// the header ends.
pub proof fn lemma_validated_header(prefix: Seq<u8>, file_len: u64)
    requires
        read_header_spec(prefix, file_len, true) is Ok,
    ensures
        ({
            let (h, len, line) = read_header_spec(prefix, file_len, true)->Ok_0;
            &&& header_crc_agrees(h.header_crc32_hex, header_crc_text(line))
            &&& h.file_size == file_len
            &&& h.payload_start == 8 + 4 + len
            &&& preamble_spec(prefix) == Ok::<(u32, Seq<char>), ErrorView>((len, line))
            &&& header_of_text(line) == Some(h)
        }),
{
    reveal(read_header_spec);
}

/// What a validating read has checked of a field that it accepts: the raw
/// bytes that the leaf was decoded from have the declared size, where one
/// is declared, and the stored CRC-32, where one is stored.
pub proof fn lemma_validated_field(f: FieldMetaView, stored: Seq<u8>)
    requires
        decode_field_spec(f, stored, true) is Ok,
    ensures
        field_raw_spec(f, stored, true) matches Ok(raw) && (f.usize > 0 ==> raw.len() == f.usize)
            && (f.crc32 != 0 ==> crate::checksum::crc32_of(raw) == f.crc32),
{
    reveal(decode_field_spec);
    reveal(field_raw_spec);
}

/// A file of another length than its header states is refused by a
/// validating read, with the stated and the true length: where the header
/// can be read and its CRC agrees, the error is `FileSizeMismatch` with the
/// header's `file_size` and the length of the file.
pub proof fn lemma_wrong_length(image: Seq<u8>)
    requires
        image.len() <= u64::MAX,
        preamble_spec(image) is Ok,
        header_of_text(preamble_spec(image)->Ok_0.1) is Some,
        header_crc_agrees(
            header_of_text(preamble_spec(image)->Ok_0.1)->Some_0.header_crc32_hex,
            header_crc_text(preamble_spec(image)->Ok_0.1),
        ),
        header_of_text(preamble_spec(image)->Ok_0.1)->Some_0.file_size != image.len(),
    ensures
        read_spec(image, true) == Err::<ValueView, ErrorView>(
            ErrorView::FileSizeMismatch {
                expected: header_of_text(preamble_spec(image)->Ok_0.1)->Some_0.file_size,
                got: image.len() as u64,
            },
        ),
{
    reveal(read_header_spec);
}

/// A field whose raw bytes have another CRC-32 than the stored one is
/// refused by a validating read with the field's name and both CRCs, where
/// the bytes are stored as they are and have the declared size.
pub proof fn lemma_wrong_crc(f: FieldMetaView, stored: Seq<u8>)
    requires
        !crate::compress::is_zlib(f),
        stored.len() <= crate::compress::MAX_FIELD_USIZE,
        f.usize == 0 || f.usize == stored.len(),
        f.crc32 != 0,
        crate::checksum::crc32_of(stored) != f.crc32,
    ensures
        decode_field_spec(f, stored, true) == Err::<ValueView, ErrorView>(
            ErrorView::FieldCrcMismatch {
                name: f.name,
                expected: f.crc32,
                got: crate::checksum::crc32_of(stored),
            },
        ),
{
    reveal(decode_field_spec);
    reveal(field_raw_spec);
}

} // verus!
