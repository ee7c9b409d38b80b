//! The header as a JSON document: which keys it has, which of them must be
//! there, and how loosely written numbers are read.
use crate::error::GbfError;
use crate::header::{fields_view, FieldMeta, FieldMetaView, Header, HeaderView};
use crate::json::{
    lemma_members_view, lemma_nodes_view, members_view, names_differ, nodes_view, parse_json, plain,
    JsonNode,
    JsonView,
};
use crate::text::{concat3, decimal_u64, parse_decimal_u64, same_text};
use vstd::prelude::*;
use vstd::string::StringExecFns;

verus! {

/// The whole number nearest to the double with these bits, halves away
/// from zero, and within `u64`: zero for a negative number and for what is
/// not a number, `u64::MAX` for what is too large.
pub open spec fn float_to_u64(bits: u64) -> u64 {
    let exponent = (bits >> 52) & 0x7ff;
    let fraction = bits & 0xf_ffff_ffff_ffff;
    let significand = fraction | 0x10_0000_0000_0000;
    if bits >> 63 != 0 {
        0
    } else if exponent == 0x7ff {
        if fraction == 0 {
            u64::MAX
        } else {
            0
        }
    } else if exponent >= 1087 {
        u64::MAX
    } else if exponent >= 1075 {
        significand << ((exponent - 1075) as u64)
    } else if exponent >= 1022 {
        let shift = (1075 - exponent) as u64;
        ((significand >> shift) + ((significand >> ((shift - 1) as u64)) & 1)) as u64
    } else {
        0
    }
}

/// Rounding to the nearest whole number, halves upward: where the last
/// `shift` bits of a significand are cut off and the highest of them is
/// added, the result times `2^shift` is within half of `2^shift` of the
/// significand, and on the lower side strictly.
proof fn lemma_rounds_to_nearest(significand: u64, shift: u64)
    by (bit_vector)
    requires
        1 <= shift <= 53,
        significand < 0x20_0000_0000_0000,
    ensures
        ({
            let r = ((significand >> shift) + ((significand >> ((shift - 1) as u64)) & 1)) as u64;
            &&& 2 * (r << shift) <= 2 * significand + (1u64 << shift)
            &&& 2 * significand < 2 * (r << shift) + (1u64 << shift)
            &&& r <= 0x10_0000_0000_0000
        }),
{
}

/// A significand with its leading bit is below `2^53`.
proof fn lemma_significand_bound(bits: u64)
    by (bit_vector)
    ensures
        (bits & 0xf_ffff_ffff_ffff) | 0x10_0000_0000_0000 < 0x20_0000_0000_0000,
{
}

/// A double between a half and `2^52` is read as the whole number nearest
/// to it, halves upward. Such a double is its significand divided by
/// `2^shift`, with `shift` from 1 to 53; the number that it is read as,
/// times `2^shift`, is within half of `2^shift` of the significand, and on
/// the lower side strictly.
pub proof fn lemma_float_nearest(bits: u64)
    requires
        bits >> 63 == 0,
        1022 <= (bits >> 52) & 0x7ff < 1075,
    ensures
        ({
            let significand = (bits & 0xf_ffff_ffff_ffff) | 0x10_0000_0000_0000;
            let shift = (1075 - ((bits >> 52) & 0x7ff)) as u64;
            let r = float_to_u64(bits);
            &&& 2 * (r << shift) <= 2 * significand + (1u64 << shift)
            &&& 2 * significand < 2 * (r << shift) + (1u64 << shift)
        }),
{
    let significand = (bits & 0xf_ffff_ffff_ffff) | 0x10_0000_0000_0000;
    let shift = (1075 - ((bits >> 52) & 0x7ff)) as u64;
    lemma_significand_bound(bits);
    lemma_rounds_to_nearest(significand, shift);
}

/// The number that a document stands for where an unsigned number is
/// expected: the number itself, zero for a negative one, the nearest whole
/// number for a fraction, the value of a text of digits, and zero for
/// everything else.
pub open spec fn coerce_u64(doc: JsonView) -> u64 {
    match doc {
        JsonView::Unsigned(u) => u,
        JsonView::Signed(i) => if i >= 0 {
            i as u64
        } else {
            0
        },
        JsonView::Float(bits) => float_to_u64(bits),
        JsonView::Text(s) => match decimal_u64(s) {
            Some(v) => v,
            None => 0,
        },
        _ => 0,
    }
}

/// As [`coerce_u64`] for a 32-bit number: a number beyond `u32` counts as
/// `u32::MAX`, a text of digits beyond `u32` as zero.
pub open spec fn coerce_u32(doc: JsonView) -> u32 {
    match doc {
        JsonView::Text(s) => match decimal_u64(s) {
            Some(v) => if v <= u32::MAX {
                v as u32
            } else {
                0
            },
            None => 0,
        },
        _ => if coerce_u64(doc) > u32::MAX {
            u32::MAX
        } else {
            coerce_u64(doc) as u32
        },
    }
}

/// The value of the first member named `key`.
pub open spec fn member_get(members: Seq<(Seq<char>, JsonView)>, key: Seq<char>) -> Option<
    JsonView,
>
    decreases members.len(),
{
    if members.len() == 0 {
        None
    } else if members[0].0 == key {
        Some(members[0].1)
    } else {
        member_get(members.drop_first(), key)
    }
}

/// The text under `key`, which must be there. `None` where it is missing
/// or not a text.
pub open spec fn required_text(members: Seq<(Seq<char>, JsonView)>, key: Seq<char>) -> Option<
    Seq<char>,
> {
    match member_get(members, key) {
        Some(JsonView::Text(s)) => Some(s),
        _ => None,
    }
}

/// The text under `key`, empty where the key is missing. `None` where the
/// member is not a text.
pub open spec fn optional_text(members: Seq<(Seq<char>, JsonView)>, key: Seq<char>) -> Option<
    Seq<char>,
> {
    match member_get(members, key) {
        None => Some(Seq::empty()),
        Some(JsonView::Text(s)) => Some(s),
        Some(_) => None,
    }
}

/// The truth value under `key`, false where the key is missing. `None`
/// where the member is not a truth value.
pub open spec fn optional_bool(members: Seq<(Seq<char>, JsonView)>, key: Seq<char>) -> Option<
    bool,
> {
    match member_get(members, key) {
        None => Some(false),
        Some(JsonView::Bool(b)) => Some(b),
        Some(_) => None,
    }
}

/// The number under `key` as [`coerce_u64`] reads it, zero where the key
/// is missing.
pub open spec fn loose_u64(members: Seq<(Seq<char>, JsonView)>, key: Seq<char>) -> u64 {
    match member_get(members, key) {
        None => 0,
        Some(d) => coerce_u64(d),
    }
}

/// The number under `key` as [`coerce_u32`] reads it, zero where the key
/// is missing.
pub open spec fn loose_u32(members: Seq<(Seq<char>, JsonView)>, key: Seq<char>) -> u32 {
    match member_get(members, key) {
        None => 0,
        Some(d) => coerce_u32(d),
    }
}

/// The shape under `key`: the dimensions of a list as [`coerce_u64`] reads
/// them, and no dimensions for everything else.
pub open spec fn loose_shape(members: Seq<(Seq<char>, JsonView)>, key: Seq<char>) -> Seq<u64> {
    match member_get(members, key) {
        Some(JsonView::List(items)) => items.map_values(|d: JsonView| coerce_u64(d)),
        _ => Seq::empty(),
    }
}

/// The field description that a document stands for: a record with the
/// texts `name`, `kind` and `class`; every other key may be missing.
pub open spec fn field_of_doc(doc: JsonView) -> Option<FieldMetaView> {
    match doc {
        JsonView::Record(m) => match (
            required_text(m, "name"@),
            required_text(m, "kind"@),
            required_text(m, "class"@),
            optional_bool(m, "complex"@),
            optional_text(m, "encoding"@),
            optional_text(m, "compression"@),
        ) {
            (
                Some(name),
                Some(kind),
                Some(class_name),
                Some(complex),
                Some(encoding),
                Some(compression),
            ) => Some(
                FieldMetaView {
                    name,
                    kind,
                    class_name,
                    shape: loose_shape(m, "shape"@),
                    complex,
                    encoding,
                    compression,
                    offset: loose_u64(m, "offset"@),
                    csize: loose_u64(m, "csize"@),
                    usize: loose_u64(m, "usize"@),
                    crc32: loose_u32(m, "crc32"@),
                },
            ),
            _ => None,
        },
        _ => None,
    }
}

/// The field descriptions that a list of documents stands for; `None`
/// where one of them is none.
pub open spec fn fields_of_docs(items: Seq<JsonView>) -> Option<Seq<FieldMetaView>>
    decreases items.len(),
{
    if items.len() == 0 {
        Some(Seq::empty())
    } else {
        match (fields_of_docs(items.drop_last()), field_of_doc(items.last())) {
            (Some(front), Some(f)) => Some(front.push(f)),
            _ => None,
        }
    }
}

/// The version under `version`: an unsigned number within `u32`.
pub open spec fn version_of(members: Seq<(Seq<char>, JsonView)>) -> Option<u32> {
    match member_get(members, "version"@) {
        Some(JsonView::Unsigned(u)) => if u <= u32::MAX {
            Some(u as u32)
        } else {
            None
        },
        _ => None,
    }
}

/// The list of fields under `fields`.
pub open spec fn fields_of(members: Seq<(Seq<char>, JsonView)>) -> Option<Seq<FieldMetaView>> {
    match member_get(members, "fields"@) {
        Some(JsonView::List(items)) => fields_of_docs(items),
        _ => None,
    }
}

/// The header that a document stands for: a record with the texts `format`
/// and `magic`, the number `version` and the list `fields`; every other key
/// may be missing. `None` where a key that must be there is missing, or a
/// member is of the wrong type.
pub open spec fn header_of_doc(doc: JsonView) -> Option<HeaderView> {
    match doc {
        JsonView::Record(m) => match (
            required_text(m, "format"@),
            required_text(m, "magic"@),
            version_of(m),
            optional_text(m, "endianness"@),
            optional_text(m, "order"@),
            optional_text(m, "root"@),
            optional_text(m, "created_utc"@),
            optional_text(m, "producer_version"@),
            fields_of(m),
            optional_text(m, "header_crc32_hex"@),
        ) {
            (
                Some(format),
                Some(magic),
                Some(version),
                Some(endianness),
                Some(order),
                Some(root),
                Some(created_utc),
                Some(producer_version),
                Some(fields),
                Some(header_crc32_hex),
            ) => Some(
                HeaderView {
                    format,
                    magic,
                    version,
                    endianness,
                    order,
                    root,
                    created_utc,
                    producer_version,
                    fields,
                    payload_start: loose_u64(m, "payload_start"@),
                    file_size: loose_u64(m, "file_size"@),
                    header_crc32_hex,
                },
            ),
            _ => None,
        },
        _ => None,
    }
}

/// The document of a field description.
pub open spec fn field_doc(f: FieldMetaView) -> JsonView {
    JsonView::Record(
        Seq::empty().push(("name"@, JsonView::Text(f.name))).push(
            ("kind"@, JsonView::Text(f.kind)),
        ).push(("class"@, JsonView::Text(f.class_name))).push(
            ("shape"@, JsonView::List(f.shape.map_values(|d: u64| JsonView::Unsigned(d)))),
        ).push(("complex"@, JsonView::Bool(f.complex))).push(
            ("encoding"@, JsonView::Text(f.encoding)),
        ).push(("compression"@, JsonView::Text(f.compression))).push(
            ("offset"@, JsonView::Unsigned(f.offset)),
        ).push(("csize"@, JsonView::Unsigned(f.csize))).push(
            ("usize"@, JsonView::Unsigned(f.usize)),
        ).push(("crc32"@, JsonView::Unsigned(f.crc32 as u64))),
    )
}

/// The document of a header: its keys in the order of the format's
/// description.
pub open spec fn header_doc(h: HeaderView) -> JsonView {
    JsonView::Record(
        Seq::empty().push(("format"@, JsonView::Text(h.format))).push(
            ("magic"@, JsonView::Text(h.magic)),
        ).push(("version"@, JsonView::Unsigned(h.version as u64))).push(
            ("endianness"@, JsonView::Text(h.endianness)),
        ).push(("order"@, JsonView::Text(h.order))).push(("root"@, JsonView::Text(h.root))).push(
            ("created_utc"@, JsonView::Text(h.created_utc)),
        ).push(("producer_version"@, JsonView::Text(h.producer_version))).push(
            ("fields"@, JsonView::List(h.fields.map_values(|f: FieldMetaView| field_doc(f)))),
        ).push(("payload_start"@, JsonView::Unsigned(h.payload_start))).push(
            ("file_size"@, JsonView::Unsigned(h.file_size)),
        ).push(("header_crc32_hex"@, JsonView::Text(h.header_crc32_hex))),
    )
}

proof fn lemma_key_name()
    ensures
        "name"@.len() == 4,
        "name"@[0] == 'n',
        "name"@[1] == 'a',
        "name"@[2] == 'm',
        "name"@[3] == 'e',
{
    reveal_strlit("name");
}

proof fn lemma_key_kind()
    ensures
        "kind"@.len() == 4,
        "kind"@[0] == 'k',
        "kind"@[1] == 'i',
        "kind"@[2] == 'n',
        "kind"@[3] == 'd',
{
    reveal_strlit("kind");
}

proof fn lemma_key_class()
    ensures
        "class"@.len() == 5,
        "class"@[0] == 'c',
        "class"@[1] == 'l',
        "class"@[2] == 'a',
        "class"@[3] == 's',
        "class"@[4] == 's',
{
    reveal_strlit("class");
}

proof fn lemma_key_shape()
    ensures
        "shape"@.len() == 5,
        "shape"@[0] == 's',
        "shape"@[1] == 'h',
        "shape"@[2] == 'a',
        "shape"@[3] == 'p',
        "shape"@[4] == 'e',
{
    reveal_strlit("shape");
}

proof fn lemma_key_complex()
    ensures
        "complex"@.len() == 7,
        "complex"@[0] == 'c',
        "complex"@[1] == 'o',
        "complex"@[2] == 'm',
        "complex"@[3] == 'p',
        "complex"@[4] == 'l',
        "complex"@[5] == 'e',
        "complex"@[6] == 'x',
{
    reveal_strlit("complex");
}

proof fn lemma_key_encoding()
    ensures
        "encoding"@.len() == 8,
        "encoding"@[0] == 'e',
        "encoding"@[1] == 'n',
        "encoding"@[2] == 'c',
        "encoding"@[3] == 'o',
        "encoding"@[4] == 'd',
        "encoding"@[5] == 'i',
        "encoding"@[6] == 'n',
        "encoding"@[7] == 'g',
{
    reveal_strlit("encoding");
}

proof fn lemma_key_compression()
    ensures
        "compression"@.len() == 11,
        "compression"@[0] == 'c',
        "compression"@[1] == 'o',
        "compression"@[2] == 'm',
        "compression"@[3] == 'p',
        "compression"@[4] == 'r',
        "compression"@[5] == 'e',
        "compression"@[6] == 's',
        "compression"@[7] == 's',
        "compression"@[8] == 'i',
        "compression"@[9] == 'o',
        "compression"@[10] == 'n',
{
    reveal_strlit("compression");
}

proof fn lemma_key_offset()
    ensures
        "offset"@.len() == 6,
        "offset"@[0] == 'o',
        "offset"@[1] == 'f',
        "offset"@[2] == 'f',
        "offset"@[3] == 's',
        "offset"@[4] == 'e',
        "offset"@[5] == 't',
{
    reveal_strlit("offset");
}

proof fn lemma_key_csize()
    ensures
        "csize"@.len() == 5,
        "csize"@[0] == 'c',
        "csize"@[1] == 's',
        "csize"@[2] == 'i',
        "csize"@[3] == 'z',
        "csize"@[4] == 'e',
{
    reveal_strlit("csize");
}

proof fn lemma_key_usize()
    ensures
        "usize"@.len() == 5,
        "usize"@[0] == 'u',
        "usize"@[1] == 's',
        "usize"@[2] == 'i',
        "usize"@[3] == 'z',
        "usize"@[4] == 'e',
{
    reveal_strlit("usize");
}

proof fn lemma_key_crc32()
    ensures
        "crc32"@.len() == 5,
        "crc32"@[0] == 'c',
        "crc32"@[1] == 'r',
        "crc32"@[2] == 'c',
        "crc32"@[3] == '3',
        "crc32"@[4] == '2',
{
    reveal_strlit("crc32");
}

proof fn lemma_key_format()
    ensures
        "format"@.len() == 6,
        "format"@[0] == 'f',
        "format"@[1] == 'o',
        "format"@[2] == 'r',
        "format"@[3] == 'm',
        "format"@[4] == 'a',
        "format"@[5] == 't',
{
    reveal_strlit("format");
}

proof fn lemma_key_magic()
    ensures
        "magic"@.len() == 5,
        "magic"@[0] == 'm',
        "magic"@[1] == 'a',
        "magic"@[2] == 'g',
        "magic"@[3] == 'i',
        "magic"@[4] == 'c',
{
    reveal_strlit("magic");
}

proof fn lemma_key_version()
    ensures
        "version"@.len() == 7,
        "version"@[0] == 'v',
        "version"@[1] == 'e',
        "version"@[2] == 'r',
        "version"@[3] == 's',
        "version"@[4] == 'i',
        "version"@[5] == 'o',
        "version"@[6] == 'n',
{
    reveal_strlit("version");
}

proof fn lemma_key_endianness()
    ensures
        "endianness"@.len() == 10,
        "endianness"@[0] == 'e',
        "endianness"@[1] == 'n',
        "endianness"@[2] == 'd',
        "endianness"@[3] == 'i',
        "endianness"@[4] == 'a',
        "endianness"@[5] == 'n',
        "endianness"@[6] == 'n',
        "endianness"@[7] == 'e',
        "endianness"@[8] == 's',
        "endianness"@[9] == 's',
{
    reveal_strlit("endianness");
}

proof fn lemma_key_order()
    ensures
        "order"@.len() == 5,
        "order"@[0] == 'o',
        "order"@[1] == 'r',
        "order"@[2] == 'd',
        "order"@[3] == 'e',
        "order"@[4] == 'r',
{
    reveal_strlit("order");
}

proof fn lemma_key_root()
    ensures
        "root"@.len() == 4,
        "root"@[0] == 'r',
        "root"@[1] == 'o',
        "root"@[2] == 'o',
        "root"@[3] == 't',
{
    reveal_strlit("root");
}

proof fn lemma_key_created_utc()
    ensures
        "created_utc"@.len() == 11,
        "created_utc"@[0] == 'c',
        "created_utc"@[1] == 'r',
        "created_utc"@[2] == 'e',
        "created_utc"@[3] == 'a',
        "created_utc"@[4] == 't',
        "created_utc"@[5] == 'e',
        "created_utc"@[6] == 'd',
        "created_utc"@[7] == '_',
        "created_utc"@[8] == 'u',
        "created_utc"@[9] == 't',
        "created_utc"@[10] == 'c',
{
    reveal_strlit("created_utc");
}

proof fn lemma_key_producer_version()
    ensures
        "producer_version"@.len() == 16,
        "producer_version"@[0] == 'p',
        "producer_version"@[1] == 'r',
        "producer_version"@[2] == 'o',
        "producer_version"@[3] == 'd',
        "producer_version"@[4] == 'u',
        "producer_version"@[5] == 'c',
        "producer_version"@[6] == 'e',
        "producer_version"@[7] == 'r',
        "producer_version"@[8] == '_',
        "producer_version"@[9] == 'v',
        "producer_version"@[10] == 'e',
        "producer_version"@[11] == 'r',
        "producer_version"@[12] == 's',
        "producer_version"@[13] == 'i',
        "producer_version"@[14] == 'o',
        "producer_version"@[15] == 'n',
{
    reveal_strlit("producer_version");
}

proof fn lemma_key_fields()
    ensures
        "fields"@.len() == 6,
        "fields"@[0] == 'f',
        "fields"@[1] == 'i',
        "fields"@[2] == 'e',
        "fields"@[3] == 'l',
        "fields"@[4] == 'd',
        "fields"@[5] == 's',
{
    reveal_strlit("fields");
}

proof fn lemma_key_payload_start()
    ensures
        "payload_start"@.len() == 13,
        "payload_start"@[0] == 'p',
        "payload_start"@[1] == 'a',
        "payload_start"@[2] == 'y',
        "payload_start"@[3] == 'l',
        "payload_start"@[4] == 'o',
        "payload_start"@[5] == 'a',
        "payload_start"@[6] == 'd',
        "payload_start"@[7] == '_',
        "payload_start"@[8] == 's',
        "payload_start"@[9] == 't',
        "payload_start"@[10] == 'a',
        "payload_start"@[11] == 'r',
        "payload_start"@[12] == 't',
{
    reveal_strlit("payload_start");
}

proof fn lemma_key_file_size()
    ensures
        "file_size"@.len() == 9,
        "file_size"@[0] == 'f',
        "file_size"@[1] == 'i',
        "file_size"@[2] == 'l',
        "file_size"@[3] == 'e',
        "file_size"@[4] == '_',
        "file_size"@[5] == 's',
        "file_size"@[6] == 'i',
        "file_size"@[7] == 'z',
        "file_size"@[8] == 'e',
{
    reveal_strlit("file_size");
}

proof fn lemma_key_header_crc32_hex()
    ensures
        "header_crc32_hex"@.len() == 16,
        "header_crc32_hex"@[0] == 'h',
        "header_crc32_hex"@[1] == 'e',
        "header_crc32_hex"@[2] == 'a',
        "header_crc32_hex"@[3] == 'd',
        "header_crc32_hex"@[4] == 'e',
        "header_crc32_hex"@[5] == 'r',
        "header_crc32_hex"@[6] == '_',
        "header_crc32_hex"@[7] == 'c',
        "header_crc32_hex"@[8] == 'r',
        "header_crc32_hex"@[9] == 'c',
        "header_crc32_hex"@[10] == '3',
        "header_crc32_hex"@[11] == '2',
        "header_crc32_hex"@[12] == '_',
        "header_crc32_hex"@[13] == 'h',
        "header_crc32_hex"@[14] == 'e',
        "header_crc32_hex"@[15] == 'x',
{
    reveal_strlit("header_crc32_hex");
}

/// The keys of a field are different words.
proof fn lemma_field_keys_differ()
    ensures
        "name"@ != "kind"@,
        "name"@ != "class"@,
        "kind"@ != "class"@,
        "name"@ != "shape"@,
        "kind"@ != "shape"@,
        "class"@ != "shape"@,
        "name"@ != "complex"@,
        "kind"@ != "complex"@,
        "class"@ != "complex"@,
        "shape"@ != "complex"@,
        "name"@ != "encoding"@,
        "kind"@ != "encoding"@,
        "class"@ != "encoding"@,
        "shape"@ != "encoding"@,
        "complex"@ != "encoding"@,
        "name"@ != "compression"@,
        "kind"@ != "compression"@,
        "class"@ != "compression"@,
        "shape"@ != "compression"@,
        "complex"@ != "compression"@,
        "encoding"@ != "compression"@,
        "name"@ != "offset"@,
        "kind"@ != "offset"@,
        "class"@ != "offset"@,
        "shape"@ != "offset"@,
        "complex"@ != "offset"@,
        "encoding"@ != "offset"@,
        "compression"@ != "offset"@,
        "name"@ != "csize"@,
        "kind"@ != "csize"@,
        "class"@ != "csize"@,
        "shape"@ != "csize"@,
        "complex"@ != "csize"@,
        "encoding"@ != "csize"@,
        "compression"@ != "csize"@,
        "offset"@ != "csize"@,
        "name"@ != "usize"@,
        "kind"@ != "usize"@,
        "class"@ != "usize"@,
        "shape"@ != "usize"@,
        "complex"@ != "usize"@,
        "encoding"@ != "usize"@,
        "compression"@ != "usize"@,
        "offset"@ != "usize"@,
        "csize"@ != "usize"@,
        "name"@ != "crc32"@,
        "kind"@ != "crc32"@,
        "class"@ != "crc32"@,
        "shape"@ != "crc32"@,
        "complex"@ != "crc32"@,
        "encoding"@ != "crc32"@,
        "compression"@ != "crc32"@,
        "offset"@ != "crc32"@,
        "csize"@ != "crc32"@,
        "usize"@ != "crc32"@,
{
    lemma_key_name();
    lemma_key_kind();
    lemma_key_class();
    lemma_key_shape();
    lemma_key_complex();
    lemma_key_encoding();
    lemma_key_compression();
    lemma_key_offset();
    lemma_key_csize();
    lemma_key_usize();
    lemma_key_crc32();
}

/// The keys of the header are different words.
proof fn lemma_header_keys_differ()
    ensures
        "format"@ != "magic"@,
        "format"@ != "version"@,
        "magic"@ != "version"@,
        "format"@ != "endianness"@,
        "magic"@ != "endianness"@,
        "version"@ != "endianness"@,
        "format"@ != "order"@,
        "magic"@ != "order"@,
        "version"@ != "order"@,
        "endianness"@ != "order"@,
        "format"@ != "root"@,
        "magic"@ != "root"@,
        "version"@ != "root"@,
        "endianness"@ != "root"@,
        "order"@ != "root"@,
        "format"@ != "created_utc"@,
        "magic"@ != "created_utc"@,
        "version"@ != "created_utc"@,
        "endianness"@ != "created_utc"@,
        "order"@ != "created_utc"@,
        "root"@ != "created_utc"@,
        "format"@ != "producer_version"@,
        "magic"@ != "producer_version"@,
        "version"@ != "producer_version"@,
        "endianness"@ != "producer_version"@,
        "order"@ != "producer_version"@,
        "root"@ != "producer_version"@,
        "created_utc"@ != "producer_version"@,
        "format"@ != "fields"@,
        "magic"@ != "fields"@,
        "version"@ != "fields"@,
        "endianness"@ != "fields"@,
        "order"@ != "fields"@,
        "root"@ != "fields"@,
        "created_utc"@ != "fields"@,
        "producer_version"@ != "fields"@,
        "format"@ != "payload_start"@,
        "magic"@ != "payload_start"@,
        "version"@ != "payload_start"@,
        "endianness"@ != "payload_start"@,
        "order"@ != "payload_start"@,
        "root"@ != "payload_start"@,
        "created_utc"@ != "payload_start"@,
        "producer_version"@ != "payload_start"@,
        "fields"@ != "payload_start"@,
        "format"@ != "file_size"@,
        "magic"@ != "file_size"@,
        "version"@ != "file_size"@,
        "endianness"@ != "file_size"@,
        "order"@ != "file_size"@,
        "root"@ != "file_size"@,
        "created_utc"@ != "file_size"@,
        "producer_version"@ != "file_size"@,
        "fields"@ != "file_size"@,
        "payload_start"@ != "file_size"@,
        "format"@ != "header_crc32_hex"@,
        "magic"@ != "header_crc32_hex"@,
        "version"@ != "header_crc32_hex"@,
        "endianness"@ != "header_crc32_hex"@,
        "order"@ != "header_crc32_hex"@,
        "root"@ != "header_crc32_hex"@,
        "created_utc"@ != "header_crc32_hex"@,
        "producer_version"@ != "header_crc32_hex"@,
        "fields"@ != "header_crc32_hex"@,
        "payload_start"@ != "header_crc32_hex"@,
        "file_size"@ != "header_crc32_hex"@,
{
    lemma_key_format();
    lemma_key_magic();
    lemma_key_version();
    lemma_key_endianness();
    lemma_key_order();
    lemma_key_root();
    lemma_key_created_utc();
    lemma_key_producer_version();
    lemma_key_fields();
    lemma_key_payload_start();
    lemma_key_file_size();
    lemma_key_header_crc32_hex();
}

/// Whether no member holds a number with a sign or a fraction.
pub open spec fn all_plain(members: Seq<(Seq<char>, JsonView)>) -> bool {
    forall|i: int| 0 <= i < members.len() ==> plain((#[trigger] members[i]).1)
}

/// Appends a member to the members of a record.
fn put(members: &mut Vec<(String, JsonNode)>, key: &str, node: JsonNode)
    ensures
        members_view(final(members)@) == members_view(old(members)@).push((key@, node@)),
        all_plain(members_view(old(members)@)) && plain(node@) ==> all_plain(
            members_view(final(members)@),
        ),
{
    let ghost k = key@;
    let ghost n = node@;
    members.push((String::from_str(key), node));
    proof {
        assert(members@.drop_last() =~= old(members)@);
        assert(members_view(members@) == members_view(members@.drop_last()).push(
            (members@.last().0@, members@.last().1.view()),
        ));
    }
}

/// The document of a list of unsigned numbers.
fn numbers_node(numbers: &Vec<u64>) -> (node: JsonNode)
    ensures
        node@ == JsonView::List(numbers@.map_values(|d: u64| JsonView::Unsigned(d))),
        plain(node@),
{
    let mut items: Vec<JsonNode> = Vec::new();
    let mut i: usize = 0;
    while i < numbers.len()
        invariant
            0 <= i <= numbers.len(),
            items.len() == i,
            forall|j: int| 0 <= j < i ==> items@[j]@ == JsonView::Unsigned(numbers@[j]),
        decreases numbers.len() - i,
    {
        items.push(JsonNode::Unsigned(numbers[i]));
        i = i + 1;
    }
    proof {
        lemma_nodes_view(items@);
        let docs = nodes_view(items@);
        assert(docs =~= numbers@.map_values(|d: u64| JsonView::Unsigned(d)));
        assert forall|i: int| 0 <= i < docs.len() implies plain(#[trigger] docs[i]) by {}
    }
    JsonNode::List(items)
}

/// The document of a field description.
pub fn field_document(f: &FieldMeta) -> (node: JsonNode)
    ensures
        node@ == field_doc(f@),
        plain(node@),
{
    let mut m: Vec<(String, JsonNode)> = Vec::new();
    assert(members_view(m@) =~= Seq::empty());
    assert(all_plain(members_view(m@)));
    put(&mut m, "name", JsonNode::Text(f.name.clone()));
    put(&mut m, "kind", JsonNode::Text(f.kind.clone()));
    put(&mut m, "class", JsonNode::Text(f.class_name.clone()));
    put(&mut m, "shape", numbers_node(&f.shape));
    put(&mut m, "complex", JsonNode::Bool(f.complex));
    put(&mut m, "encoding", JsonNode::Text(f.encoding.clone()));
    put(&mut m, "compression", JsonNode::Text(f.compression.clone()));
    put(&mut m, "offset", JsonNode::Unsigned(f.offset));
    put(&mut m, "csize", JsonNode::Unsigned(f.csize));
    put(&mut m, "usize", JsonNode::Unsigned(f.usize));
    put(&mut m, "crc32", JsonNode::Unsigned(f.crc32 as u64));
    proof {
        lemma_field_keys_differ();
        let ms = members_view(m@);
        assert(ms.len() == 11);
        assert(ms[0].0 == "name"@);
        assert(ms[1].0 == "kind"@);
        assert(ms[2].0 == "class"@);
        assert(ms[3].0 == "shape"@);
        assert(ms[4].0 == "complex"@);
        assert(ms[5].0 == "encoding"@);
        assert(ms[6].0 == "compression"@);
        assert(ms[7].0 == "offset"@);
        assert(ms[8].0 == "csize"@);
        assert(ms[9].0 == "usize"@);
        assert(ms[10].0 == "crc32"@);
        assert(names_differ(ms));
    }
    JsonNode::Record(m)
}

/// The document of a header.
pub fn header_document(h: &Header) -> (node: JsonNode)
    ensures
        node@ == header_doc(h@),
        plain(node@),
{
    let mut items: Vec<JsonNode> = Vec::new();
    let mut i: usize = 0;
    while i < h.fields.len()
        invariant
            0 <= i <= h.fields.len(),
            items.len() == i,
            forall|j: int| 0 <= j < i ==> items@[j]@ == field_doc(h.fields@[j]@),
            forall|j: int| 0 <= j < i ==> plain(items@[j]@),
        decreases h.fields.len() - i,
    {
        items.push(field_document(&h.fields[i]));
        i = i + 1;
    }
    let list = JsonNode::List(items);
    proof {
        lemma_nodes_view(items@);
        let docs = nodes_view(items@);
        assert(docs =~= h@.fields.map_values(|f: FieldMetaView| field_doc(f)));
        assert forall|i: int| 0 <= i < docs.len() implies plain(#[trigger] docs[i]) by {}
        assert(plain(list@));
    }
    let mut m: Vec<(String, JsonNode)> = Vec::new();
    assert(members_view(m@) =~= Seq::empty());
    assert(all_plain(members_view(m@)));
    put(&mut m, "format", JsonNode::Text(h.format.clone()));
    put(&mut m, "magic", JsonNode::Text(h.magic.clone()));
    put(&mut m, "version", JsonNode::Unsigned(h.version as u64));
    put(&mut m, "endianness", JsonNode::Text(h.endianness.clone()));
    put(&mut m, "order", JsonNode::Text(h.order.clone()));
    put(&mut m, "root", JsonNode::Text(h.root.clone()));
    put(&mut m, "created_utc", JsonNode::Text(h.created_utc.clone()));
    put(&mut m, "producer_version", JsonNode::Text(h.producer_version.clone()));
    put(&mut m, "fields", list);
    put(&mut m, "payload_start", JsonNode::Unsigned(h.payload_start));
    put(&mut m, "file_size", JsonNode::Unsigned(h.file_size));
    put(&mut m, "header_crc32_hex", JsonNode::Text(h.header_crc32_hex.clone()));
    proof {
        lemma_header_keys_differ();
        let ms = members_view(m@);
        assert(ms.len() == 12);
        assert(ms[0].0 == "format"@);
        assert(ms[1].0 == "magic"@);
        assert(ms[2].0 == "version"@);
        assert(ms[3].0 == "endianness"@);
        assert(ms[4].0 == "order"@);
        assert(ms[5].0 == "root"@);
        assert(ms[6].0 == "created_utc"@);
        assert(ms[7].0 == "producer_version"@);
        assert(ms[8].0 == "fields"@);
        assert(ms[9].0 == "payload_start"@);
        assert(ms[10].0 == "file_size"@);
        assert(ms[11].0 == "header_crc32_hex"@);
        assert(names_differ(ms));
    }
    JsonNode::Record(m)
}

/// The whole number nearest to the double with these bits, within `u64`.
pub fn round_float_bits(bits: u64) -> (r: u64)
    ensures
        r == float_to_u64(bits),
{
    let exponent = (bits >> 52) & 0x7ff;
    let fraction = bits & 0xf_ffff_ffff_ffff;
    let significand = fraction | 0x10_0000_0000_0000;
    if bits >> 63 != 0 {
        0
    } else if exponent == 0x7ff {
        if fraction == 0 {
            u64::MAX
        } else {
            0
        }
    } else if exponent >= 1087 {
        u64::MAX
    } else if exponent >= 1075 {
        significand << (exponent - 1075)
    } else if exponent >= 1022 {
        let shift = 1075 - exponent;
        let whole = significand >> shift;
        let half = (significand >> (shift - 1)) & 1;
        assert(whole + half <= u64::MAX) by (bit_vector)
            requires
                whole == significand >> shift,
                half == (significand >> ((shift - 1) as u64)) & 1,
                1 <= shift <= 53,
        ;
        whole + half
    } else {
        0
    }
}

/// The number that a document stands for where an unsigned number is
/// expected.
pub fn node_to_u64(node: &JsonNode) -> (r: u64)
    ensures
        r == coerce_u64(node@),
{
    match node {
        JsonNode::Unsigned(u) => *u,
        JsonNode::Signed(i) => if *i >= 0 {
            *i as u64
        } else {
            0
        },
        JsonNode::Float(bits) => round_float_bits(*bits),
        JsonNode::Text(s) => match parse_decimal_u64(s.as_str()) {
            Some(v) => v,
            None => 0,
        },
        _ => 0,
    }
}

/// The number that a document stands for where a 32-bit number is
/// expected.
pub fn node_to_u32(node: &JsonNode) -> (r: u32)
    ensures
        r == coerce_u32(node@),
{
    match node {
        JsonNode::Text(s) => match parse_decimal_u64(s.as_str()) {
            Some(v) => if v <= 0xffff_ffff {
                v as u32
            } else {
                0
            },
            None => 0,
        },
        _ => {
            let v = node_to_u64(node);
            if v > 0xffff_ffff {
                0xffff_ffff
            } else {
                v as u32
            }
        },
    }
}

/// The value of the first member named `key`.
fn find_member<'a>(members: &'a Vec<(String, JsonNode)>, key: &str) -> (r: Option<&'a JsonNode>)
    ensures
        match r {
            Some(n) => member_get(members_view(members@), key@) == Some(n@),
            None => member_get(members_view(members@), key@) is None,
        },
{
    let ghost all = members_view(members@);
    proof {
        lemma_members_view(members@);
        assert(all.skip(0) =~= all);
    }
    let mut i: usize = 0;
    while i < members.len()
        invariant
            0 <= i <= members.len(),
            all == members_view(members@),
            all.len() == members.len(),
            forall|j: int|
                0 <= j < members.len() ==> (#[trigger] all[j]) == (
                    members@[j].0@,
                    members@[j].1@,
                ),
            member_get(all, key@) == member_get(all.skip(i as int), key@),
        decreases members.len() - i,
    {
        proof {
            let rest = all.skip(i as int);
            assert(rest[0] == all[i as int]);
            assert(rest.drop_first() =~= all.skip(i + 1));
        }
        if same_text(members[i].0.as_str(), key) {
            return Some(&members[i].1);
        }
        i = i + 1;
    }
    proof {
        assert(all.skip(i as int).len() == 0);
    }
    None
}

/// The error for a key of a header that is absent or holds a value of
/// another type: a `Json` error whose message names the key.
fn missing(key: &str) -> (e: GbfError)
    ensures
        e matches GbfError::Json(m) && m@ == "missing or invalid field `"@ + key@ + "`"@
            && crate::error::mentions(m@, key@),
{
    proof {
        crate::error::lemma_mentions("missing or invalid field `"@, key@, "`"@);
    }
    GbfError::Json(concat3("missing or invalid field `", key, "`"))
}

fn get_required_text(members: &Vec<(String, JsonNode)>, key: &str) -> (r: Result<String, GbfError>)
    ensures
        match r {
            Ok(s) => required_text(members_view(members@), key@) == Some(s@),
            Err(e) => required_text(members_view(members@), key@) is None && e is Json,
        },
{
    match find_member(members, key) {
        Some(JsonNode::Text(s)) => Ok(s.clone()),
        _ => Err(missing(key)),
    }
}

fn get_optional_text(members: &Vec<(String, JsonNode)>, key: &str) -> (r: Result<String, GbfError>)
    ensures
        match r {
            Ok(s) => optional_text(members_view(members@), key@) == Some(s@),
            Err(e) => optional_text(members_view(members@), key@) is None && e is Json,
        },
{
    match find_member(members, key) {
        None => Ok(String::new()),
        Some(JsonNode::Text(s)) => Ok(s.clone()),
        Some(_) => Err(missing(key)),
    }
}

fn get_optional_bool(members: &Vec<(String, JsonNode)>, key: &str) -> (r: Result<bool, GbfError>)
    ensures
        match r {
            Ok(b) => optional_bool(members_view(members@), key@) == Some(b),
            Err(e) => optional_bool(members_view(members@), key@) is None && e is Json,
        },
{
    match find_member(members, key) {
        None => Ok(false),
        Some(JsonNode::Bool(b)) => Ok(*b),
        Some(_) => Err(missing(key)),
    }
}

fn get_loose_u64(members: &Vec<(String, JsonNode)>, key: &str) -> (r: u64)
    ensures
        r == loose_u64(members_view(members@), key@),
{
    match find_member(members, key) {
        None => 0,
        Some(n) => node_to_u64(n),
    }
}

fn get_loose_u32(members: &Vec<(String, JsonNode)>, key: &str) -> (r: u32)
    ensures
        r == loose_u32(members_view(members@), key@),
{
    match find_member(members, key) {
        None => 0,
        Some(n) => node_to_u32(n),
    }
}

fn get_loose_shape(members: &Vec<(String, JsonNode)>, key: &str) -> (r: Vec<u64>)
    ensures
        r@ == loose_shape(members_view(members@), key@),
{
    let mut out: Vec<u64> = Vec::new();
    match find_member(members, key) {
        Some(JsonNode::List(items)) => {
            proof {
                lemma_nodes_view(items@);
            }
            let mut i: usize = 0;
            while i < items.len()
                invariant
                    0 <= i <= items.len(),
                    out.len() == i,
                    forall|j: int| 0 <= j < i ==> out@[j] == coerce_u64(items@[j]@),
                decreases items.len() - i,
            {
                out.push(node_to_u64(&items[i]));
                i = i + 1;
            }
            assert(out@ =~= nodes_view(items@).map_values(|d: JsonView| coerce_u64(d)));
        },
        _ => {
            assert(out@ =~= Seq::<u64>::empty());
        },
    }
    out
}

/// Reads a field description from its document.
pub fn field_from_document(node: &JsonNode) -> (r: Result<FieldMeta, GbfError>)
    ensures
        match r {
            Ok(f) => field_of_doc(node@) == Some(f@),
            Err(e) => field_of_doc(node@) is None && e is Json,
        },
{
    match node {
        JsonNode::Record(m) => {
            let name = get_required_text(m, "name")?;
            let kind = get_required_text(m, "kind")?;
            let class_name = get_required_text(m, "class")?;
            let complex = get_optional_bool(m, "complex")?;
            let encoding = get_optional_text(m, "encoding")?;
            let compression = get_optional_text(m, "compression")?;
            Ok(
                FieldMeta {
                    name,
                    kind,
                    class_name,
                    shape: get_loose_shape(m, "shape"),
                    complex,
                    encoding,
                    compression,
                    offset: get_loose_u64(m, "offset"),
                    csize: get_loose_u64(m, "csize"),
                    usize: get_loose_u64(m, "usize"),
                    crc32: get_loose_u32(m, "crc32"),
                },
            )
        },
        _ => Err(GbfError::Json(String::from_str("a field is not a record"))),
    }
}

/// Where the first documents stand for no fields, neither do all.
pub proof fn lemma_fields_prefix_fails(items: Seq<JsonView>, i: int)
    requires
        0 <= i <= items.len(),
        fields_of_docs(items.take(i)) is None,
    ensures
        fields_of_docs(items) is None,
    decreases items.len() - i,
{
    if i < items.len() {
        assert(items.take(i + 1).drop_last() =~= items.take(i));
        lemma_fields_prefix_fails(items, i + 1);
    } else {
        assert(items.take(i) =~= items);
    }
}

fn get_fields(members: &Vec<(String, JsonNode)>) -> (r: Result<Vec<FieldMeta>, GbfError>)
    ensures
        match r {
            Ok(f) => fields_of(members_view(members@)) == Some(fields_view(f@)),
            Err(e) => fields_of(members_view(members@)) is None && e is Json,
        },
{
    match find_member(members, "fields") {
        Some(JsonNode::List(items)) => {
            let ghost docs = nodes_view(items@);
            proof {
                lemma_nodes_view(items@);
            }
            let mut out: Vec<FieldMeta> = Vec::new();
            let mut i: usize = 0;
            assert(fields_view(out@) =~= Seq::<FieldMetaView>::empty());
            while i < items.len()
                invariant
                    0 <= i <= items.len(),
                    docs == nodes_view(items@),
                    docs.len() == items.len(),
                    member_get(members_view(members@), "fields"@) == Some(JsonView::List(docs)),
                    forall|j: int| 0 <= j < items.len() ==> (#[trigger] docs[j]) == items@[j]@,
                    fields_of_docs(docs.take(i as int)) == Some(fields_view(out@)),
                decreases items.len() - i,
            {
                proof {
                    assert(docs.take(i + 1).drop_last() =~= docs.take(i as int));
                    assert(docs.take(i + 1).last() == docs[i as int]);
                }
                let ghost before = fields_view(out@);
                match field_from_document(&items[i]) {
                    Ok(f) => {
                        out.push(f);
                        assert(fields_view(out@) =~= before.push(f@));
                    },
                    Err(e) => {
                        proof {
                            lemma_fields_prefix_fails(docs, i + 1);
                        }
                        return Err(e);
                    },
                }
                i = i + 1;
            }
            proof {
                assert(docs.take(i as int) =~= docs);
            }
            Ok(out)
        },
        _ => Err(missing("fields")),
    }
}

fn get_version(members: &Vec<(String, JsonNode)>) -> (r: Result<u32, GbfError>)
    ensures
        match r {
            Ok(v) => version_of(members_view(members@)) == Some(v),
            Err(e) => version_of(members_view(members@)) is None && e is Json,
        },
{
    match find_member(members, "version") {
        Some(JsonNode::Unsigned(u)) => {
            if *u <= 0xffff_ffff {
                Ok(*u as u32)
            } else {
                Err(missing("version"))
            }
        },
        _ => Err(missing("version")),
    }
}

/// Reads a header from its document.
///
/// Succeeds exactly where [`header_of_doc`] finds a header, and fails with
/// a JSON error where it finds none.
pub fn header_from_document(node: &JsonNode) -> (r: Result<Header, GbfError>)
    ensures
        match r {
            Ok(h) => header_of_doc(node@) == Some(h@),
            Err(e) => header_of_doc(node@) is None && e is Json,
        },
{
    match node {
        JsonNode::Record(m) => {
            let format = get_required_text(m, "format")?;
            let magic = get_required_text(m, "magic")?;
            let version = get_version(m)?;
            let endianness = get_optional_text(m, "endianness")?;
            let order = get_optional_text(m, "order")?;
            let root = get_optional_text(m, "root")?;
            let created_utc = get_optional_text(m, "created_utc")?;
            let producer_version = get_optional_text(m, "producer_version")?;
            let fields = get_fields(m)?;
            let header_crc32_hex = get_optional_text(m, "header_crc32_hex")?;
            Ok(
                Header {
                    format,
                    magic,
                    version,
                    endianness,
                    order,
                    root,
                    created_utc,
                    producer_version,
                    fields,
                    payload_start: get_loose_u64(m, "payload_start"),
                    file_size: get_loose_u64(m, "file_size"),
                    header_crc32_hex,
                },
            )
        },
        _ => Err(GbfError::Json(String::from_str("the header is not a record"))),
    }
}

/// The header that a header text stands for, or `None` where the text is
/// not the JSON document of a header.
pub open spec fn header_of_text(text: Seq<char>) -> Option<HeaderView> {
    match crate::json::json_parsed(text) {
        Some(doc) => header_of_doc(doc),
        None => None,
    }
}

/// Reads a header from its JSON text.
pub fn parse_header(text: &str) -> (r: Result<Header, GbfError>)
    ensures
        match r {
            Ok(h) => header_of_text(text@) == Some(h@),
            Err(e) => header_of_text(text@) is None && e is Json,
        },
{
    let node = parse_json(text)?;
    header_from_document(&node)
}

/// The text of a header: its document, on one line or laid out over lines.
pub open spec fn header_text(h: HeaderView, pretty: bool) -> Seq<char> {
    crate::json::json_text(header_doc(h), pretty)
}

/// Writes a header as JSON text.
pub fn render_header(h: &Header, pretty: bool) -> (text: String)
    ensures
        text@ == header_text(h@, pretty),
{
    let node = header_document(h);
    crate::json::render_json(&node, pretty)
}

/// In a record without two members of one name, each member is found under
/// its name.
pub proof fn lemma_member_at(members: Seq<(Seq<char>, JsonView)>, i: int)
    requires
        names_differ(members),
        0 <= i < members.len(),
    ensures
        member_get(members, members[i].0) == Some(members[i].1),
    decreases members.len(),
{
    if i > 0 {
        let rest = members.drop_first();
        assert forall|a: int, b: int| 0 <= a < b < rest.len() implies (#[trigger] rest[a]).0 != (
        #[trigger] rest[b]).0 by {
            assert(rest[a] == members[a + 1] && rest[b] == members[b + 1]);
        }
        assert(rest[i - 1] == members[i]);
        lemma_member_at(rest, i - 1);
        assert(members[0].0 != members[i].0);
    }
}

/// The document of a field description is read back as that description.
pub proof fn lemma_field_doc_round_trip(f: FieldMetaView)
    ensures
        field_of_doc(field_doc(f)) == Some(f),
{
    lemma_field_keys_differ();
    let ms = field_doc(f)->Record_0;
    assert(ms.len() == 11);
    assert(ms[0].0 == "name"@);
    assert(ms[1].0 == "kind"@);
    assert(ms[2].0 == "class"@);
    assert(ms[3].0 == "shape"@);
    assert(ms[4].0 == "complex"@);
    assert(ms[5].0 == "encoding"@);
    assert(ms[6].0 == "compression"@);
    assert(ms[7].0 == "offset"@);
    assert(ms[8].0 == "csize"@);
    assert(ms[9].0 == "usize"@);
    assert(ms[10].0 == "crc32"@);
    assert(names_differ(ms));
    lemma_member_at(ms, 0);
    lemma_member_at(ms, 1);
    lemma_member_at(ms, 2);
    lemma_member_at(ms, 3);
    lemma_member_at(ms, 4);
    lemma_member_at(ms, 5);
    lemma_member_at(ms, 6);
    lemma_member_at(ms, 7);
    lemma_member_at(ms, 8);
    lemma_member_at(ms, 9);
    lemma_member_at(ms, 10);
    let items = f.shape.map_values(|d: u64| JsonView::Unsigned(d));
    assert(ms[3].1 == JsonView::List(items));
    assert(items.map_values(|d: JsonView| coerce_u64(d)) =~= f.shape);
    assert(ms[10].1 == JsonView::Unsigned(f.crc32 as u64));
    let got = field_of_doc(field_doc(f))->Some_0;
    assert(got.shape == f.shape);
    assert(got == f);
}

/// The documents of a list of field descriptions are read back as that
/// list.
pub proof fn lemma_field_docs_round_trip(fields: Seq<FieldMetaView>)
    ensures
        fields_of_docs(fields.map_values(|f: FieldMetaView| field_doc(f))) == Some(fields),
    decreases fields.len(),
{
    let docs = fields.map_values(|f: FieldMetaView| field_doc(f));
    if fields.len() > 0 {
        let front = fields.drop_last();
        lemma_field_docs_round_trip(front);
        lemma_field_doc_round_trip(fields.last());
        assert(docs.drop_last() =~= front.map_values(|f: FieldMetaView| field_doc(f)));
        assert(docs.last() == field_doc(fields.last()));
        assert(front.push(fields.last()) =~= fields);
    } else {
        assert(fields =~= Seq::<FieldMetaView>::empty());
    }
}

/// The document of a header is read back as that header: the schema loses
/// nothing.
pub proof fn lemma_header_doc_round_trip(h: HeaderView)
    ensures
        header_of_doc(header_doc(h)) == Some(h),
{
    lemma_header_keys_differ();
    lemma_field_docs_round_trip(h.fields);
    let ms = header_doc(h)->Record_0;
    assert(ms.len() == 12);
    assert(ms[0].0 == "format"@);
    assert(ms[1].0 == "magic"@);
    assert(ms[2].0 == "version"@);
    assert(ms[3].0 == "endianness"@);
    assert(ms[4].0 == "order"@);
    assert(ms[5].0 == "root"@);
    assert(ms[6].0 == "created_utc"@);
    assert(ms[7].0 == "producer_version"@);
    assert(ms[8].0 == "fields"@);
    assert(ms[9].0 == "payload_start"@);
    assert(ms[10].0 == "file_size"@);
    assert(ms[11].0 == "header_crc32_hex"@);
    assert(names_differ(ms));
    lemma_member_at(ms, 0);
    lemma_member_at(ms, 1);
    lemma_member_at(ms, 2);
    lemma_member_at(ms, 3);
    lemma_member_at(ms, 4);
    lemma_member_at(ms, 5);
    lemma_member_at(ms, 6);
    lemma_member_at(ms, 7);
    lemma_member_at(ms, 8);
    lemma_member_at(ms, 9);
    lemma_member_at(ms, 10);
    lemma_member_at(ms, 11);
    assert(ms[2].1 == JsonView::Unsigned(h.version as u64));
    assert(ms[8].1 == JsonView::List(h.fields.map_values(|f: FieldMetaView| field_doc(f))));
    let got = header_of_doc(header_doc(h))->Some_0;
    assert(got == h);
}

} // verus!
