//! What an inspector of containers shows: how far a list is scrolled and
//! which line is selected, how wide the elements of a class are, and
//! shapes and integer elements as text.
use crate::header::{fields_view, FieldMeta, FieldMetaView};
use crate::layout::{first_named, lemma_first_named};
use crate::le::{u16_at, u16_of_le, u32_at, u32_of_le, u64_at, u64_of_le};
use crate::text::{decimal_of, decimal_text, hex_digit, hex_digit_text, same_text};
use vstd::prelude::*;
use vstd::string::StringExecFns;

verus! {

/// The scroll offset of a list of `content_len` lines in a window of
/// `viewport_h` lines: none where the window has no lines or holds the
/// whole list, else the offset asked for, and at most the offset that shows
/// the last line at the bottom. The length of the list counts modulo 65536.
pub open spec fn clamped_scroll(scroll: u16, content_len: usize, viewport_h: u16) -> u16 {
    let len = content_len as u16;
    if viewport_h == 0 || len <= viewport_h {
        0
    } else if scroll < len - viewport_h {
        scroll
    } else {
        (len - viewport_h) as u16
    }
}

/// The scroll offset of a list in a window, kept within the list.
pub fn clamp_scroll(scroll: u16, content_len: usize, viewport_h: u16) -> (r: u16)
    ensures
        r == clamped_scroll(scroll, content_len, viewport_h),
{
    if viewport_h == 0 {
        return 0;
    }
    let content_len = content_len as u16;
    if content_len <= viewport_h {
        return 0;
    }
    let max_scroll = content_len - viewport_h;
    if scroll < max_scroll {
        scroll
    } else {
        max_scroll
    }
}

/// The last line that a window of `viewport_h` lines shows at the offset
/// `scroll`; 65535 at most.
pub open spec fn bottom_line(scroll: u16, viewport_h: u16) -> int {
    if scroll + viewport_h - 1 > u16::MAX {
        u16::MAX as int
    } else {
        scroll + viewport_h - 1
    }
}

/// The scroll offset that shows the line `sel`: the offset itself where the
/// window has no lines or shows the line already, the line where it lies
/// above the window, and the offset that shows it at the bottom where it
/// lies below.
pub open spec fn visible_scroll(scroll: u16, sel: u16, viewport_h: u16) -> u16 {
    if viewport_h == 0 {
        scroll
    } else if sel < scroll {
        sel
    } else if sel > bottom_line(scroll, viewport_h) {
        (sel - (viewport_h - 1)) as u16
    } else {
        scroll
    }
}

/// The scroll offset that shows the selected line, moved as little as can
/// be.
pub fn ensure_visible(scroll: u16, sel: u16, viewport_h: u16) -> (r: u16)
    ensures
        r == visible_scroll(scroll, sel, viewport_h),
        viewport_h > 0 ==> r <= sel && sel <= bottom_line(r, viewport_h),
{
    if viewport_h == 0 {
        return scroll;
    }
    let top = scroll;
    let bottom = scroll.saturating_add(viewport_h - 1);
    if sel < top {
        sel
    } else if sel > bottom {
        sel - (viewport_h - 1)
    } else {
        scroll
    }
}

/// The width in bytes of the elements of a class, by its lower-case name.
pub open spec fn width_of_key(class_key: Seq<char>) -> Option<usize> {
    if class_key == "double"@ || class_key == "int64"@ || class_key == "uint64"@ {
        Some(8)
    } else if class_key == "single"@ || class_key == "int32"@ || class_key == "uint32"@ {
        Some(4)
    } else if class_key == "int16"@ || class_key == "uint16"@ {
        Some(2)
    } else if class_key == "int8"@ || class_key == "uint8"@ {
        Some(1)
    } else {
        None
    }
}

/// The width in bytes of the elements of a class, by its lower-case name;
/// `None` for a name that is no class.
pub fn bytes_per_elem(class_key: &str) -> (r: Option<usize>)
    ensures
        r == width_of_key(class_key@),
{
    if same_text(class_key, "double") || same_text(class_key, "int64") || same_text(
        class_key,
        "uint64",
    ) {
        Some(8)
    } else if same_text(class_key, "single") || same_text(class_key, "int32") || same_text(
        class_key,
        "uint32",
    ) {
        Some(4)
    } else if same_text(class_key, "int16") || same_text(class_key, "uint16") {
        Some(2)
    } else if same_text(class_key, "int8") || same_text(class_key, "uint8") {
        Some(1)
    } else {
        None
    }
}

/// The dimensions in decimal digits with ` x ` between them.
pub open spec fn dims_text(shape: Seq<u64>) -> Seq<char>
    decreases shape.len(),
{
    if shape.len() == 0 {
        Seq::empty()
    } else if shape.len() == 1 {
        decimal_of(shape[0])
    } else {
        dims_text(shape.drop_last()) + " x "@ + decimal_of(shape.last())
    }
}

/// A shape as text: the dimensions in brackets, as in `[3 x 4]`, and `[?]`
/// for no dimensions.
pub open spec fn shape_text(shape: Seq<u64>) -> Seq<char> {
    if shape.len() == 0 {
        "[?]"@
    } else {
        "["@ + dims_text(shape) + "]"@
    }
}

/// A shape as text: the dimensions in brackets with ` x ` between them,
/// and `[?]` for no dimensions.
pub fn fmt_shape(shape: &[u64]) -> (r: String)
    ensures
        r@ == shape_text(shape@),
{
    if shape.len() == 0 {
        return String::from_str("[?]");
    }
    let mut out = String::from_str("[");
    out.append(decimal_text(shape[0]).as_str());
    let mut i: usize = 1;
    proof {
        assert(shape@.take(1).len() == 1);
        assert(shape@.take(1)[0] == shape@[0]);
    }
    while i < shape.len()
        invariant
            1 <= i <= shape.len(),
            out@ == "["@ + dims_text(shape@.take(i as int)),
        decreases shape.len() - i,
    {
        proof {
            assert(shape@.take(i + 1).drop_last() =~= shape@.take(i as int));
            assert(shape@.take(i + 1).last() == shape@[i as int]);
        }
        out.append(" x ");
        out.append(decimal_text(shape[i]).as_str());
        proof {
            assert(out@ =~= "["@ + dims_text(shape@.take(i + 1)));
        }
        i = i + 1;
    }
    proof {
        assert(shape@.take(i as int) =~= shape@);
    }
    out.append("]");
    out
}

/// The dimensions of a leaf as the header counts them.
pub open spec fn wide(shape: Seq<usize>) -> Seq<u64> {
    shape.map_values(|d: usize| d as u64)
}

/// A shape as text, as [`fmt_shape`] writes it.
pub fn fmt_shape_usize(shape: &[usize]) -> (r: String)
    ensures
        r@ == shape_text(wide(shape@)),
{
    let mut dims: Vec<u64> = Vec::new();
    let mut i: usize = 0;
    while i < shape.len()
        invariant
            0 <= i <= shape.len(),
            dims@.len() == i,
            forall|j: int| 0 <= j < i ==> dims@[j] == shape@[j] as u64,
        decreases shape.len() - i,
    {
        dims.push(shape[i] as u64);
        i = i + 1;
    }
    assert(dims@ =~= wide(shape@));
    fmt_shape(dims.as_slice())
}

/// The line that is selected after a move by `delta` lines in a list of
/// `len` lines: the line `delta` further on, but no line before the first
/// or after the last; the first line in an empty list.
pub open spec fn moved(selected: usize, delta: i32, len: usize) -> usize {
    if len == 0 {
        0
    } else if selected + delta < 0 {
        0
    } else if selected + delta > len - 1 {
        (len - 1) as usize
    } else {
        (selected + delta) as usize
    }
}

/// The line that is selected after a move by `delta` lines in a list of
/// `len` lines.
pub fn move_selection(selected: usize, delta: i32, len: usize) -> (r: usize)
    ensures
        r == moved(selected, delta, len),
{
    if len == 0 {
        return 0;
    }
    if delta < 0 {
        let back = if delta == i32::MIN {
            0x8000_0000u64
        } else {
            (-delta) as u64
        };
        if selected as u64 <= back {
            0
        } else {
            let target = selected - back as usize;
            if target > len - 1 {
                len - 1
            } else {
                target
            }
        }
    } else {
        let forth = delta as u64;
        if selected > len - 1 {
            len - 1
        } else if (len - 1 - selected) as u64 <= forth {
            len - 1
        } else {
            selected + forth as usize
        }
    }
}

/// The decimal text of a number with a sign: a minus sign before the
/// digits of a number below zero.
pub open spec fn signed_decimal(v: i64) -> Seq<char> {
    if v < 0 {
        seq!['-'] + decimal_of((-(v as int)) as u64)
    } else {
        decimal_of(v as u64)
    }
}

/// The decimal text of a number with a sign.
pub fn signed_text(v: i64) -> (r: String)
    ensures
        r@ == signed_decimal(v),
{
    if v < 0 {
        let size: u64 = if v == i64::MIN {
            0x8000_0000_0000_0000
        } else {
            (-v) as u64
        };
        let mut out = String::from_str("-");
        proof {
            reveal_strlit("-");
            assert("-"@ =~= seq!['-']);
        }
        out.append(decimal_text(size).as_str());
        out
    } else {
        decimal_text(v as u64)
    }
}

/// Two upper-case hexadecimal digits for each byte.
pub open spec fn hex_pairs(bytes: Seq<u8>) -> Seq<char>
    decreases bytes.len(),
{
    if bytes.len() == 0 {
        Seq::empty()
    } else {
        hex_pairs(bytes.drop_last()) + seq![
            hex_digit(bytes.last() as int / 16),
            hex_digit(bytes.last() as int % 16),
        ]
    }
}

/// The text of an element that is no floating-point number: an integer of
/// the class in decimal digits, and for any other class `0x` and the bytes
/// in hexadecimal digits.
pub open spec fn scalar_text_of(class_key: Seq<char>, bytes: Seq<u8>) -> Seq<char> {
    if class_key == "int8"@ {
        signed_decimal(bytes[0] as i8 as i64)
    } else if class_key == "uint8"@ {
        decimal_of(bytes[0] as u64)
    } else if class_key == "int16"@ {
        signed_decimal(u16_of_le(bytes) as i16 as i64)
    } else if class_key == "uint16"@ {
        decimal_of(u16_of_le(bytes) as u64)
    } else if class_key == "int32"@ {
        signed_decimal(u32_of_le(bytes) as i32 as i64)
    } else if class_key == "uint32"@ {
        decimal_of(u32_of_le(bytes) as u64)
    } else if class_key == "int64"@ {
        signed_decimal(u64_of_le(bytes) as i64)
    } else if class_key == "uint64"@ {
        decimal_of(u64_of_le(bytes))
    } else {
        "0x"@ + hex_pairs(bytes)
    }
}

/// The bytes in hexadecimal digits after `0x`.
fn hex_text(bytes: &[u8]) -> (r: String)
    ensures
        r@ == "0x"@ + hex_pairs(bytes@),
{
    let mut out = String::from_str("0x");
    let mut i: usize = 0;
    assert(bytes@.take(0) =~= Seq::<u8>::empty());
    while i < bytes.len()
        invariant
            0 <= i <= bytes.len(),
            out@ == "0x"@ + hex_pairs(bytes@.take(i as int)),
        decreases bytes.len() - i,
    {
        let b = bytes[i];
        let ghost before = out@;
        out.append(hex_digit_text((b / 16) as u32));
        out.append(hex_digit_text((b % 16) as u32));
        proof {
            assert(bytes@.take(i + 1).drop_last() =~= bytes@.take(i as int));
            assert(bytes@.take(i + 1).last() == b);
            assert(out@ =~= before + seq![hex_digit(b as int / 16), hex_digit(b as int % 16)]);
            assert(out@ =~= "0x"@ + hex_pairs(bytes@.take(i + 1)));
        }
        i = i + 1;
    }
    assert(bytes@.take(i as int) =~= bytes@);
    out
}

/// The text of an element of a class that is no floating-point number,
/// from its bytes: an integer in decimal digits, and for a class that is
/// none of the integers `0x` and the bytes in hexadecimal digits. The bytes
/// of an integer are as many as its class is wide.
pub fn scalar_text(class_key: &str, bytes: &[u8]) -> (r: String)
    requires
        width_of_key(class_key@) matches Some(w) ==> bytes.len() == w,
    ensures
        r@ == scalar_text_of(class_key@, bytes@),
{
    proof {
        reveal_strlit("int8");
        reveal_strlit("uint8");
        reveal_strlit("int16");
        reveal_strlit("uint16");
        reveal_strlit("int32");
        reveal_strlit("uint32");
        reveal_strlit("int64");
        reveal_strlit("uint64");
        reveal_strlit("double");
        reveal_strlit("single");
        assert(bytes@.subrange(0, bytes.len() as int) =~= bytes@);
    }
    if same_text(class_key, "int8") {
        signed_text(bytes[0] as i8 as i64)
    } else if same_text(class_key, "uint8") {
        decimal_text(bytes[0] as u64)
    } else if same_text(class_key, "int16") {
        signed_text(u16_at(bytes, 0) as i16 as i64)
    } else if same_text(class_key, "uint16") {
        decimal_text(u16_at(bytes, 0) as u64)
    } else if same_text(class_key, "int32") {
        signed_text(u32_at(bytes, 0) as i32 as i64)
    } else if same_text(class_key, "uint32") {
        decimal_text(u32_at(bytes, 0) as u64)
    } else if same_text(class_key, "int64") {
        signed_text(u64_at(bytes, 0) as i64)
    } else if same_text(class_key, "uint64") {
        decimal_text(u64_at(bytes, 0))
    } else {
        hex_text(bytes)
    }
}

/// The shape of the first field of a name as text, or `None` where no
/// field has the name.
pub open spec fn shape_hint(fields: Seq<FieldMetaView>, path: Seq<char>) -> Option<Seq<char>> {
    let i = first_named(fields, path);
    if i < fields.len() {
        Some(shape_text(fields[i].shape))
    } else {
        None
    }
}

/// The shape of the first field named `path` as text, or `None` where no
/// field has the name.
pub fn shape_hint_for_path(fields: &[FieldMeta], path: &str) -> (r: Option<String>)
    ensures
        match r {
            Some(s) => shape_hint(fields_view(fields@), path@) == Some(s@),
            None => shape_hint(fields_view(fields@), path@) is None,
        },
{
    let ghost all = fields_view(fields@);
    proof {
        lemma_first_named(all, path@);
        assert(all.skip(0) =~= all);
    }
    let mut i: usize = 0;
    while i < fields.len()
        invariant
            0 <= i <= fields.len(),
            all == fields_view(fields@),
            first_named(all, path@) == i + first_named(all.skip(i as int), path@),
        decreases fields.len() - i,
    {
        proof {
            let rest = all.skip(i as int);
            assert(rest[0] == all[i as int]);
            assert(rest.drop_first() =~= all.skip(i + 1));
        }
        if same_text(fields[i].name.as_str(), path) {
            return Some(fmt_shape(fields[i].shape.as_slice()));
        }
        i = i + 1;
    }
    proof {
        assert(all.skip(i as int).len() == 0);
    }
    None
}

} // verus!
