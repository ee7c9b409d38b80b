//! The leaf codec, encoding side: the byte layout of each kind of leaf and
//! the words that describe it in the header.
use crate::error::{format_error, unsupported_error, ErrorView, GbfError};
use crate::le::{
    i16s_le, i32s_le, i64s_le, u16s_le, u32_le, u32s_le, write_i16s_le, write_i32s_le,
    write_i64s_le, write_u16s_le, write_u32_le, write_u32s_le,
};
use crate::value::{
    element_count_checked, element_total, CalendarDurationArray, CalendarDurationView,
    CategoricalArray, CategoricalView, DateTimeArray, DateTimeView, DurationArray,
    DurationView, GbfValue, NumericArray, NumericView, StringArray, ValueView,
};
use vstd::prelude::*;
use vstd::string::StringExecFns;
use vstd::utf8::encode_utf8;

verus! {

/// The dimensions as the header holds them.
pub open spec fn shape_as_u64(shape: Seq<usize>) -> Seq<u64> {
    shape.map_values(|d: usize| d as u64)
}

/// A text as the payload holds it: the byte length as `u32`, then the UTF-8
/// bytes.
pub open spec fn sized_text(s: Seq<char>) -> Seq<u8> {
    u32_le(encode_utf8(s).len() as u32) + encode_utf8(s)
}

/// One element of a string array: a flag that is nonzero for a missing
/// element, then the text as [`sized_text`] (empty where missing).
pub open spec fn string_item(item: Option<Seq<char>>) -> Seq<u8> {
    match item {
        None => seq![1u8] + u32_le(0),
        Some(s) => seq![0u8] + sized_text(s),
    }
}

/// The elements of a string array, one after the other.
pub open spec fn string_items(data: Seq<Option<Seq<char>>>) -> Seq<u8>
    decreases data.len(),
{
    if data.len() == 0 {
        Seq::empty()
    } else {
        string_items(data.drop_last()) + string_item(data.last())
    }
}

/// A list of texts, each as [`sized_text`].
pub open spec fn sized_texts(texts: Seq<Seq<char>>) -> Seq<u8>
    decreases texts.len(),
{
    if texts.len() == 0 {
        Seq::empty()
    } else {
        sized_texts(texts.drop_last()) + sized_text(texts.last())
    }
}

/// The text of an optional attribute; empty where it is absent.
pub open spec fn optional_text(t: Option<Seq<char>>) -> Seq<char> {
    match t {
        Some(s) => s,
        None => Seq::empty(),
    }
}

/// The flag byte of a datetime leaf: bit 0 for a time zone, bit 1 for a
/// format, bit 2 for no time zone, bit 3 for a locale.
pub open spec fn datetime_flags(a: DateTimeView) -> u8 {
    let zone: int = if optional_text(a.tz).len() > 0 {
        1
    } else {
        4
    };
    let format: int = if optional_text(a.format).len() > 0 {
        2
    } else {
        0
    };
    let locale: int = if optional_text(a.locale).len() > 0 {
        8
    } else {
        0
    };
    (zone + format + locale) as u8
}

/// The bytes of a numeric leaf: the real part, then the imaginary part of a
/// complex array.
pub open spec fn numeric_bytes(a: NumericView) -> Seq<u8> {
    match a.imag_le {
        Some(im) => a.real_le + im,
        None => a.real_le,
    }
}

/// The bytes of a datetime leaf.
pub open spec fn datetime_bytes(a: DateTimeView) -> Seq<u8> {
    seq![datetime_flags(a)] + sized_text(optional_text(a.tz)) + sized_text(
        optional_text(a.locale),
    ) + sized_text(optional_text(a.format)) + a.is_nat + i16s_le(a.year) + a.month + a.day
        + i32s_le(a.ms_day)
}

/// The bytes of a duration leaf: the mask, then the milliseconds.
pub open spec fn duration_bytes(a: DurationView) -> Seq<u8> {
    a.is_nan + i64s_le(a.ms)
}

/// The bytes of a calendar-duration leaf: the mask, then months, days and
/// times.
pub open spec fn calendar_bytes(a: CalendarDurationView) -> Seq<u8> {
    a.is_missing + i32s_le(a.months) + i32s_le(a.days) + i64s_le(a.time_ms)
}

/// The bytes of a categorical leaf: the number of categories, their names,
/// then the codes.
pub open spec fn categorical_bytes(a: CategoricalView) -> Seq<u8> {
    u32_le(a.categories.len() as u32) + sized_texts(a.categories) + u32s_le(a.codes)
}

/// The payload bytes of a leaf.
pub open spec fn leaf_bytes(v: ValueView) -> Seq<u8> {
    match v {
        ValueView::Struct(_) => Seq::empty(),
        ValueView::Numeric(a) => numeric_bytes(a),
        ValueView::Logical(a) => a.data,
        ValueView::Char(a) => u16s_le(a.data),
        ValueView::String(a) => string_items(a.data),
        ValueView::DateTime(a) => datetime_bytes(a),
        ValueView::Duration(a) => duration_bytes(a),
        ValueView::CalendarDuration(a) => calendar_bytes(a),
        ValueView::Categorical(a) => categorical_bytes(a),
        ValueView::EmptyStruct => Seq::empty(),
    }
}

/// The `kind` of a leaf in the header.
pub open spec fn leaf_kind(v: ValueView) -> Seq<char> {
    match v {
        ValueView::Struct(_) => "struct"@,
        ValueView::Numeric(_) => "numeric"@,
        ValueView::Logical(_) => "logical"@,
        ValueView::Char(_) => "char"@,
        ValueView::String(_) => "string"@,
        ValueView::DateTime(_) => "datetime"@,
        ValueView::Duration(_) => "duration"@,
        ValueView::CalendarDuration(_) => "calendarduration"@,
        ValueView::Categorical(_) => "categorical"@,
        ValueView::EmptyStruct => "struct"@,
    }
}

/// The `class` of a leaf in the header.
pub open spec fn leaf_class(v: ValueView) -> Seq<char> {
    match v {
        ValueView::Struct(_) => "struct"@,
        ValueView::Numeric(a) => a.class.name(),
        ValueView::Logical(_) => "logical"@,
        ValueView::Char(_) => "char"@,
        ValueView::String(_) => "string"@,
        ValueView::DateTime(_) => "datetime"@,
        ValueView::Duration(_) => "duration"@,
        ValueView::CalendarDuration(_) => "calendarDuration"@,
        ValueView::Categorical(_) => "categorical"@,
        ValueView::EmptyStruct => "struct"@,
    }
}

/// The `encoding` of a leaf in the header.
pub open spec fn leaf_encoding(v: ValueView) -> Seq<char> {
    match v {
        ValueView::Struct(_) => "empty-scalar-struct"@,
        ValueView::Numeric(_) => ""@,
        ValueView::Logical(_) => ""@,
        ValueView::Char(_) => "utf-16-codeunits"@,
        ValueView::String(_) => "utf-8"@,
        ValueView::DateTime(a) => if optional_text(a.tz).len() > 0 {
            "dt:tz-ymd+msday+nat-mask+tz+locale+format"@
        } else {
            "dt:naive-ymd+msday+nat-mask+locale+format"@
        },
        ValueView::Duration(_) => "ms-i64+nan-mask"@,
        ValueView::CalendarDuration(_) => "mask+months-i32+days-i32+time-ms-i64"@,
        ValueView::Categorical(_) => "cats-utf8+codes-u32"@,
        ValueView::EmptyStruct => "empty-scalar-struct"@,
    }
}

/// The `shape` of a leaf in the header; an empty record reports `[1, 1]`.
pub open spec fn leaf_shape(v: ValueView) -> Seq<u64> {
    match v {
        ValueView::Struct(_) => seq![1u64, 1u64],
        ValueView::Numeric(a) => shape_as_u64(a.shape),
        ValueView::Logical(a) => shape_as_u64(a.shape),
        ValueView::Char(a) => shape_as_u64(a.shape),
        ValueView::String(a) => shape_as_u64(a.shape),
        ValueView::DateTime(a) => shape_as_u64(a.shape),
        ValueView::Duration(a) => shape_as_u64(a.shape),
        ValueView::CalendarDuration(a) => shape_as_u64(a.shape),
        ValueView::Categorical(a) => shape_as_u64(a.shape),
        ValueView::EmptyStruct => seq![1u64, 1u64],
    }
}

/// The `complex` flag of a leaf in the header.
pub open spec fn leaf_complex(v: ValueView) -> bool {
    match v {
        ValueView::Numeric(a) => a.complex,
        _ => false,
    }
}

/// Whether the UTF-8 length of a text fits the `u32` that precedes it.
pub open spec fn text_fits(s: Seq<char>) -> bool {
    encode_utf8(s).len() <= u32::MAX
}

/// Whether every length that the layout stores as `u32` fits.
pub open spec fn lengths_fit(v: ValueView) -> bool {
    match v {
        ValueView::String(a) => forall|i: int|
            0 <= i < a.data.len() ==> (#[trigger] a.data[i] matches Some(s) ==> text_fits(s)),
        ValueView::DateTime(a) => text_fits(optional_text(a.tz)) && text_fits(
            optional_text(a.locale),
        ) && text_fits(optional_text(a.format)),
        ValueView::Categorical(a) => a.categories.len() <= u32::MAX && forall|i: int|
            0 <= i < a.categories.len() ==> text_fits(#[trigger] a.categories[i]),
        _ => true,
    }
}

/// Why a value cannot be encoded as a leaf, or `None` where it can: a record
/// with fields is unsupported, a leaf whose parts disagree with its shape
/// breaks the format, and a length beyond `u32` is unsupported.
pub open spec fn encode_failure(v: ValueView) -> Option<ErrorView> {
    if v is Struct {
        Some(ErrorView::Unsupported)
    } else if !v.leaf_wf() {
        Some(ErrorView::Format)
    } else if !lengths_fit(v) {
        Some(ErrorView::Unsupported)
    } else {
        None
    }
}

/// The dimensions as the header holds them.
pub fn shape_to_u64(shape: &Vec<usize>) -> (r: Vec<u64>)
    ensures
        r@ == shape_as_u64(shape@),
{
    let mut out: Vec<u64> = Vec::new();
    let mut i: usize = 0;
    while i < shape.len()
        invariant
            0 <= i <= shape.len(),
            out@.len() == i,
            forall|j: int| 0 <= j < i ==> out@[j] == shape@[j] as u64,
        decreases shape.len() - i,
    {
        out.push(shape[i] as u64);
        i = i + 1;
    }
    assert(out@ =~= shape_as_u64(shape@));
    out
}

/// Whether `len` is the number of elements that `shape` asks for.
fn count_matches(shape: &Vec<usize>, len: usize) -> (r: bool)
    ensures
        r == (len as nat == element_total(shape@)),
{
    match element_count_checked(shape.as_slice()) {
        Some(n) => n == len,
        None => false,
    }
}

/// Appends a text as [`sized_text`]; `false`, with nothing appended, where
/// its length does not fit `u32`.
fn push_sized_text(out: &mut Vec<u8>, s: &str) -> (ok: bool)
    ensures
        ok == text_fits(s@),
        ok ==> final(out)@ == old(out)@ + sized_text(s@),
        !ok ==> final(out)@ == old(out)@,
{
    let b = s.as_bytes();
    if b.len() > 0xffff_ffff {
        return false;
    }
    write_u32_le(out, b.len() as u32);
    out.extend_from_slice(b);
    assert(out@ =~= old(out)@ + sized_text(s@));
    true
}

fn encode_numeric(name: &str, a: &NumericArray) -> (r: Result<Vec<u8>, GbfError>)
    ensures
        r matches Err(e) ==> e.names(name@),
        r is Ok <==> a@.wf(),
        r matches Ok(raw) ==> raw@ == numeric_bytes(a@),
        r matches Err(e) ==> e is Format,
{
    proof {
        let n = element_total(a@.shape);
        let w = a@.class.width();
        assert(a.real_le@.len() == a.real_le.len());
        assert(n <= n * w) by (nonlinear_arith)
            requires
                w >= 1,
        ;
    }
    let expected = match element_count_checked(a.shape.as_slice()) {
        Some(n) => match n.checked_mul(a.class.bytes_per_element()) {
            Some(v) => v,
            None => {
                return Err(format_error("numeric `", name, "` size does not fit"));
            },
        },
        None => {
            return Err(format_error("numeric `", name, "` element count does not fit"));
        },
    };
    if a.real_le.len() != expected {
        return Err(format_error("numeric `", name, "` real_le size mismatch"));
    }
    let mut raw: Vec<u8> = Vec::new();
    raw.extend_from_slice(a.real_le.as_slice());
    match &a.imag_le {
        Some(im) => {
            if !a.complex {
                return Err(
                    format_error("numeric `", name, "` is not complex but imag_le is present"),
                );
            }
            if im.len() != expected {
                return Err(format_error("numeric `", name, "` imag_le size mismatch"));
            }
            raw.extend_from_slice(im.as_slice());
        },
        None => {
            if a.complex {
                return Err(format_error("numeric `", name, "` is complex but imag_le is absent"));
            }
        },
    }
    assert(raw@ =~= numeric_bytes(a@));
    Ok(raw)
}

fn encode_strings(name: &str, a: &StringArray) -> (r: Result<Vec<u8>, GbfError>)
    ensures
        r matches Err(e) ==> e.names(name@),
        r is Ok <==> a@.wf() && lengths_fit(ValueView::String(a@)),
        r matches Ok(raw) ==> raw@ == string_items(a@.data),
        r matches Err(e) ==> (if a@.wf() {
            e is Unsupported
        } else {
            e is Format
        }),
{
    if !count_matches(&a.shape, a.data.len()) {
        return Err(format_error("string `", name, "` length does not match its shape"));
    }
    let mut raw: Vec<u8> = Vec::new();
    let mut i: usize = 0;
    while i < a.data.len()
        invariant
            0 <= i <= a.data.len(),
            a@.wf(),
            raw@ == string_items(a@.data.take(i as int)),
            forall|j: int|
                0 <= j < i ==> (#[trigger] a@.data[j] matches Some(s) ==> text_fits(s)),
        decreases a.data.len() - i,
    {
        proof {
            assert(a@.data.take(i + 1).drop_last() =~= a@.data.take(i as int));
            assert(a@.data.take(i + 1).last() == a@.data[i as int]);
        }
        let ghost before = raw@;
        match &a.data[i] {
            None => {
                raw.push(1u8);
                write_u32_le(&mut raw, 0);
                assert(raw@ =~= before + string_item(None));
            },
            Some(s) => {
                raw.push(0u8);
                let ok = push_sized_text(&mut raw, s.as_str());
                if !ok {
                    assert(a@.data[i as int] == Some(s@));
                    return Err(unsupported_error("string too large in `", name, "`"));
                }
                assert(raw@ =~= before + string_item(Some(s@)));
            },
        }
        i = i + 1;
    }
    proof {
        assert(a@.data.take(a.data.len() as int) =~= a@.data);
    }
    Ok(raw)
}

/// The text of an optional attribute; empty where it is absent.
fn text_or_empty(t: &Option<String>) -> (r: &str)
    ensures
        r@ == optional_text(crate::value::text_view(*t)),
{
    match t {
        Some(s) => s.as_str(),
        None => {
            proof {
                reveal_strlit("");
            }
            let e = "";
            assert(e@ =~= Seq::<char>::empty());
            e
        },
    }
}

fn encode_datetime(name: &str, a: &DateTimeArray) -> (r: Result<Vec<u8>, GbfError>)
    ensures
        r matches Err(e) ==> e.names(name@),
        r is Ok <==> a@.wf() && lengths_fit(ValueView::DateTime(a@)),
        r matches Ok(raw) ==> raw@ == datetime_bytes(a@),
        r matches Err(e) ==> (if a@.wf() {
            e is Unsupported
        } else {
            e is Format
        }),
{
    assert(a.is_nat@.len() == a.is_nat.len());
    let n = match element_count_checked(a.shape.as_slice()) {
        Some(n) => n,
        None => {
            return Err(format_error("datetime `", name, "` element count does not fit"));
        },
    };
    if a.is_nat.len() != n || a.year.len() != n || a.month.len() != n || a.day.len() != n
        || a.ms_day.len() != n {
        return Err(format_error("datetime `", name, "` inconsistent component lengths"));
    }
    let tz = text_or_empty(&a.tz);
    let loc = text_or_empty(&a.locale);
    let fmt = text_or_empty(&a.format);
    let mut flags: u8 = 0;
    if !tz.is_empty() {
        flags = flags + 1;
    } else {
        flags = flags + 4;
    }
    if !fmt.is_empty() {
        flags = flags + 2;
    }
    if !loc.is_empty() {
        flags = flags + 8;
    }
    let mut raw: Vec<u8> = Vec::new();
    raw.push(flags);
    if !push_sized_text(&mut raw, tz) {
        return Err(unsupported_error("time zone too large in `", name, "`"));
    }
    if !push_sized_text(&mut raw, loc) {
        return Err(unsupported_error("locale too large in `", name, "`"));
    }
    if !push_sized_text(&mut raw, fmt) {
        return Err(unsupported_error("format too large in `", name, "`"));
    }
    raw.extend_from_slice(a.is_nat.as_slice());
    write_i16s_le(&mut raw, a.year.as_slice());
    raw.extend_from_slice(a.month.as_slice());
    raw.extend_from_slice(a.day.as_slice());
    write_i32s_le(&mut raw, a.ms_day.as_slice());
    assert(raw@ =~= datetime_bytes(a@));
    Ok(raw)
}

fn encode_duration(name: &str, a: &DurationArray) -> (r: Result<Vec<u8>, GbfError>)
    ensures
        r matches Err(e) ==> e.names(name@),
        r is Ok <==> a@.wf(),
        r matches Ok(raw) ==> raw@ == duration_bytes(a@),
        r matches Err(e) ==> e is Format,
{
    assert(a.is_nan@.len() == a.is_nan.len());
    let n = match element_count_checked(a.shape.as_slice()) {
        Some(n) => n,
        None => {
            return Err(format_error("duration `", name, "` element count does not fit"));
        },
    };
    if a.is_nan.len() != n || a.ms.len() != n {
        return Err(format_error("duration `", name, "` inconsistent lengths"));
    }
    let mut raw: Vec<u8> = Vec::new();
    raw.extend_from_slice(a.is_nan.as_slice());
    write_i64s_le(&mut raw, a.ms.as_slice());
    assert(raw@ =~= duration_bytes(a@));
    Ok(raw)
}

fn encode_calendar(name: &str, a: &CalendarDurationArray) -> (r: Result<Vec<u8>, GbfError>)
    ensures
        r matches Err(e) ==> e.names(name@),
        r is Ok <==> a@.wf(),
        r matches Ok(raw) ==> raw@ == calendar_bytes(a@),
        r matches Err(e) ==> e is Format,
{
    assert(a.is_missing@.len() == a.is_missing.len());
    let n = match element_count_checked(a.shape.as_slice()) {
        Some(n) => n,
        None => {
            return Err(format_error("calendarDuration `", name, "` element count does not fit"));
        },
    };
    if a.is_missing.len() != n || a.months.len() != n || a.days.len() != n || a.time_ms.len()
        != n {
        return Err(format_error("calendarDuration `", name, "` inconsistent lengths"));
    }
    let mut raw: Vec<u8> = Vec::new();
    raw.extend_from_slice(a.is_missing.as_slice());
    write_i32s_le(&mut raw, a.months.as_slice());
    write_i32s_le(&mut raw, a.days.as_slice());
    write_i64s_le(&mut raw, a.time_ms.as_slice());
    assert(raw@ =~= calendar_bytes(a@));
    Ok(raw)
}

/// Whether every code is 0 or names one of `count` categories.
pub fn codes_in_range(codes: &Vec<u32>, count: usize) -> (r: bool)
    ensures
        r == forall|i: int| 0 <= i < codes.len() ==> codes@[i] <= count,
{
    let mut i: usize = 0;
    while i < codes.len()
        invariant
            0 <= i <= codes.len(),
            forall|j: int| 0 <= j < i ==> codes@[j] <= count,
        decreases codes.len() - i,
    {
        if codes[i] as u64 > count as u64 {
            return false;
        }
        i = i + 1;
    }
    true
}

fn encode_categorical(name: &str, a: &CategoricalArray) -> (r: Result<Vec<u8>, GbfError>)
    ensures
        r matches Err(e) ==> e.names(name@),
        r is Ok <==> a@.wf() && lengths_fit(ValueView::Categorical(a@)),
        r matches Ok(raw) ==> raw@ == categorical_bytes(a@),
        r matches Err(e) ==> (if a@.wf() {
            e is Unsupported
        } else {
            e is Format
        }),
{
    if !count_matches(&a.shape, a.codes.len()) {
        return Err(format_error("categorical `", name, "` codes do not match its shape"));
    }
    if !codes_in_range(&a.codes, a.categories.len()) {
        return Err(format_error("categorical `", name, "` has a code without a category"));
    }
    if a.categories.len() > 0xffff_ffff {
        return Err(unsupported_error("too many categories in `", name, "`"));
    }
    let mut raw: Vec<u8> = Vec::new();
    write_u32_le(&mut raw, a.categories.len() as u32);
    let ghost head = raw@;
    let mut i: usize = 0;
    while i < a.categories.len()
        invariant
            0 <= i <= a.categories.len(),
            a@.wf(),
            a.categories.len() <= u32::MAX,
            head == u32_le(a@.categories.len() as u32),
            raw@ == head + sized_texts(a@.categories.take(i as int)),
            forall|j: int| 0 <= j < i ==> text_fits(#[trigger] a@.categories[j]),
        decreases a.categories.len() - i,
    {
        proof {
            assert(a@.categories.take(i + 1).drop_last() =~= a@.categories.take(i as int));
            assert(a@.categories.take(i + 1).last() == a@.categories[i as int]);
            assert(a@.categories[i as int] == a.categories@[i as int]@);
        }
        let ghost before = raw@;
        if !push_sized_text(&mut raw, a.categories[i].as_str()) {
            return Err(unsupported_error("category too large in `", name, "`"));
        }
        assert(raw@ =~= head + sized_texts(a@.categories.take(i + 1)));
        i = i + 1;
    }
    proof {
        assert(a@.categories.take(a.categories.len() as int) =~= a@.categories);
    }
    write_u32s_le(&mut raw, a.codes.as_slice());
    assert(raw@ =~= categorical_bytes(a@));
    Ok(raw)
}

/// Encodes one leaf: its payload bytes and the words that describe it in
/// the header (kind, class, shape, complex flag, encoding). `name` is the
/// field's path and only serves the error message.
///
/// Succeeds exactly where [`encode_failure`] finds nothing wrong, and fails
/// with the error that it names.
pub fn encode_leaf(name: &str, value: &GbfValue) -> (r: Result<
    (Vec<u8>, String, String, Vec<u64>, bool, String),
    GbfError,
>)
    ensures
        r matches Err(e) ==> e.names(name@),
        match r {
            Ok(t) => {
                &&& encode_failure(value@) is None
                &&& t.0@ == leaf_bytes(value@)
                &&& t.1@ == leaf_kind(value@)
                &&& t.2@ == leaf_class(value@)
                &&& t.3@ == leaf_shape(value@)
                &&& t.4 == leaf_complex(value@)
                &&& t.5@ == leaf_encoding(value@)
            },
            Err(e) => encode_failure(value@) == Some(e@),
        },
{
    match value {
        GbfValue::Struct(m) => {
            proof {
                crate::value::lemma_struct_view(*m);
            }
            Err(unsupported_error("non-leaf struct encountered at `", name, "`"))
        },
        GbfValue::Numeric(a) => {
            let raw = encode_numeric(name, a)?;
            Ok(
                (
                    raw,
                    String::from_str("numeric"),
                    String::from_str(a.class.as_matlab_class()),
                    shape_to_u64(&a.shape),
                    a.complex,
                    String::from_str(""),
                ),
            )
        },
        GbfValue::Logical(a) => {
            if !count_matches(&a.shape, a.data.len()) {
                return Err(format_error("logical `", name, "` length does not match its shape"));
            }
            Ok(
                (
                    a.data.clone(),
                    String::from_str("logical"),
                    String::from_str("logical"),
                    shape_to_u64(&a.shape),
                    false,
                    String::from_str(""),
                ),
            )
        },
        GbfValue::Char(a) => {
            if !count_matches(&a.shape, a.data.len()) {
                return Err(format_error("char `", name, "` length does not match its shape"));
            }
            let mut raw: Vec<u8> = Vec::new();
            write_u16s_le(&mut raw, a.data.as_slice());
            assert(raw@ =~= u16s_le(a@.data));
            Ok(
                (
                    raw,
                    String::from_str("char"),
                    String::from_str("char"),
                    shape_to_u64(&a.shape),
                    false,
                    String::from_str("utf-16-codeunits"),
                ),
            )
        },
        GbfValue::String(a) => {
            let raw = encode_strings(name, a)?;
            Ok(
                (
                    raw,
                    String::from_str("string"),
                    String::from_str("string"),
                    shape_to_u64(&a.shape),
                    false,
                    String::from_str("utf-8"),
                ),
            )
        },
        GbfValue::DateTime(a) => {
            let raw = encode_datetime(name, a)?;
            let zoned = !text_or_empty(&a.tz).is_empty();
            let encoding = if zoned {
                "dt:tz-ymd+msday+nat-mask+tz+locale+format"
            } else {
                "dt:naive-ymd+msday+nat-mask+locale+format"
            };
            Ok(
                (
                    raw,
                    String::from_str("datetime"),
                    String::from_str("datetime"),
                    shape_to_u64(&a.shape),
                    false,
                    String::from_str(encoding),
                ),
            )
        },
        GbfValue::Duration(a) => {
            let raw = encode_duration(name, a)?;
            Ok(
                (
                    raw,
                    String::from_str("duration"),
                    String::from_str("duration"),
                    shape_to_u64(&a.shape),
                    false,
                    String::from_str("ms-i64+nan-mask"),
                ),
            )
        },
        GbfValue::CalendarDuration(a) => {
            let raw = encode_calendar(name, a)?;
            Ok(
                (
                    raw,
                    String::from_str("calendarduration"),
                    String::from_str("calendarDuration"),
                    shape_to_u64(&a.shape),
                    false,
                    String::from_str("mask+months-i32+days-i32+time-ms-i64"),
                ),
            )
        },
        GbfValue::Categorical(a) => {
            let raw = encode_categorical(name, a)?;
            Ok(
                (
                    raw,
                    String::from_str("categorical"),
                    String::from_str("categorical"),
                    shape_to_u64(&a.shape),
                    false,
                    String::from_str("cats-utf8+codes-u32"),
                ),
            )
        },
        GbfValue::EmptyStruct => {
            let mut shape: Vec<u64> = Vec::new();
            shape.push(1);
            shape.push(1);
            assert(shape@ =~= seq![1u64, 1u64]);
            Ok(
                (
                    Vec::new(),
                    String::from_str("struct"),
                    String::from_str("struct"),
                    shape,
                    false,
                    String::from_str("empty-scalar-struct"),
                ),
            )
        },
    }
}

} // verus!
