//! The leaf codec, decoding side: from a field's description and its raw
//! bytes back to the leaf.
use crate::error::{format_error, unsupported_error, ErrorView, GbfError};
use crate::header::FieldMeta;
use crate::le::{
    i16s_of_le, i32s_of_le, i64s_of_le, i16s_at, i32s_at, i64s_at, u16s_at,
    u32_at, u32s_at, u16s_of_le, u32_of_le, u32s_of_le,
};
use crate::text::{eq_ignoring_case, same_ignoring_case, text_of_utf8};
use crate::value::{
    class_of_name, element_count_checked, element_total, CalendarDurationArray,
    CalendarDurationView, CategoricalArray, CategoricalView, CharArray, CharView, DateTimeArray,
    DateTimeView, DurationArray, DurationView, GbfValue, LogicalArray, LogicalView, NumericArray,
    NumericClass, NumericView, StringArray, StringView, ValueView,
};
use vstd::prelude::*;
use vstd::slice::{slice_subrange, slice_to_vec};
use vstd::utf8::{decode_utf8, valid_utf8};

verus! {

/// Whether every dimension fits in `usize`.
pub open spec fn shape_fits(shape: Seq<u64>) -> bool {
    forall|i: int| 0 <= i < shape.len() ==> shape[i] <= usize::MAX
}

/// The dimensions as a leaf holds them.
pub open spec fn shape_as_usize(shape: Seq<u64>) -> Seq<usize> {
    shape.map_values(|d: u64| d as usize)
}

/// The text bytes that stand at `at` behind their `u32` length, and the
/// place after them; `None` where the bytes end too early.
pub open spec fn sized_at(raw: Seq<u8>, at: int) -> Option<(Seq<u8>, int)> {
    if at + 4 > raw.len() {
        None
    } else {
        let len = u32_of_le(raw.subrange(at, at + 4)) as int;
        if at + 4 + len > raw.len() {
            None
        } else {
            Some((raw.subrange(at + 4, at + 4 + len), at + 4 + len))
        }
    }
}

/// The optional text at `at` and the place after it: absent where its
/// length is zero. `None` where the bytes end too early or are not UTF-8.
pub open spec fn optional_at(raw: Seq<u8>, at: int) -> Option<(Option<Seq<char>>, int)> {
    match sized_at(raw, at) {
        None => None,
        Some((bytes, next)) => if bytes.len() == 0 {
            Some((None, next))
        } else if valid_utf8(bytes) {
            Some((Some(decode_utf8(bytes)), next))
        } else {
            None
        },
    }
}

/// Reads `count` elements of a string array from `at` on and appends them
/// to `acc`: each is a flag byte and a sized text, and is missing where the
/// flag is not zero. `None` where the bytes end too early or a text that is
/// not missing is not UTF-8. Bytes after the last element are not read.
pub open spec fn parse_strings(
    raw: Seq<u8>,
    at: int,
    count: nat,
    acc: Seq<Option<Seq<char>>>,
) -> Option<Seq<Option<Seq<char>>>>
    decreases count,
{
    if count == 0 {
        Some(acc)
    } else {
        match sized_at(raw, at + 1) {
            None => None,
            Some((bytes, next)) => if raw[at] != 0 {
                parse_strings(raw, next, (count - 1) as nat, acc.push(None))
            } else if valid_utf8(bytes) {
                parse_strings(raw, next, (count - 1) as nat, acc.push(Some(decode_utf8(bytes))))
            } else {
                None
            },
        }
    }
}

/// Reads `count` sized texts from `at` on and appends them to `acc`; also
/// gives the place after the last. `None` where the bytes end too early or
/// a text is not UTF-8.
pub open spec fn parse_texts(raw: Seq<u8>, at: int, count: nat, acc: Seq<Seq<char>>) -> Option<
    (Seq<Seq<char>>, int),
>
    decreases count,
{
    if count == 0 {
        Some((acc, at))
    } else {
        match sized_at(raw, at) {
            None => None,
            Some((bytes, next)) => if valid_utf8(bytes) {
                parse_texts(raw, next, (count - 1) as nat, acc.push(decode_utf8(bytes)))
            } else {
                None
            },
        }
    }
}

/// The numeric leaf of `n` elements that `raw` holds.
pub open spec fn decode_numeric_spec(
    class_name: Seq<char>,
    dims: Seq<usize>,
    complex: bool,
    n: nat,
    raw: Seq<u8>,
) -> Result<ValueView, ErrorView> {
    match class_of_name(class_name) {
        None => Err(ErrorView::Unsupported),
        Some(class) => {
            let part = n * class.width();
            if !complex {
                if raw.len() != part {
                    Err(ErrorView::Format)
                } else {
                    Ok(
                        ValueView::Numeric(
                            NumericView {
                                class,
                                shape: dims,
                                complex: false,
                                real_le: raw,
                                imag_le: None,
                            },
                        ),
                    )
                }
            } else {
                if raw.len() != 2 * part {
                    Err(ErrorView::Format)
                } else {
                    Ok(
                        ValueView::Numeric(
                            NumericView {
                                class,
                                shape: dims,
                                complex: true,
                                real_le: raw.take(part as int),
                                imag_le: Some(raw.skip(part as int)),
                            },
                        ),
                    )
                }
            }
        },
    }
}

/// The datetime leaf of `n` elements that `raw` holds: a flag byte, three
/// optional texts, then the mask and the components. Bytes after the last
/// component are not read.
pub open spec fn decode_datetime_spec(dims: Seq<usize>, n: nat, raw: Seq<u8>) -> Option<
    DateTimeView,
> {
    if raw.len() < 13 {
        None
    } else {
        match optional_at(raw, 1) {
            None => None,
            Some((tz, i1)) => match optional_at(raw, i1) {
                None => None,
                Some((locale, i2)) => match optional_at(raw, i2) {
                    None => None,
                    Some((format, i3)) => if i3 + 9 * n > raw.len() {
                        None
                    } else {
                        Some(
                            DateTimeView {
                                shape: dims,
                                tz,
                                locale,
                                format,
                                is_nat: raw.subrange(i3, i3 + n),
                                year: i16s_of_le(raw.subrange(i3 + n, i3 + 3 * n)),
                                month: raw.subrange(i3 + 3 * n, i3 + 4 * n),
                                day: raw.subrange(i3 + 4 * n, i3 + 5 * n),
                                ms_day: i32s_of_le(raw.subrange(i3 + 5 * n, i3 + 9 * n)),
                            },
                        )
                    },
                },
            },
        }
    }
}

/// The categorical leaf of `n` elements that `raw` holds: the number of
/// categories, their names, then exactly `n` codes.
pub open spec fn decode_categorical_spec(dims: Seq<usize>, n: nat, raw: Seq<u8>) -> Option<
    CategoricalView,
> {
    if raw.len() < 4 {
        None
    } else {
        let count = u32_of_le(raw.subrange(0, 4)) as nat;
        match parse_texts(raw, 4, count, Seq::empty()) {
            None => None,
            Some((categories, at)) => if raw.len() - at != 4 * n {
                None
            } else {
                Some(
                    CategoricalView {
                        shape: dims,
                        categories,
                        codes: u32s_of_le(raw.subrange(at, raw.len() as int)),
                    },
                )
            },
        }
    }
}

/// The leaf that a field's description and raw bytes stand for, or the kind
/// of error that decoding ends with.
///
/// A dimension beyond `usize`, an unknown kind and an unknown numeric class
/// are unsupported; every disagreement between the bytes and the layout of
/// the kind is a format error.
#[verifier::opaque]
pub open spec fn decode_leaf_spec(
    kind: Seq<char>,
    class_name: Seq<char>,
    shape: Seq<u64>,
    complex: bool,
    raw: Seq<u8>,
) -> Result<ValueView, ErrorView> {
    let dims = shape_as_usize(shape);
    let n = element_total(dims);
    if !shape_fits(shape) {
        Err(ErrorView::Unsupported)
    } else if n > usize::MAX {
        Err(ErrorView::Format)
    } else if same_ignoring_case(kind, "struct"@) {
        Ok(ValueView::EmptyStruct)
    } else if same_ignoring_case(kind, "numeric"@) {
        decode_numeric_spec(class_name, dims, complex, n, raw)
    } else if same_ignoring_case(kind, "logical"@) {
        if raw.len() != n {
            Err(ErrorView::Format)
        } else {
            Ok(ValueView::Logical(LogicalView { shape: dims, data: raw }))
        }
    } else if same_ignoring_case(kind, "char"@) {
        if raw.len() != 2 * n {
            Err(ErrorView::Format)
        } else {
            Ok(ValueView::Char(CharView { shape: dims, data: u16s_of_le(raw) }))
        }
    } else if same_ignoring_case(kind, "string"@) {
        match parse_strings(raw, 0, n, Seq::empty()) {
            Some(data) => Ok(ValueView::String(StringView { shape: dims, data })),
            None => Err(ErrorView::Format),
        }
    } else if same_ignoring_case(kind, "datetime"@) {
        match decode_datetime_spec(dims, n, raw) {
            Some(a) => Ok(ValueView::DateTime(a)),
            None => Err(ErrorView::Format),
        }
    } else if same_ignoring_case(kind, "duration"@) {
        if raw.len() != 9 * n {
            Err(ErrorView::Format)
        } else {
            Ok(
                ValueView::Duration(
                    DurationView {
                        shape: dims,
                        is_nan: raw.subrange(0, n as int),
                        ms: i64s_of_le(raw.subrange(n as int, (9 * n) as int)),
                    },
                ),
            )
        }
    } else if same_ignoring_case(kind, "calendarduration"@) {
        if raw.len() != 17 * n {
            Err(ErrorView::Format)
        } else {
            Ok(
                ValueView::CalendarDuration(
                    CalendarDurationView {
                        shape: dims,
                        is_missing: raw.subrange(0, n as int),
                        months: i32s_of_le(raw.subrange(n as int, (5 * n) as int)),
                        days: i32s_of_le(raw.subrange((5 * n) as int, (9 * n) as int)),
                        time_ms: i64s_of_le(raw.subrange((9 * n) as int, (17 * n) as int)),
                    },
                ),
            )
        }
    } else if same_ignoring_case(kind, "categorical"@) {
        match decode_categorical_spec(dims, n, raw) {
            Some(a) => Ok(ValueView::Categorical(a)),
            None => Err(ErrorView::Format),
        }
    } else {
        Err(ErrorView::Format)
    }
}

/// The dimensions as a leaf holds them, or `None` where one does not fit.
pub fn shape_to_usize(shape: &Vec<u64>) -> (r: Option<Vec<usize>>)
    ensures
        r is Some <==> shape_fits(shape@),
        r matches Some(dims) ==> dims@ == shape_as_usize(shape@),
{
    let mut out: Vec<usize> = Vec::new();
    let mut i: usize = 0;
    while i < shape.len()
        invariant
            0 <= i <= shape.len(),
            out@.len() == i,
            forall|j: int| 0 <= j < i ==> shape@[j] <= usize::MAX,
            forall|j: int| 0 <= j < i ==> out@[j] == shape@[j] as usize,
        decreases shape.len() - i,
    {
        let d = shape[i];
        if d > usize::MAX as u64 {
            return None;
        }
        out.push(d as usize);
        i = i + 1;
    }
    assert(out@ =~= shape_as_usize(shape@));
    Some(out)
}

/// The text bytes at `at` behind their `u32` length and the place after
/// them.
fn read_sized<'a>(raw: &'a [u8], at: usize) -> (r: Option<(&'a [u8], usize)>)
    requires
        at <= raw.len(),
    ensures
        r is Some <==> sized_at(raw@, at as int) is Some,
        r matches Some((bytes, next)) ==> sized_at(raw@, at as int) == Some((bytes@, next as int))
            && next <= raw.len(),
{
    if raw.len() - at < 4 {
        return None;
    }
    let len = u32_at(raw, at) as usize;
    if raw.len() - (at + 4) < len {
        return None;
    }
    let bytes = slice_subrange(raw, at + 4, at + 4 + len);
    Some((bytes, at + 4 + len))
}

/// The optional text at `at` and the place after it.
fn read_optional(raw: &[u8], at: usize) -> (r: Option<(Option<String>, usize)>)
    requires
        at <= raw.len(),
    ensures
        r is Some <==> optional_at(raw@, at as int) is Some,
        r matches Some((text, next)) ==> optional_at(raw@, at as int) == Some(
            (crate::value::text_view(text), next as int),
        ) && next <= raw.len(),
{
    match read_sized(raw, at) {
        None => None,
        Some((bytes, next)) => {
            if bytes.len() == 0 {
                Some((None, next))
            } else {
                match text_of_utf8(bytes) {
                    Some(s) => Some((Some(s), next)),
                    None => None,
                }
            }
        },
    }
}

fn decode_numeric(field: &FieldMeta, shape: Vec<usize>, n: usize, raw: &[u8]) -> (r: Result<
    GbfValue,
    GbfError,
>)
    ensures
        r matches Err(e) ==> e.names(field.name@),
        match r {
            Ok(v) => decode_numeric_spec(
                field.class_name@,
                shape@,
                field.complex,
                n as nat,
                raw@,
            ) == Ok::<ValueView, ErrorView>(v@),
            Err(e) => decode_numeric_spec(
                field.class_name@,
                shape@,
                field.complex,
                n as nat,
                raw@,
            ) == Err::<ValueView, ErrorView>(e@),
        },
{
    assert(raw@.len() == raw.len());
    let class = match NumericClass::from_matlab_class(field.class_name.as_str()) {
        Some(c) => c,
        None => {
            return Err(unsupported_error("unknown numeric class of `", field.name.as_str(), "`"));
        },
    };
    let part = match n.checked_mul(class.bytes_per_element()) {
        Some(p) => p,
        None => {
            return Err(format_error("numeric `", field.name.as_str(), "` size mismatch"));
        },
    };
    if !field.complex {
        if raw.len() != part {
            return Err(format_error("numeric `", field.name.as_str(), "` size mismatch"));
        }
        let a = NumericArray::new_real(class, shape, slice_to_vec(raw));
        Ok(GbfValue::Numeric(a))
    } else {
        let both = match part.checked_mul(2) {
            Some(b) => b,
            None => {
                return Err(
                    format_error("complex numeric `", field.name.as_str(), "` size mismatch"),
                );
            },
        };
        if raw.len() != both {
            return Err(format_error("complex numeric `", field.name.as_str(), "` size mismatch"));
        }
        let re = slice_to_vec(slice_subrange(raw, 0, part));
        let im = slice_to_vec(slice_subrange(raw, part, raw.len()));
        assert(re@ =~= raw@.take(part as int));
        assert(im@ =~= raw@.skip(part as int));
        let a = NumericArray::new_complex(class, shape, re, im);
        Ok(GbfValue::Numeric(a))
    }
}

fn decode_strings(field: &FieldMeta, shape: Vec<usize>, n: usize, raw: &[u8]) -> (r: Result<
    GbfValue,
    GbfError,
>)
    ensures
        r matches Err(e) ==> e.names(field.name@),
        match r {
            Ok(v) => parse_strings(raw@, 0, n as nat, Seq::empty()) matches Some(data) && v@
                == ValueView::String(StringView { shape: shape@, data }),
            Err(e) => parse_strings(raw@, 0, n as nat, Seq::empty()) is None && e is Format,
        },
{
    let mut data: Vec<Option<String>> = Vec::new();
    let mut at: usize = 0;
    let mut i: usize = 0;
    assert(data.deep_view() =~= Seq::<Option<Seq<char>>>::empty());
    while i < n
        invariant
            0 <= i <= n,
            at <= raw.len(),
            parse_strings(raw@, 0, n as nat, Seq::empty()) == parse_strings(
                raw@,
                at as int,
                (n - i) as nat,
                data.deep_view(),
            ),
        decreases n - i,
    {
        if raw.len() - at < 1 {
            return Err(
                format_error(
                    "string `",
                    field.name.as_str(),
                    "` truncated while parsing element header",
                ),
            );
        }
        let flag = raw[at];
        let (bytes, next) = match read_sized(raw, at + 1) {
            Some(p) => p,
            None => {
                return Err(
                    format_error("string `", field.name.as_str(), "` truncated while parsing"),
                );
            },
        };
        let ghost before = data.deep_view();
        if flag != 0 {
            data.push(None);
            assert(data.deep_view() =~= before.push(None));
        } else {
            match text_of_utf8(bytes) {
                Some(s) => {
                    data.push(Some(s));
                    assert(data.deep_view() =~= before.push(Some(decode_utf8(bytes@))));
                },
                None => {
                    return Err(format_error("string `", field.name.as_str(), "` invalid UTF-8"));
                },
            }
        }
        at = next;
        i = i + 1;
    }
    Ok(GbfValue::String(StringArray { shape, data }))
}

fn decode_datetime(field: &FieldMeta, shape: Vec<usize>, n: usize, raw: &[u8]) -> (r: Result<
    GbfValue,
    GbfError,
>)
    ensures
        r matches Err(e) ==> e.names(field.name@),
        match r {
            Ok(v) => decode_datetime_spec(shape@, n as nat, raw@) matches Some(a) && v@
                == ValueView::DateTime(a),
            Err(e) => decode_datetime_spec(shape@, n as nat, raw@) is None && e is Format,
        },
{
    if raw.len() < 13 {
        return Err(format_error("datetime `", field.name.as_str(), "` payload too small"));
    }
    let (tz, i1) = match read_optional(raw, 1) {
        Some(p) => p,
        None => {
            return Err(format_error("datetime `", field.name.as_str(), "` bad time zone"));
        },
    };
    let (locale, i2) = match read_optional(raw, i1) {
        Some(p) => p,
        None => {
            return Err(format_error("datetime `", field.name.as_str(), "` bad locale"));
        },
    };
    let (format, i3) = match read_optional(raw, i2) {
        Some(p) => p,
        None => {
            return Err(format_error("datetime `", field.name.as_str(), "` bad format"));
        },
    };
    let need = match n.checked_mul(9) {
        Some(v) => v,
        None => {
            return Err(format_error("datetime `", field.name.as_str(), "` truncated components"));
        },
    };
    if raw.len() - i3 < need {
        return Err(format_error("datetime `", field.name.as_str(), "` truncated components"));
    }
    let is_nat = slice_to_vec(slice_subrange(raw, i3, i3 + n));
    let year = i16s_at(raw, i3 + n, n);
    let month = slice_to_vec(slice_subrange(raw, i3 + 3 * n, i3 + 4 * n));
    let day = slice_to_vec(slice_subrange(raw, i3 + 4 * n, i3 + 5 * n));
    let ms_day = i32s_at(raw, i3 + 5 * n, n);
    Ok(
        GbfValue::DateTime(
            DateTimeArray { shape, tz, locale, format, is_nat, year, month, day, ms_day },
        ),
    )
}

fn decode_categorical(field: &FieldMeta, shape: Vec<usize>, n: usize, raw: &[u8]) -> (r: Result<
    GbfValue,
    GbfError,
>)
    ensures
        r matches Err(e) ==> e.names(field.name@),
        match r {
            Ok(v) => decode_categorical_spec(shape@, n as nat, raw@) matches Some(a) && v@
                == ValueView::Categorical(a),
            Err(e) => decode_categorical_spec(shape@, n as nat, raw@) is None && e is Format,
        },
{
    if raw.len() < 4 {
        return Err(format_error("categorical `", field.name.as_str(), "` payload too small"));
    }
    let count = u32_at(raw, 0) as usize;
    let mut categories: Vec<String> = Vec::new();
    let mut at: usize = 4;
    let mut i: usize = 0;
    assert(categories.deep_view() =~= Seq::<Seq<char>>::empty());
    while i < count
        invariant
            0 <= i <= count,
            at <= raw.len(),
            raw.len() >= 4,
            count as nat == u32_of_le(raw@.subrange(0, 4)) as nat,
            parse_texts(raw@, 4, count as nat, Seq::empty()) == parse_texts(
                raw@,
                at as int,
                (count - i) as nat,
                categories.deep_view(),
            ),
        decreases count - i,
    {
        let (bytes, next) = match read_sized(raw, at) {
            Some(p) => p,
            None => {
                return Err(
                    format_error("categorical `", field.name.as_str(), "` truncated category"),
                );
            },
        };
        let ghost before = categories.deep_view();
        match text_of_utf8(bytes) {
            Some(s) => {
                categories.push(s);
                assert(categories.deep_view() =~= before.push(decode_utf8(bytes@)));
            },
            None => {
                return Err(
                    format_error("categorical `", field.name.as_str(), "` invalid UTF-8 category"),
                );
            },
        }
        at = next;
        i = i + 1;
    }
    let want = match n.checked_mul(4) {
        Some(v) => v,
        None => {
            return Err(
                format_error("categorical `", field.name.as_str(), "` codes size mismatch"),
            );
        },
    };
    if raw.len() - at != want {
        return Err(format_error("categorical `", field.name.as_str(), "` codes size mismatch"));
    }
    let codes = u32s_at(raw, at, n);
    Ok(GbfValue::Categorical(CategoricalArray { shape, categories, codes }))
}

/// Decodes the leaf that `field` describes from its raw bytes.
///
/// Returns the leaf that [`decode_leaf_spec`] gives, and fails exactly where
/// it does, with the error that it names. Of `field` only the
/// kind, class, shape and complex flag are read (and the name, for the
/// error message).
pub fn decode_leaf(field: &FieldMeta, raw: &[u8]) -> (r: Result<GbfValue, GbfError>)
    ensures
        r matches Ok(v) ==> v@.is_leaf(),
        r matches Err(e) ==> e.names(field.name@) && (e is Format || e is Unsupported),
        match r {
            Ok(v) => decode_leaf_spec(
                field.kind@,
                field.class_name@,
                field.shape@,
                field.complex,
                raw@,
            ) == Ok::<ValueView, ErrorView>(v@),
            Err(e) => decode_leaf_spec(
                field.kind@,
                field.class_name@,
                field.shape@,
                field.complex,
                raw@,
            ) == Err::<ValueView, ErrorView>(e@),
        },
{
    proof {
        reveal(decode_leaf_spec);
    }
    assert(raw@.len() == raw.len());
    let shape = match shape_to_usize(&field.shape) {
        Some(s) => s,
        None => {
            return Err(
                unsupported_error(
                    "shape of `",
                    field.name.as_str(),
                    "` too large for this platform",
                ),
            );
        },
    };
    let n = match element_count_checked(shape.as_slice()) {
        Some(n) => n,
        None => {
            return Err(format_error("element count of `", field.name.as_str(), "` overflows"));
        },
    };
    let kind = field.kind.as_str();
    if eq_ignoring_case(kind, "struct") {
        Ok(GbfValue::EmptyStruct)
    } else if eq_ignoring_case(kind, "numeric") {
        decode_numeric(field, shape, n, raw)
    } else if eq_ignoring_case(kind, "logical") {
        if raw.len() != n {
            return Err(format_error("logical `", field.name.as_str(), "` size mismatch"));
        }
        Ok(GbfValue::Logical(LogicalArray { shape, data: slice_to_vec(raw) }))
    } else if eq_ignoring_case(kind, "char") {
        let want = match n.checked_mul(2) {
            Some(v) => v,
            None => {
                return Err(format_error("char `", field.name.as_str(), "` size mismatch"));
            },
        };
        if raw.len() != want {
            return Err(format_error("char `", field.name.as_str(), "` size mismatch"));
        }
        let data = u16s_at(raw, 0, n);
        assert(raw@.subrange(0, 2 * n) =~= raw@);
        Ok(GbfValue::Char(CharArray { shape, data }))
    } else if eq_ignoring_case(kind, "string") {
        decode_strings(field, shape, n, raw)
    } else if eq_ignoring_case(kind, "datetime") {
        decode_datetime(field, shape, n, raw)
    } else if eq_ignoring_case(kind, "duration") {
        let want = match n.checked_mul(9) {
            Some(v) => v,
            None => {
                return Err(format_error("duration `", field.name.as_str(), "` size mismatch"));
            },
        };
        if raw.len() != want {
            return Err(format_error("duration `", field.name.as_str(), "` size mismatch"));
        }
        let is_nan = slice_to_vec(slice_subrange(raw, 0, n));
        let ms = i64s_at(raw, n, n);
        Ok(GbfValue::Duration(DurationArray { shape, is_nan, ms }))
    } else if eq_ignoring_case(kind, "calendarduration") {
        let want = match n.checked_mul(17) {
            Some(v) => v,
            None => {
                return Err(
                    format_error("calendarDuration `", field.name.as_str(), "` size mismatch"),
                );
            },
        };
        if raw.len() != want {
            return Err(
                format_error("calendarDuration `", field.name.as_str(), "` size mismatch"),
            );
        }
        let is_missing = slice_to_vec(slice_subrange(raw, 0, n));
        let months = i32s_at(raw, n, n);
        let days = i32s_at(raw, 5 * n, n);
        let time_ms = i64s_at(raw, 9 * n, n);
        Ok(
            GbfValue::CalendarDuration(
                CalendarDurationArray { shape, is_missing, months, days, time_ms },
            ),
        )
    } else if eq_ignoring_case(kind, "categorical") {
        decode_categorical(field, shape, n, raw)
    } else {
        Err(format_error("unknown kind for field `", field.name.as_str(), "`"))
    }
}

} // verus!
