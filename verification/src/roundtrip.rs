//! The leaf codec loses nothing: decoding the bytes of a leaf under its
//! header words gives the leaf back.
use crate::decode::{
    decode_categorical_spec, decode_datetime_spec, decode_leaf_spec, decode_numeric_spec,
    optional_at, parse_strings, parse_texts, shape_as_usize, shape_fits, sized_at,
};
use crate::error::ErrorView;
use crate::le::{
    i16s_le, i32s_le, i64s_le, lemma_i16s_round_trip, lemma_i32s_round_trip,
    lemma_i64s_round_trip, lemma_u16s_round_trip, lemma_u32_round_trip, lemma_u32s_round_trip,
    u32_le, u32s_le,
};
use crate::leaf::{
    calendar_bytes, categorical_bytes, datetime_bytes, datetime_flags, duration_bytes,
    encode_failure, leaf_bytes, leaf_class, leaf_complex, leaf_kind, leaf_shape, lengths_fit,
    numeric_bytes, optional_text, shape_as_u64, sized_text, sized_texts, string_item,
    string_items, text_fits,
};
use crate::value::{
    element_total, CalendarDurationView, CategoricalView, DateTimeView, DurationView, GbfValue,
    NumericView, ValueView,
};
use crate::words::{lemma_class_names, lemma_kinds_differ};
use vstd::prelude::*;
use vstd::utf8::{encode_utf8, encode_utf8_decode_utf8, encode_utf8_valid_utf8};

verus! {

/// The dimensions of a leaf come back from the header as they went in.
pub proof fn lemma_shape_round_trip(shape: Seq<usize>)
    ensures
        shape_fits(shape_as_u64(shape)),
        shape_as_usize(shape_as_u64(shape)) == shape,
{
    let wide = shape_as_u64(shape);
    assert forall|i: int| 0 <= i < wide.len() implies wide[i] <= usize::MAX by {
        assert(wide[i] == shape[i] as u64);
    }
    assert(shape_as_usize(wide) =~= shape);
}

/// A sized text that stands at `at` is found there.
pub proof fn lemma_sized_at(raw: Seq<u8>, at: int, s: Seq<char>)
    requires
        text_fits(s),
        0 <= at,
        at + 4 + encode_utf8(s).len() <= raw.len(),
        raw.subrange(at, at + 4 + encode_utf8(s).len()) == sized_text(s),
    ensures
        sized_at(raw, at) == Some((encode_utf8(s), at + 4 + encode_utf8(s).len())),
{
    let n = encode_utf8(s).len() as int;
    let t = sized_text(s);
    lemma_u32_round_trip(n as u32);
    assert(t.len() == 4 + n);
    assert(raw.subrange(at, at + 4) =~= t.subrange(0, 4)) by {
        assert forall|k: int| 0 <= k < 4 implies raw.subrange(at, at + 4)[k] == t[k] by {
            assert(raw.subrange(at, at + 4 + n)[k] == raw[at + k]);
        }
    }
    assert(t.subrange(0, 4) =~= u32_le(n as u32));
    assert(raw.subrange(at + 4, at + 4 + n) =~= encode_utf8(s)) by {
        assert forall|k: int| 0 <= k < n implies raw.subrange(at + 4, at + 4 + n)[k]
            == encode_utf8(s)[k] by {
            assert(raw.subrange(at, at + 4 + n)[4 + k] == raw[at + 4 + k]);
            assert(t[4 + k] == encode_utf8(s)[k]);
        }
    }
}

/// The elements of a string array begin with the first element.
pub proof fn lemma_string_items_front(data: Seq<Option<Seq<char>>>)
    requires
        data.len() > 0,
    ensures
        string_items(data) == string_item(data[0]) + string_items(data.drop_first()),
    decreases data.len(),
{
    if data.len() == 1 {
        assert(data.drop_last() =~= Seq::<Option<Seq<char>>>::empty());
        assert(data.drop_first() =~= Seq::<Option<Seq<char>>>::empty());
        assert(string_items(data.drop_last()) =~= Seq::<u8>::empty());
        assert(string_items(data) =~= string_item(data[0]) + string_items(data.drop_first()));
    } else {
        let front = data.drop_last();
        lemma_string_items_front(front);
        assert(front.drop_first() =~= data.drop_first().drop_last());
        assert(front[0] == data[0]);
        assert(data.drop_first().last() == data.last());
        assert(string_items(data) == string_items(front) + string_item(data.last()));
        assert(string_items(data.drop_first()) == string_items(data.drop_first().drop_last())
            + string_item(data.last()));
        assert(string_items(data) =~= string_item(data[0]) + string_items(data.drop_first()));
    }
}

/// A list of sized texts begins with the first text.
pub proof fn lemma_sized_texts_front(texts: Seq<Seq<char>>)
    requires
        texts.len() > 0,
    ensures
        sized_texts(texts) == sized_text(texts[0]) + sized_texts(texts.drop_first()),
    decreases texts.len(),
{
    if texts.len() == 1 {
        assert(texts.drop_last() =~= Seq::<Seq<char>>::empty());
        assert(texts.drop_first() =~= Seq::<Seq<char>>::empty());
        assert(sized_texts(texts.drop_last()) =~= Seq::<u8>::empty());
        assert(sized_texts(texts) =~= sized_text(texts[0]) + sized_texts(texts.drop_first()));
    } else {
        let front = texts.drop_last();
        lemma_sized_texts_front(front);
        assert(front.drop_first() =~= texts.drop_first().drop_last());
        assert(front[0] == texts[0]);
        assert(texts.drop_first().last() == texts.last());
        assert(sized_texts(texts) == sized_texts(front) + sized_text(texts.last()));
        assert(sized_texts(texts.drop_first()) == sized_texts(texts.drop_first().drop_last())
            + sized_text(texts.last()));
        assert(sized_texts(texts) =~= sized_text(texts[0]) + sized_texts(texts.drop_first()));
    }
}

/// The elements of a string array that stand at `at` are read back.
pub proof fn lemma_parse_strings(
    raw: Seq<u8>,
    at: int,
    data: Seq<Option<Seq<char>>>,
    acc: Seq<Option<Seq<char>>>,
)
    requires
        0 <= at,
        at + string_items(data).len() <= raw.len(),
        raw.subrange(at, at + string_items(data).len()) == string_items(data),
        forall|i: int| 0 <= i < data.len() ==> (#[trigger] data[i] matches Some(s) ==> text_fits(s)),
    ensures
        parse_strings(raw, at, data.len(), acc) == Some(acc + data),
    decreases data.len(),
{
    if data.len() == 0 {
        assert(acc + data =~= acc);
    } else {
        lemma_string_items_front(data);
        let x = data[0];
        let rest = data.drop_first();
        let item = string_item(x);
        let all = string_items(data);
        let whole = raw.subrange(at, at + all.len());
        let next = at + item.len();
        assert(all == item + string_items(rest));
        assert forall|k: int| 0 <= k < item.len() implies raw[at + k] == item[k] by {
            assert(whole[k] == raw[at + k]);
            assert(all[k] == item[k]);
        }
        assert(raw.subrange(next, next + string_items(rest).len()) =~= string_items(rest)) by {
            assert forall|k: int| 0 <= k < string_items(rest).len() implies raw.subrange(
                next,
                next + string_items(rest).len(),
            )[k] == string_items(rest)[k] by {
                assert(whole[item.len() + k] == raw[at + item.len() + k]);
                assert(all[item.len() + k] == string_items(rest)[k]);
            }
        }
        assert forall|i: int| 0 <= i < rest.len() implies (#[trigger] rest[i] matches Some(s)
            ==> text_fits(s)) by {
            assert(rest[i] == data[i + 1]);
        }
        let text: Seq<char> = match x {
            Some(s) => s,
            None => Seq::empty(),
        };
        assert(text_fits(text));
        assert(item =~= seq![item[0]] + sized_text(text)) by {
            assert(encode_utf8(Seq::<char>::empty()) =~= Seq::<u8>::empty());
        }
        let n = encode_utf8(text).len() as int;
        assert(item.len() == 5 + n);
        assert(raw.subrange(at + 1, at + 1 + 4 + n) =~= sized_text(text)) by {
            assert forall|k: int| 0 <= k < 4 + n implies raw.subrange(at + 1, at + 1 + 4 + n)[k]
                == sized_text(text)[k] by {
                assert(raw[at + 1 + k] == item[1 + k]);
            }
        }
        lemma_sized_at(raw, at + 1, text);
        encode_utf8_valid_utf8(text);
        encode_utf8_decode_utf8(text);
        assert(raw[at] == item[0]);
        lemma_parse_strings(raw, next, rest, acc.push(x));
        assert(acc.push(x) + rest =~= acc + data);
    }
}

/// The sized texts that stand at `at` are read back.
pub proof fn lemma_parse_texts(raw: Seq<u8>, at: int, texts: Seq<Seq<char>>, acc: Seq<Seq<char>>)
    requires
        0 <= at,
        at + sized_texts(texts).len() <= raw.len(),
        raw.subrange(at, at + sized_texts(texts).len()) == sized_texts(texts),
        forall|i: int| 0 <= i < texts.len() ==> text_fits(#[trigger] texts[i]),
    ensures
        parse_texts(raw, at, texts.len(), acc) == Some((acc + texts, at + sized_texts(texts).len())),
    decreases texts.len(),
{
    if texts.len() == 0 {
        assert(acc + texts =~= acc);
    } else {
        lemma_sized_texts_front(texts);
        let x = texts[0];
        let rest = texts.drop_first();
        let item = sized_text(x);
        let all = sized_texts(texts);
        let whole = raw.subrange(at, at + all.len());
        let n = encode_utf8(x).len() as int;
        let next = at + item.len();
        assert(all == item + sized_texts(rest));
        assert(item.len() == 4 + n);
        assert(raw.subrange(at, at + 4 + n) =~= item) by {
            assert forall|k: int| 0 <= k < 4 + n implies raw.subrange(at, at + 4 + n)[k]
                == item[k] by {
                assert(whole[k] == raw[at + k]);
                assert(all[k] == item[k]);
            }
        }
        assert(raw.subrange(next, next + sized_texts(rest).len()) =~= sized_texts(rest)) by {
            assert forall|k: int| 0 <= k < sized_texts(rest).len() implies raw.subrange(
                next,
                next + sized_texts(rest).len(),
            )[k] == sized_texts(rest)[k] by {
                assert(whole[item.len() + k] == raw[at + item.len() + k]);
                assert(all[item.len() + k] == sized_texts(rest)[k]);
            }
        }
        assert forall|i: int| 0 <= i < rest.len() implies text_fits(#[trigger] rest[i]) by {
            assert(rest[i] == texts[i + 1]);
        }
        lemma_sized_at(raw, at, x);
        encode_utf8_valid_utf8(x);
        encode_utf8_decode_utf8(x);
        lemma_parse_texts(raw, next, rest, acc.push(x));
        assert(acc.push(x) + rest =~= acc + texts);
    }
}

/// An optional text that stands at `at`, and is absent or not empty, is
/// read back.
pub proof fn lemma_optional_at(raw: Seq<u8>, at: int, t: Option<Seq<char>>)
    requires
        t matches Some(s) ==> s.len() > 0,
        text_fits(optional_text(t)),
        0 <= at,
        at + 4 + encode_utf8(optional_text(t)).len() <= raw.len(),
        raw.subrange(at, at + 4 + encode_utf8(optional_text(t)).len()) == sized_text(
            optional_text(t),
        ),
    ensures
        optional_at(raw, at) == Some((t, at + 4 + encode_utf8(optional_text(t)).len())),
{
    let s = optional_text(t);
    lemma_sized_at(raw, at, s);
    encode_utf8_valid_utf8(s);
    encode_utf8_decode_utf8(s);
    if s.len() == 0 {
        assert(encode_utf8(s) =~= Seq::<u8>::empty());
    } else {
        assert(encode_utf8(s).len() > 0);
    }
}

/// Whether every optional text of a leaf is absent or not empty. An empty
/// text is written like an absent one, and read back as absent.
pub open spec fn texts_told_apart(v: ValueView) -> bool {
    match v {
        ValueView::DateTime(a) => {
            &&& a.tz matches Some(s) ==> s.len() > 0
            &&& a.locale matches Some(s) ==> s.len() > 0
            &&& a.format matches Some(s) ==> s.len() > 0
        },
        _ => true,
    }
}

/// A part of the front of a concatenation is a part of the front.
pub proof fn lemma_front_part(a: Seq<u8>, b: Seq<u8>, from: int, to: int)
    requires
        0 <= from <= to <= a.len(),
    ensures
        (a + b).subrange(from, to) == a.subrange(from, to),
{
    assert((a + b).subrange(from, to) =~= a.subrange(from, to));
}

/// The back of a concatenation is its second part.
pub proof fn lemma_back_part(a: Seq<u8>, b: Seq<u8>)
    ensures
        (a + b).len() == a.len() + b.len(),
        (a + b).subrange(a.len() as int, (a.len() + b.len()) as int) == b,
{
    assert((a + b).subrange(a.len() as int, (a.len() + b.len()) as int) =~= b);
}

/// Where the parts of a datetime leaf stand in its bytes.
pub proof fn lemma_datetime_layout(a: DateTimeView)
    ensures
        ({
            let raw = datetime_bytes(a);
            let tz = sized_text(optional_text(a.tz));
            let loc = sized_text(optional_text(a.locale));
            let fmt = sized_text(optional_text(a.format));
            let years = i16s_le(a.year);
            let ms = i32s_le(a.ms_day);
            let i1 = 1 + tz.len();
            let i2 = i1 + loc.len();
            let i3 = i2 + fmt.len();
            let i4 = i3 + a.is_nat.len();
            let i5 = i4 + years.len();
            let i6 = i5 + a.month.len();
            let i7 = i6 + a.day.len();
            &&& raw.len() == i7 + ms.len()
            &&& raw.subrange(1, i1 as int) == tz
            &&& raw.subrange(i1 as int, i2 as int) == loc
            &&& raw.subrange(i2 as int, i3 as int) == fmt
            &&& raw.subrange(i3 as int, i4 as int) == a.is_nat
            &&& raw.subrange(i4 as int, i5 as int) == years
            &&& raw.subrange(i5 as int, i6 as int) == a.month
            &&& raw.subrange(i6 as int, i7 as int) == a.day
            &&& raw.subrange(i7 as int, (i7 + ms.len()) as int) == ms
        }),
{
    let tz = sized_text(optional_text(a.tz));
    let loc = sized_text(optional_text(a.locale));
    let fmt = sized_text(optional_text(a.format));
    let years = i16s_le(a.year);
    let ms = i32s_le(a.ms_day);
    let head0 = seq![datetime_flags(a)];
    let head1 = head0 + tz;
    let head2 = head1 + loc;
    let head3 = head2 + fmt;
    let head4 = head3 + a.is_nat;
    let head5 = head4 + years;
    let head6 = head5 + a.month;
    let head7 = head6 + a.day;
    let raw = head7 + ms;
    assert(raw == datetime_bytes(a));
    let i1 = head1.len() as int;
    let i2 = head2.len() as int;
    let i3 = head3.len() as int;
    let i4 = head4.len() as int;
    let i5 = head5.len() as int;
    let i6 = head6.len() as int;
    let i7 = head7.len() as int;
    lemma_back_part(head0, tz);
    lemma_back_part(head1, loc);
    lemma_back_part(head2, fmt);
    lemma_back_part(head3, a.is_nat);
    lemma_back_part(head4, years);
    lemma_back_part(head5, a.month);
    lemma_back_part(head6, a.day);
    lemma_back_part(head7, ms);
    assert(raw.subrange(1, i1) == tz) by {
        lemma_front_part(head7, ms, 1, i1);
        lemma_front_part(head6, a.day, 1, i1);
        lemma_front_part(head5, a.month, 1, i1);
        lemma_front_part(head4, years, 1, i1);
        lemma_front_part(head3, a.is_nat, 1, i1);
        lemma_front_part(head2, fmt, 1, i1);
        lemma_front_part(head1, loc, 1, i1);
    }
    assert(raw.subrange(i1, i2) == loc) by {
        lemma_front_part(head7, ms, i1, i2);
        lemma_front_part(head6, a.day, i1, i2);
        lemma_front_part(head5, a.month, i1, i2);
        lemma_front_part(head4, years, i1, i2);
        lemma_front_part(head3, a.is_nat, i1, i2);
        lemma_front_part(head2, fmt, i1, i2);
    }
    assert(raw.subrange(i2, i3) == fmt) by {
        lemma_front_part(head7, ms, i2, i3);
        lemma_front_part(head6, a.day, i2, i3);
        lemma_front_part(head5, a.month, i2, i3);
        lemma_front_part(head4, years, i2, i3);
        lemma_front_part(head3, a.is_nat, i2, i3);
    }
    assert(raw.subrange(i3, i4) == a.is_nat) by {
        lemma_front_part(head7, ms, i3, i4);
        lemma_front_part(head6, a.day, i3, i4);
        lemma_front_part(head5, a.month, i3, i4);
        lemma_front_part(head4, years, i3, i4);
    }
    assert(raw.subrange(i4, i5) == years) by {
        lemma_front_part(head7, ms, i4, i5);
        lemma_front_part(head6, a.day, i4, i5);
        lemma_front_part(head5, a.month, i4, i5);
    }
    assert(raw.subrange(i5, i6) == a.month) by {
        lemma_front_part(head7, ms, i5, i6);
        lemma_front_part(head6, a.day, i5, i6);
    }
    assert(raw.subrange(i6, i7) == a.day) by {
        lemma_front_part(head7, ms, i6, i7);
    }
}

/// The bytes of a datetime leaf are read back.
#[verifier::rlimit(60)]
pub proof fn lemma_datetime_round_trip(a: DateTimeView)
    requires
        a.wf(),
        lengths_fit(ValueView::DateTime(a)),
        texts_told_apart(ValueView::DateTime(a)),
    ensures
        decode_datetime_spec(a.shape, element_total(a.shape), datetime_bytes(a)) == Some(a),
{
    let n = element_total(a.shape) as int;
    let raw = datetime_bytes(a);
    let tz = sized_text(optional_text(a.tz));
    let loc = sized_text(optional_text(a.locale));
    let fmt = sized_text(optional_text(a.format));
    lemma_datetime_layout(a);
    lemma_i16s_round_trip(a.year);
    lemma_i32s_round_trip(a.ms_day);
    let i1 = 1 + tz.len();
    let i2 = i1 + loc.len();
    let i3 = i2 + fmt.len();
    assert(tz.len() == 4 + encode_utf8(optional_text(a.tz)).len());
    assert(loc.len() == 4 + encode_utf8(optional_text(a.locale)).len());
    assert(fmt.len() == 4 + encode_utf8(optional_text(a.format)).len());
    lemma_optional_at(raw, 1, a.tz);
    lemma_optional_at(raw, i1 as int, a.locale);
    lemma_optional_at(raw, i2 as int, a.format);
    assert(optional_at(raw, 1) == Some((a.tz, i1 as int)));
    assert(optional_at(raw, i1 as int) == Some((a.locale, i2 as int)));
    assert(optional_at(raw, i2 as int) == Some((a.format, i3 as int)));
    assert(i16s_le(a.year).len() == 2 * n);
    assert(i32s_le(a.ms_day).len() == 4 * n);
    assert(raw.len() == i3 + 9 * n);
    assert(raw.subrange(i3 as int, i3 + n) == a.is_nat);
    assert(raw.subrange(i3 + n, i3 + 3 * n) == i16s_le(a.year));
    assert(raw.subrange(i3 + 3 * n, i3 + 4 * n) == a.month);
    assert(raw.subrange(i3 + 4 * n, i3 + 5 * n) == a.day);
    assert(raw.subrange(i3 + 5 * n, i3 + 9 * n) == i32s_le(a.ms_day));
    let got = DateTimeView {
        shape: a.shape,
        tz: a.tz,
        locale: a.locale,
        format: a.format,
        is_nat: raw.subrange(i3 as int, i3 + n),
        year: crate::le::i16s_of_le(raw.subrange(i3 + n, i3 + 3 * n)),
        month: raw.subrange(i3 + 3 * n, i3 + 4 * n),
        day: raw.subrange(i3 + 4 * n, i3 + 5 * n),
        ms_day: crate::le::i32s_of_le(raw.subrange(i3 + 5 * n, i3 + 9 * n)),
    };
    assert(got == a);
    assert(decode_datetime_spec(a.shape, element_total(a.shape), raw) == Some(got));
}

/// The bytes of a duration leaf are read back.
pub proof fn lemma_duration_round_trip(a: DurationView)
    requires
        a.wf(),
    ensures
        duration_bytes(a).len() == 9 * element_total(a.shape),
        duration_bytes(a).subrange(0, element_total(a.shape) as int) == a.is_nan,
        crate::le::i64s_of_le(
            duration_bytes(a).subrange(
                element_total(a.shape) as int,
                (9 * element_total(a.shape)) as int,
            ),
        ) == a.ms,
{
    let n = element_total(a.shape) as int;
    let raw = duration_bytes(a);
    lemma_i64s_round_trip(a.ms);
    assert(raw.subrange(0, n) =~= a.is_nan);
    assert(raw.subrange(n, 9 * n) =~= i64s_le(a.ms));
}

/// The bytes of a calendar-duration leaf are read back.
pub proof fn lemma_calendar_round_trip(a: CalendarDurationView)
    requires
        a.wf(),
    ensures
        calendar_bytes(a).len() == 17 * element_total(a.shape),
        calendar_bytes(a).subrange(0, element_total(a.shape) as int) == a.is_missing,
        crate::le::i32s_of_le(
            calendar_bytes(a).subrange(
                element_total(a.shape) as int,
                (5 * element_total(a.shape)) as int,
            ),
        ) == a.months,
        crate::le::i32s_of_le(
            calendar_bytes(a).subrange(
                (5 * element_total(a.shape)) as int,
                (9 * element_total(a.shape)) as int,
            ),
        ) == a.days,
        crate::le::i64s_of_le(
            calendar_bytes(a).subrange(
                (9 * element_total(a.shape)) as int,
                (17 * element_total(a.shape)) as int,
            ),
        ) == a.time_ms,
{
    let n = element_total(a.shape) as int;
    let raw = calendar_bytes(a);
    lemma_i32s_round_trip(a.months);
    lemma_i32s_round_trip(a.days);
    lemma_i64s_round_trip(a.time_ms);
    assert(raw.subrange(0, n) =~= a.is_missing);
    assert(raw.subrange(n, 5 * n) =~= i32s_le(a.months));
    assert(raw.subrange(5 * n, 9 * n) =~= i32s_le(a.days));
    assert(raw.subrange(9 * n, 17 * n) =~= i64s_le(a.time_ms));
}

/// The bytes of a categorical leaf are read back.
pub proof fn lemma_categorical_round_trip(a: CategoricalView)
    requires
        a.wf(),
        lengths_fit(ValueView::Categorical(a)),
    ensures
        decode_categorical_spec(a.shape, element_total(a.shape), categorical_bytes(a)) == Some(a),
{
    let n = element_total(a.shape) as int;
    let raw = categorical_bytes(a);
    let names = sized_texts(a.categories);
    let codes = u32s_le(a.codes);
    lemma_u32_round_trip(a.categories.len() as u32);
    lemma_u32s_round_trip(a.codes);
    assert(raw.len() == 4 + names.len() + 4 * n);
    assert(raw.subrange(0, 4) =~= u32_le(a.categories.len() as u32));
    assert(raw.subrange(4, (4 + names.len()) as int) =~= names);
    lemma_parse_texts(raw, 4, a.categories, Seq::empty());
    assert(Seq::<Seq<char>>::empty() + a.categories =~= a.categories);
    assert(raw.subrange((4 + names.len()) as int, raw.len() as int) =~= codes);
}

/// The bytes of a numeric leaf are read back.
pub proof fn lemma_numeric_round_trip(a: NumericView)
    requires
        a.wf(),
    ensures
        decode_numeric_spec(
            a.class.name(),
            a.shape,
            a.complex,
            element_total(a.shape),
            numeric_bytes(a),
        ) == Ok::<ValueView, ErrorView>(ValueView::Numeric(a)),
{
    lemma_class_names();
    let raw = numeric_bytes(a);
    let part = a.part_len() as int;
    if a.complex {
        let im = a.imag_le->Some_0;
        assert(raw.take(part) =~= a.real_le);
        assert(raw.skip(part) =~= im);
    }
}

/// Whether the number of elements of a leaf fits in `usize`, as it does for
/// every leaf that is held in memory with components as long as its shape
/// says.
pub open spec fn count_fits(v: ValueView) -> bool {
    match v {
        ValueView::Struct(_) => true,
        ValueView::Numeric(a) => element_total(a.shape) <= usize::MAX,
        ValueView::Logical(a) => element_total(a.shape) <= usize::MAX,
        ValueView::Char(a) => element_total(a.shape) <= usize::MAX,
        ValueView::String(a) => element_total(a.shape) <= usize::MAX,
        ValueView::DateTime(a) => element_total(a.shape) <= usize::MAX,
        ValueView::Duration(a) => element_total(a.shape) <= usize::MAX,
        ValueView::CalendarDuration(a) => element_total(a.shape) <= usize::MAX,
        ValueView::Categorical(a) => element_total(a.shape) <= usize::MAX,
        ValueView::EmptyStruct => true,
    }
}

/// Round trip of the leaf codec: a leaf that can be encoded, whose optional
/// texts are absent or not empty, and whose elements can be counted in
/// `usize`, is what decoding its bytes under its header words gives.
pub proof fn lemma_leaf_view_round_trip(v: ValueView)
    requires
        encode_failure(v) is None,
        texts_told_apart(v),
        count_fits(v),
    ensures
        decode_leaf_spec(leaf_kind(v), leaf_class(v), leaf_shape(v), leaf_complex(v), leaf_bytes(v))
            == Ok::<ValueView, ErrorView>(v),
{
    reveal(decode_leaf_spec);
    lemma_kinds_differ();
    match v {
        ValueView::Struct(_) => {},
        ValueView::Numeric(a) => {
            lemma_shape_round_trip(a.shape);
            lemma_numeric_round_trip(a);
        },
        ValueView::Logical(a) => {
            lemma_shape_round_trip(a.shape);
        },
        ValueView::Char(a) => {
            lemma_shape_round_trip(a.shape);
            lemma_u16s_round_trip(a.data);
        },
        ValueView::String(a) => {
            lemma_shape_round_trip(a.shape);
            let raw = string_items(a.data);
            assert(raw.subrange(0, raw.len() as int) =~= raw);
            lemma_parse_strings(raw, 0, a.data, Seq::empty());
            assert(Seq::<Option<Seq<char>>>::empty() + a.data =~= a.data);
        },
        ValueView::DateTime(a) => {
            lemma_shape_round_trip(a.shape);
            lemma_datetime_round_trip(a);
        },
        ValueView::Duration(a) => {
            lemma_shape_round_trip(a.shape);
            lemma_duration_round_trip(a);
        },
        ValueView::CalendarDuration(a) => {
            lemma_shape_round_trip(a.shape);
            lemma_calendar_round_trip(a);
        },
        ValueView::Categorical(a) => {
            lemma_shape_round_trip(a.shape);
            lemma_categorical_round_trip(a);
        },
        ValueView::EmptyStruct => {
            let shape = seq![1u64, 1u64];
            assert(shape_fits(shape));
            let dims = shape_as_usize(shape);
            assert(dims.len() == 2 && dims[0] == 1 && dims[1] == 1);
            let one = dims.drop_last();
            assert(one.len() == 1 && one[0] == 1);
            assert(one.drop_last().len() == 0);
            assert(crate::value::shape_product(one.drop_last()) == 1);
            assert(crate::value::shape_product(one) == crate::value::shape_product(
                one.drop_last(),
            ) * (one.last() as nat));
            assert(crate::value::shape_product(one) == 1);
            assert(crate::value::shape_product(dims) == crate::value::shape_product(one) * (
            dims.last() as nat));
            assert(crate::value::shape_product(dims) == 1);
        },
    }
}

/// The elements of a leaf in memory whose components are as long as its
/// shape says can be counted in `usize`.
pub proof fn lemma_count_fits(value: GbfValue)
    requires
        value@.leaf_wf(),
    ensures
        count_fits(value@),
{
    match value {
        GbfValue::Struct(m) => {
            crate::value::lemma_struct_view(m);
        },
        GbfValue::Numeric(a) => {
            assert(a.real_le@.len() == a.real_le.len());
            let n = element_total(a@.shape);
            let w = a@.class.width();
            assert(n <= n * w) by (nonlinear_arith)
                requires
                    w >= 1,
            ;
        },
        GbfValue::Logical(a) => {
            assert(a.data@.len() == a.data.len());
        },
        GbfValue::Char(a) => {
            assert(a.data@.len() == a.data.len());
        },
        GbfValue::String(a) => {
            assert(a@.data.len() == a.data@.len());
            assert(a.data@.len() == a.data.len());
        },
        GbfValue::DateTime(a) => {
            assert(a.is_nat@.len() == a.is_nat.len());
        },
        GbfValue::Duration(a) => {
            assert(a.is_nan@.len() == a.is_nan.len());
        },
        GbfValue::CalendarDuration(a) => {
            assert(a.is_missing@.len() == a.is_missing.len());
        },
        GbfValue::Categorical(a) => {
            assert(a.codes@.len() == a.codes.len());
        },
        GbfValue::EmptyStruct => {},
    }
}

/// Round trip of the leaf codec for a leaf in memory: a leaf that can be
/// encoded, and whose optional texts are absent or not empty, is what
/// decoding its bytes under its header words gives.
pub proof fn lemma_leaf_round_trip(value: GbfValue)
    requires
        encode_failure(value@) is None,
        texts_told_apart(value@),
    ensures
        decode_leaf_spec(
            leaf_kind(value@),
            leaf_class(value@),
            leaf_shape(value@),
            leaf_complex(value@),
            leaf_bytes(value@),
        ) == Ok::<ValueView, ErrorView>(value@),
{
    lemma_count_fits(value);
    lemma_leaf_view_round_trip(value@);
}

} // verus!
