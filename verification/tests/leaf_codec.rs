use gbin::decode::shape_to_usize;
use gbin::le::{u16_at, u32_at, u64_at, write_u16_le, write_u64_le};
use gbin::text::hex8_text;
use gbin::{
    decode_leaf, element_count, element_count_checked, encode_leaf, read_u32_le, write_u32_le,
    CalendarDurationArray, CategoricalArray, CharArray, DateTimeArray, DurationArray, ErrorKind,
    FieldMeta, GbfError, GbfValue, LogicalArray, NumericArray, NumericClass, StringArray, StructMap,
};

fn meta(kind: &str, class_name: &str, shape: Vec<u64>, complex: bool) -> FieldMeta {
    FieldMeta {
        name: "x".to_string(),
        kind: kind.to_string(),
        class_name: class_name.to_string(),
        shape,
        complex,
        encoding: String::new(),
        compression: "none".to_string(),
        offset: 0,
        csize: 0,
        usize: 0,
        crc32: 0,
    }
}

fn round_trip(v: &GbfValue) -> GbfValue {
    let (raw, kind, class_name, shape, complex, _encoding) = encode_leaf("x", v).unwrap();
    decode_leaf(&meta(&kind, &class_name, shape, complex), &raw).unwrap()
}

#[test]
fn class_names_are_read_in_any_case() {
    assert_eq!(NumericClass::from_matlab_class("double"), Some(NumericClass::Double));
    assert_eq!(NumericClass::from_matlab_class("DOUBLE"), Some(NumericClass::Double));
    assert_eq!(NumericClass::from_matlab_class("Single"), Some(NumericClass::Single));
    assert_eq!(NumericClass::from_matlab_class("int8"), Some(NumericClass::Int8));
    assert_eq!(NumericClass::from_matlab_class("uInt8"), Some(NumericClass::Uint8));
    assert_eq!(NumericClass::from_matlab_class("int16"), Some(NumericClass::Int16));
    assert_eq!(NumericClass::from_matlab_class("uint16"), Some(NumericClass::Uint16));
    assert_eq!(NumericClass::from_matlab_class("int32"), Some(NumericClass::Int32));
    assert_eq!(NumericClass::from_matlab_class("uint32"), Some(NumericClass::Uint32));
    assert_eq!(NumericClass::from_matlab_class("int64"), Some(NumericClass::Int64));
    assert_eq!(NumericClass::from_matlab_class("uint64"), Some(NumericClass::Uint64));
    assert_eq!(NumericClass::from_matlab_class("float"), None);
    assert_eq!(NumericClass::from_matlab_class(""), None);
    assert_eq!(NumericClass::from_matlab_class(" double"), None);
}

#[test]
fn class_names_and_widths() {
    let all = [
        (NumericClass::Double, "double", 8),
        (NumericClass::Single, "single", 4),
        (NumericClass::Int8, "int8", 1),
        (NumericClass::Uint8, "uint8", 1),
        (NumericClass::Int16, "int16", 2),
        (NumericClass::Uint16, "uint16", 2),
        (NumericClass::Int32, "int32", 4),
        (NumericClass::Uint32, "uint32", 4),
        (NumericClass::Int64, "int64", 8),
        (NumericClass::Uint64, "uint64", 8),
    ];
    for (class, name, width) in all {
        assert_eq!(class.as_matlab_class(), name);
        assert_eq!(class.bytes_per_element(), width);
        assert_eq!(NumericClass::from_matlab_class(name), Some(class));
    }
}

#[test]
fn element_counts() {
    assert_eq!(element_count(&[]), 1);
    assert_eq!(element_count(&[3, 3]), 9);
    assert_eq!(element_count(&[0, 3]), 0);
    assert_eq!(element_count(&[usize::MAX, 2]), usize::MAX);
    assert_eq!(element_count(&[usize::MAX, 2, 0]), 0);
    assert_eq!(element_count_checked(&[]), Some(0));
    assert_eq!(element_count_checked(&[2, 3, 4]), Some(24));
    assert_eq!(element_count_checked(&[3, 0]), Some(0));
    assert_eq!(element_count_checked(&[usize::MAX, 2, 0]), Some(0));
    assert_eq!(element_count_checked(&[usize::MAX, 2]), None);
    assert_eq!(element_count_checked(&[usize::MAX]), Some(usize::MAX));
}

#[test]
fn bytes_per_part_is_count_times_width() {
    let a = NumericArray::new_real(NumericClass::Int16, vec![2, 5], vec![0; 20]);
    assert_eq!(a.bytes_per_part(), 20);
    assert!(!a.complex);
    assert_eq!(a.imag_le, None);
    let c = NumericArray::new_complex(NumericClass::Single, vec![3], vec![1; 12], vec![2; 12]);
    assert_eq!(c.bytes_per_part(), 12);
    assert!(c.complex);
    assert_eq!(c.imag_le, Some(vec![2; 12]));
}

#[test]
fn little_endian_numbers() {
    let mut out = vec![9u8];
    write_u32_le(&mut out, 0x0403_0201);
    write_u16_le(&mut out, 0xBEEF);
    write_u64_le(&mut out, 0x0807_0605_0403_0201);
    assert_eq!(out, vec![9, 1, 2, 3, 4, 0xEF, 0xBE, 1, 2, 3, 4, 5, 6, 7, 8]);
    assert_eq!(u32_at(&out, 1), 0x0403_0201);
    assert_eq!(u16_at(&out, 5), 0xBEEF);
    assert_eq!(u64_at(&out, 7), 0x0807_0605_0403_0201);
    assert_eq!(read_u32_le(&[0xFF, 0xFF, 0xFF, 0xFF], 0).unwrap(), u32::MAX);
    assert_eq!(read_u32_le(&out, 1).unwrap(), 0x0403_0201);
    assert_eq!(read_u32_le(&out, 11).unwrap(), 0x0807_0605);
    assert_eq!(read_u32_le(&out, 12).unwrap_err().kind(), ErrorKind::Io);
    assert_eq!(read_u32_le(&out, usize::MAX).unwrap_err().kind(), ErrorKind::Io);
    assert_eq!(read_u32_le(&[1, 2, 3], 0).unwrap_err().kind(), ErrorKind::Io);
}

#[test]
fn hexadecimal_text_has_eight_upper_case_digits() {
    assert_eq!(hex8_text(0), "00000000");
    assert_eq!(hex8_text(0xDEADBEEF), "DEADBEEF");
    assert_eq!(hex8_text(0x0000_00A1), "000000A1");
    assert_eq!(hex8_text(u32::MAX), "FFFFFFFF");
    assert_eq!(hex8_text(0x1234_5678), format!("{:08X}", 0x1234_5678u32));
}

#[test]
fn numeric_leaf_is_real_then_imaginary() {
    let real: Vec<u8> = (0..16).collect();
    let imag: Vec<u8> = (100..116).collect();
    let v = GbfValue::Numeric(NumericArray::new_complex(
        NumericClass::Double,
        vec![1, 2],
        real.clone(),
        imag.clone(),
    ));
    let (raw, kind, class_name, shape, complex, encoding) = encode_leaf("z", &v).unwrap();
    let mut expected = real;
    expected.extend_from_slice(&imag);
    assert_eq!(raw, expected);
    assert_eq!(kind, "numeric");
    assert_eq!(class_name, "double");
    assert_eq!(shape, vec![1, 2]);
    assert!(complex);
    assert_eq!(encoding, "");
    assert_eq!(round_trip(&v), v);
}

#[test]
fn numeric_leaf_with_wrong_sizes_is_a_format_error() {
    let short = GbfValue::Numeric(NumericArray::new_real(NumericClass::Double, vec![3, 3], vec![0; 71]));
    assert_eq!(encode_leaf("a", &short).unwrap_err().kind(), ErrorKind::Format);

    let stray_imag = GbfValue::Numeric(NumericArray {
        class: NumericClass::Uint8,
        shape: vec![2],
        complex: false,
        real_le: vec![1, 2],
        imag_le: Some(vec![3, 4]),
    });
    assert_eq!(encode_leaf("a", &stray_imag).unwrap_err().kind(), ErrorKind::Format);

    let missing_imag = GbfValue::Numeric(NumericArray {
        class: NumericClass::Uint8,
        shape: vec![2],
        complex: true,
        real_le: vec![1, 2],
        imag_le: None,
    });
    assert_eq!(encode_leaf("a", &missing_imag).unwrap_err().kind(), ErrorKind::Format);

    let short_imag = GbfValue::Numeric(NumericArray::new_complex(
        NumericClass::Uint8,
        vec![2],
        vec![1, 2],
        vec![3],
    ));
    let err = encode_leaf("the_field", &short_imag).unwrap_err();
    assert_eq!(err.kind(), ErrorKind::Format);
    assert!(err.message().contains("the_field"));

    let overflow = GbfValue::Numeric(NumericArray::new_real(
        NumericClass::Double,
        vec![usize::MAX, 2],
        vec![],
    ));
    assert_eq!(encode_leaf("a", &overflow).unwrap_err().kind(), ErrorKind::Format);
}

#[test]
fn a_record_is_no_leaf() {
    let v = GbfValue::Struct(StructMap::new());
    assert_eq!(encode_leaf("s", &v).unwrap_err().kind(), ErrorKind::Unsupported);
}

#[test]
fn logical_and_char_leaves() {
    let l = GbfValue::Logical(LogicalArray { shape: vec![2, 2], data: vec![1, 0, 0, 1] });
    let (raw, kind, class_name, shape, complex, encoding) = encode_leaf("l", &l).unwrap();
    assert_eq!(raw, vec![1, 0, 0, 1]);
    assert_eq!((kind.as_str(), class_name.as_str()), ("logical", "logical"));
    assert_eq!(shape, vec![2, 2]);
    assert!(!complex);
    assert_eq!(encoding, "");
    assert_eq!(round_trip(&l), l);

    let c = GbfValue::Char(CharArray::from_str_row("GBF"));
    let (raw, kind, class_name, shape, _complex, encoding) = encode_leaf("c", &c).unwrap();
    assert_eq!(raw, vec![0x47, 0, 0x42, 0, 0x46, 0]);
    assert_eq!((kind.as_str(), class_name.as_str()), ("char", "char"));
    assert_eq!(shape, vec![1, 3]);
    assert_eq!(encoding, "utf-16-codeunits");
    assert_eq!(round_trip(&c), c);

    let bad = GbfValue::Logical(LogicalArray { shape: vec![2, 2], data: vec![1, 0, 0] });
    assert_eq!(encode_leaf("l", &bad).unwrap_err().kind(), ErrorKind::Format);
    let bad = GbfValue::Char(CharArray { shape: vec![1, 2], data: vec![65] });
    assert_eq!(encode_leaf("c", &bad).unwrap_err().kind(), ErrorKind::Format);
}

#[test]
fn char_row_holds_utf16_code_units() {
    let c = CharArray::from_str_row("A\nB");
    assert_eq!(c.shape, vec![1, 3]);
    assert_eq!(c.data, vec![65, 10, 66]);
    let wide = CharArray::from_str_row("a\u{1F600}");
    assert_eq!(wide.shape, vec![1, 3]);
    assert_eq!(wide.data, vec![0x61, 0xD83D, 0xDE00]);
    let empty = CharArray::from_str_row("");
    assert_eq!(empty.shape, vec![1, 0]);
    assert!(empty.data.is_empty());
}

#[test]
fn string_leaf_layout() {
    let v = GbfValue::String(StringArray {
        shape: vec![1, 3],
        data: vec![Some("hé".into()), None, Some("".into())],
    });
    let (raw, kind, class_name, shape, _complex, encoding) = encode_leaf("s", &v).unwrap();
    assert_eq!(
        raw,
        vec![
            0, 3, 0, 0, 0, b'h', 0xC3, 0xA9, // "hé"
            1, 0, 0, 0, 0, // missing
            0, 0, 0, 0, 0, // empty
        ]
    );
    assert_eq!((kind.as_str(), class_name.as_str()), ("string", "string"));
    assert_eq!(shape, vec![1, 3]);
    assert_eq!(encoding, "utf-8");
    assert_eq!(round_trip(&v), v);

    let bad = GbfValue::String(StringArray { shape: vec![2], data: vec![None] });
    assert_eq!(encode_leaf("s", &bad).unwrap_err().kind(), ErrorKind::Format);
}

#[test]
fn missing_string_skips_its_bytes() {
    // A missing element that still carries two bytes, then "ok".
    let raw = vec![7, 2, 0, 0, 0, 0xFF, 0xFE, 0, 2, 0, 0, 0, b'o', b'k'];
    let v = decode_leaf(&meta("string", "string", vec![2, 1], false), &raw).unwrap();
    assert_eq!(
        v,
        GbfValue::String(StringArray { shape: vec![2, 1], data: vec![None, Some("ok".into())] })
    );
}

#[test]
fn broken_strings_are_format_errors() {
    let m = meta("string", "string", vec![1], false);
    // no room for the element header
    assert_eq!(decode_leaf(&m, &[0, 1, 0]).unwrap_err().kind(), ErrorKind::Format);
    // the text ends too early
    assert_eq!(decode_leaf(&m, &[0, 5, 0, 0, 0, b'a']).unwrap_err().kind(), ErrorKind::Format);
    // the text is not UTF-8
    assert_eq!(decode_leaf(&m, &[0, 1, 0, 0, 0, 0xFF]).unwrap_err().kind(), ErrorKind::Format);
    // bytes after the last element are not read
    assert!(decode_leaf(&m, &[1, 0, 0, 0, 0, 9, 9]).is_ok());
}

#[test]
fn datetime_leaf_layout() {
    let v = GbfValue::DateTime(DateTimeArray {
        shape: vec![1, 2],
        tz: Some("UTC".into()),
        locale: None,
        format: Some("y".into()),
        is_nat: vec![0, 1],
        year: vec![2025, -1],
        month: vec![12, 0],
        day: vec![29, 0],
        ms_day: vec![36_934_000, 0],
    });
    let (raw, kind, class_name, shape, _complex, encoding) = encode_leaf("t", &v).unwrap();
    let mut expected = vec![0b0011u8];
    expected.extend_from_slice(&3u32.to_le_bytes());
    expected.extend_from_slice(b"UTC");
    expected.extend_from_slice(&0u32.to_le_bytes());
    expected.extend_from_slice(&1u32.to_le_bytes());
    expected.extend_from_slice(b"y");
    expected.extend_from_slice(&[0, 1]);
    expected.extend_from_slice(&2025i16.to_le_bytes());
    expected.extend_from_slice(&(-1i16).to_le_bytes());
    expected.extend_from_slice(&[12, 0]);
    expected.extend_from_slice(&[29, 0]);
    expected.extend_from_slice(&36_934_000i32.to_le_bytes());
    expected.extend_from_slice(&0i32.to_le_bytes());
    assert_eq!(raw, expected);
    assert_eq!((kind.as_str(), class_name.as_str()), ("datetime", "datetime"));
    assert_eq!(shape, vec![1, 2]);
    assert_eq!(encoding, "dt:tz-ymd+msday+nat-mask+tz+locale+format");
    assert_eq!(round_trip(&v), v);
}

#[test]
fn naive_datetime_flags_and_encoding() {
    let v = GbfValue::DateTime(DateTimeArray {
        shape: vec![1],
        tz: None,
        locale: Some("en_US".into()),
        format: None,
        is_nat: vec![0],
        year: vec![1999],
        month: vec![1],
        day: vec![2],
        ms_day: vec![-5],
    });
    let (raw, _kind, _class, _shape, _complex, encoding) = encode_leaf("t", &v).unwrap();
    assert_eq!(raw[0], 4 + 8);
    assert_eq!(encoding, "dt:naive-ymd+msday+nat-mask+locale+format");
    assert_eq!(round_trip(&v), v);

    let bad = GbfValue::DateTime(DateTimeArray {
        shape: vec![2],
        tz: None,
        locale: None,
        format: None,
        is_nat: vec![0, 0],
        year: vec![1999],
        month: vec![1, 1],
        day: vec![2, 2],
        ms_day: vec![0, 0],
    });
    assert_eq!(encode_leaf("t", &bad).unwrap_err().kind(), ErrorKind::Format);
}

#[test]
fn an_empty_time_zone_is_read_back_as_absent() {
    let v = GbfValue::DateTime(DateTimeArray {
        shape: vec![0],
        tz: Some(String::new()),
        locale: None,
        format: None,
        is_nat: vec![],
        year: vec![],
        month: vec![],
        day: vec![],
        ms_day: vec![],
    });
    match round_trip(&v) {
        GbfValue::DateTime(a) => assert_eq!(a.tz, None),
        other => panic!("no datetime: {other:?}"),
    }
}

#[test]
fn broken_datetimes_are_format_errors() {
    let m = meta("datetime", "datetime", vec![1], false);
    assert_eq!(decode_leaf(&m, &[0; 12]).unwrap_err().kind(), ErrorKind::Format);
    // a time zone of 8 bytes that leaves no room for the locale's length
    let mut raw = vec![1u8, 8, 0, 0, 0];
    raw.extend_from_slice(&[b'a'; 8]);
    assert_eq!(decode_leaf(&m, &raw).unwrap_err().kind(), ErrorKind::Format);
    // no components
    assert_eq!(decode_leaf(&m, &[4; 13]).unwrap_err().kind(), ErrorKind::Format);
    let mut raw = vec![4u8, 0, 0, 0, 0, 0, 0, 0, 0, 0, 0, 0, 0];
    raw.extend_from_slice(&[0; 8]);
    assert_eq!(decode_leaf(&m, &raw).unwrap_err().kind(), ErrorKind::Format);
    raw.push(0);
    assert!(decode_leaf(&m, &raw).is_ok());
}

#[test]
fn duration_leaves() {
    let d = GbfValue::Duration(DurationArray {
        shape: vec![1, 2],
        is_nan: vec![0, 1],
        ms: vec![-1500, 0],
    });
    let (raw, kind, class_name, _shape, _complex, encoding) = encode_leaf("d", &d).unwrap();
    let mut expected = vec![0u8, 1];
    expected.extend_from_slice(&(-1500i64).to_le_bytes());
    expected.extend_from_slice(&0i64.to_le_bytes());
    assert_eq!(raw, expected);
    assert_eq!((kind.as_str(), class_name.as_str()), ("duration", "duration"));
    assert_eq!(encoding, "ms-i64+nan-mask");
    assert_eq!(round_trip(&d), d);

    let c = GbfValue::CalendarDuration(CalendarDurationArray {
        shape: vec![1],
        is_missing: vec![0],
        months: vec![-2],
        days: vec![20],
        time_ms: vec![60_000],
    });
    let (raw, kind, class_name, _shape, _complex, encoding) = encode_leaf("c", &c).unwrap();
    let mut expected = vec![0u8];
    expected.extend_from_slice(&(-2i32).to_le_bytes());
    expected.extend_from_slice(&20i32.to_le_bytes());
    expected.extend_from_slice(&60_000i64.to_le_bytes());
    assert_eq!(raw, expected);
    assert_eq!((kind.as_str(), class_name.as_str()), ("calendarduration", "calendarDuration"));
    assert_eq!(encoding, "mask+months-i32+days-i32+time-ms-i64");
    assert_eq!(round_trip(&c), c);

    let m = meta("duration", "duration", vec![2], false);
    assert_eq!(decode_leaf(&m, &[0; 17]).unwrap_err().kind(), ErrorKind::Format);
    let m = meta("calendarduration", "calendarDuration", vec![1], false);
    assert_eq!(decode_leaf(&m, &[0; 16]).unwrap_err().kind(), ErrorKind::Format);
}

#[test]
fn categorical_leaf_layout() {
    let v = GbfValue::Categorical(CategoricalArray {
        shape: vec![1, 3],
        categories: vec!["a".into(), "bc".into()],
        codes: vec![1, 0, 2],
    });
    let (raw, kind, class_name, _shape, _complex, encoding) = encode_leaf("c", &v).unwrap();
    let mut expected = vec![2u8, 0, 0, 0];
    expected.extend_from_slice(&[1, 0, 0, 0, b'a']);
    expected.extend_from_slice(&[2, 0, 0, 0, b'b', b'c']);
    expected.extend_from_slice(&[1, 0, 0, 0, 0, 0, 0, 0, 2, 0, 0, 0]);
    assert_eq!(raw, expected);
    assert_eq!((kind.as_str(), class_name.as_str()), ("categorical", "categorical"));
    assert_eq!(encoding, "cats-utf8+codes-u32");
    assert_eq!(round_trip(&v), v);
}

#[test]
fn categorical_codes_must_name_a_category() {
    let v = GbfValue::Categorical(CategoricalArray {
        shape: vec![2],
        categories: vec!["a".into()],
        codes: vec![1, 2],
    });
    assert_eq!(encode_leaf("c", &v).unwrap_err().kind(), ErrorKind::Format);
    // the decoder of a leaf takes such codes as they are
    let raw = vec![1u8, 0, 0, 0, 1, 0, 0, 0, b'a', 1, 0, 0, 0, 2, 0, 0, 0];
    let got = decode_leaf(&meta("categorical", "categorical", vec![2], false), &raw).unwrap();
    assert_eq!(got, v);
}

#[test]
fn broken_categoricals_are_format_errors() {
    let m = meta("categorical", "categorical", vec![1], false);
    assert_eq!(decode_leaf(&m, &[1, 0, 0]).unwrap_err().kind(), ErrorKind::Format);
    assert_eq!(decode_leaf(&m, &[1, 0, 0, 0, 1, 0]).unwrap_err().kind(), ErrorKind::Format);
    assert_eq!(decode_leaf(&m, &[1, 0, 0, 0, 2, 0, 0, 0, b'a']).unwrap_err().kind(), ErrorKind::Format);
    assert_eq!(
        decode_leaf(&m, &[1, 0, 0, 0, 1, 0, 0, 0, 0xFF, 0, 0, 0, 0]).unwrap_err().kind(),
        ErrorKind::Format
    );
    assert_eq!(
        decode_leaf(&m, &[0, 0, 0, 0, 0, 0, 0, 0, 0]).unwrap_err().kind(),
        ErrorKind::Format
    );
}

#[test]
fn empty_record_leaf() {
    let (raw, kind, class_name, shape, complex, encoding) =
        encode_leaf("e", &GbfValue::EmptyStruct).unwrap();
    assert!(raw.is_empty());
    assert_eq!((kind.as_str(), class_name.as_str()), ("struct", "struct"));
    assert_eq!(shape, vec![1, 1]);
    assert!(!complex);
    assert_eq!(encoding, "empty-scalar-struct");
    assert_eq!(round_trip(&GbfValue::EmptyStruct), GbfValue::EmptyStruct);
}

#[test]
fn kinds_are_read_in_any_case_and_unknown_ones_refused() {
    let v = decode_leaf(&meta("NUMERIC", "UINT8", vec![2], false), &[7, 8]).unwrap();
    assert_eq!(v, GbfValue::Numeric(NumericArray::new_real(NumericClass::Uint8, vec![2], vec![7, 8])));
    assert_eq!(
        decode_leaf(&meta("table", "table", vec![1], false), &[]).unwrap_err().kind(),
        ErrorKind::Format
    );
    let mut blob = meta("blob", "blob", vec![1, 1], false);
    blob.name = "f".into();
    match decode_leaf(&blob, &[]) {
        Err(GbfError::Format(m)) => assert_eq!(m, "unknown kind for field `f`"),
        other => panic!("{other:?}"),
    }
    assert_eq!(
        decode_leaf(&meta("numeric", "half", vec![1], false), &[0, 0]).unwrap_err().kind(),
        ErrorKind::Unsupported
    );
    assert_eq!(
        decode_leaf(&meta("numeric", "uint8", vec![3], false), &[0, 0]).unwrap_err().kind(),
        ErrorKind::Format
    );
    assert_eq!(
        decode_leaf(&meta("numeric", "uint8", vec![3], true), &[0, 0, 0]).unwrap_err().kind(),
        ErrorKind::Format
    );
    assert_eq!(
        decode_leaf(&meta("logical", "logical", vec![3], false), &[0, 0]).unwrap_err().kind(),
        ErrorKind::Format
    );
    assert_eq!(
        decode_leaf(&meta("char", "char", vec![3], false), &[0, 0]).unwrap_err().kind(),
        ErrorKind::Format
    );
    assert_eq!(
        decode_leaf(&meta("numeric", "uint8", vec![u64::MAX, 2], false), &[]).unwrap_err().kind(),
        ErrorKind::Format
    );
}

#[test]
fn complex_numeric_is_split_in_the_middle() {
    let v = decode_leaf(&meta("numeric", "int16", vec![2], true), &[1, 2, 3, 4, 5, 6, 7, 8]).unwrap();
    assert_eq!(
        v,
        GbfValue::Numeric(NumericArray::new_complex(
            NumericClass::Int16,
            vec![2],
            vec![1, 2, 3, 4],
            vec![5, 6, 7, 8]
        ))
    );
}

#[test]
fn shapes_cross_between_widths() {
    assert_eq!(shape_to_usize(&vec![1, 0, 7]), Some(vec![1, 0, 7]));
    assert_eq!(shape_to_usize(&vec![]), Some(vec![]));
}

#[test]
fn utf16_units_agree_with_the_standard_encoder() {
    let texts = [
        "",
        "plain ascii",
        "h\u{E9}llo",
        "\u{7FF}\u{800}\u{D7FF}\u{E000}\u{FFFF}",
        "\u{10000}\u{10FFFF}",
        "mixed \u{1D11E} clef and \u{4E2D}\u{6587}",
    ];
    for text in texts {
        let expected: Vec<u16> = text.encode_utf16().collect();
        let row = CharArray::from_str_row(text);
        assert_eq!(row.data, expected);
        assert_eq!(row.shape, vec![1, expected.len()]);
    }
    assert_eq!(CharArray::from_str_row("\u{10000}").data, vec![0xD800, 0xDC00]);
    assert_eq!(CharArray::from_str_row("\u{10FFFF}").data, vec![0xDBFF, 0xDFFF]);
    assert_eq!(CharArray::from_str_row("\u{FFFF}").data, vec![0xFFFF]);
}

#[test]
fn numeric_arrays_from_float_bit_patterns() {
    let doubles = [1.0f64, -2.5, 0.0, f64::INFINITY, f64::NAN];
    let bits: Vec<u64> = doubles.iter().map(|v| v.to_bits()).collect();
    let a = NumericArray::from_f64_bits_column_major(vec![1, 5], &bits);
    let mut expected = Vec::new();
    for v in doubles {
        expected.extend_from_slice(&v.to_le_bytes());
    }
    assert_eq!(a.class, NumericClass::Double);
    assert_eq!(a.shape, vec![1, 5]);
    assert!(!a.complex);
    assert_eq!(a.real_le, expected);
    assert_eq!(a.imag_le, None);
    assert_eq!(&a.real_le[..8], &[0, 0, 0, 0, 0, 0, 0xF0, 0x3F]);

    let singles = [1.0f32, -2.5, 0.0];
    let bits: Vec<u32> = singles.iter().map(|v| v.to_bits()).collect();
    let b = NumericArray::from_f32_bits_column_major(vec![3, 1], &bits);
    let mut expected = Vec::new();
    for v in singles {
        expected.extend_from_slice(&v.to_le_bytes());
    }
    assert_eq!(b.class, NumericClass::Single);
    assert_eq!(b.shape, vec![3, 1]);
    assert!(!b.complex);
    assert_eq!(b.real_le, expected);
    assert_eq!(b.imag_le, None);
    assert_eq!(&b.real_le[..4], &[0, 0, 0x80, 0x3F]);

    let none = NumericArray::from_f64_bits_column_major(vec![0, 3], &[]);
    assert!(none.real_le.is_empty());
}
