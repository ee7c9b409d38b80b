use gbin::json::{parse_json, render_json, JsonNode};
use gbin::schema::{
    field_document, header_document, header_from_document, node_to_u32, node_to_u64, parse_header,
    render_header, round_float_bits,
};
use gbin::text::{concat2, concat3, decimal_text, parse_decimal_u64, text_of_utf8};
use gbin::{ErrorKind, FieldMeta, Header};

fn sample_field() -> FieldMeta {
    FieldMeta {
        name: "A".into(),
        kind: "numeric".into(),
        class_name: "double".into(),
        shape: vec![3, 3],
        complex: false,
        encoding: String::new(),
        compression: "none".into(),
        offset: 0,
        csize: 72,
        usize: 72,
        crc32: 7,
    }
}

fn sample_header() -> Header {
    Header {
        format: "GBF".into(),
        magic: "GREDBIN".into(),
        version: 1,
        endianness: "little".into(),
        order: "column-major".into(),
        root: "struct".into(),
        created_utc: "2025-12-29T10:15:34Z".into(),
        producer_version: "gbin \"0.1\"".into(),
        fields: vec![sample_field()],
        payload_start: 400,
        file_size: 472,
        header_crc32_hex: "0000ABCD".into(),
    }
}

#[test]
fn the_header_text_has_its_keys_in_order() {
    let text = render_header(&sample_header(), false);
    assert_eq!(
        text,
        "{\"format\":\"GBF\",\"magic\":\"GREDBIN\",\"version\":1,\"endianness\":\"little\",\
         \"order\":\"column-major\",\"root\":\"struct\",\"created_utc\":\"2025-12-29T10:15:34Z\",\
         \"producer_version\":\"gbin \\\"0.1\\\"\",\"fields\":[{\"name\":\"A\",\"kind\":\"numeric\",\
         \"class\":\"double\",\"shape\":[3,3],\"complex\":false,\"encoding\":\"\",\
         \"compression\":\"none\",\"offset\":0,\"csize\":72,\"usize\":72,\"crc32\":7}],\
         \"payload_start\":400,\"file_size\":472,\"header_crc32_hex\":\"0000ABCD\"}"
    );
    let pretty = render_header(&sample_header(), true);
    assert!(pretty.starts_with("{\n  \"format\": \"GBF\",\n  \"magic\": \"GREDBIN\","));
    assert!(pretty.contains("\n  \"header_crc32_hex\": \"0000ABCD\"\n}"));
}

#[test]
fn the_header_is_read_back_from_its_text() {
    let h = sample_header();
    assert_eq!(parse_header(&render_header(&h, false)).unwrap(), h);
    assert_eq!(parse_header(&render_header(&h, true)).unwrap(), h);
    assert_eq!(header_from_document(&header_document(&h)).unwrap(), h);
}

#[test]
fn keys_that_may_be_missing_have_defaults() {
    let h = parse_header(
        "{\"format\":\"GBF\",\"magic\":\"GREDBIN\",\"version\":1,\
         \"fields\":[{\"name\":\"x\",\"kind\":\"logical\",\"class\":\"logical\"}],\"more\":[1,2]}",
    )
    .unwrap();
    assert_eq!(h.endianness, "");
    assert_eq!(h.order, "");
    assert_eq!(h.root, "");
    assert_eq!(h.created_utc, "");
    assert_eq!(h.producer_version, "");
    assert_eq!(h.payload_start, 0);
    assert_eq!(h.file_size, 0);
    assert_eq!(h.header_crc32_hex, "");
    let f = &h.fields[0];
    assert!(f.shape.is_empty());
    assert!(!f.complex);
    assert_eq!(f.encoding, "");
    assert_eq!(f.compression, "");
    assert_eq!((f.offset, f.csize, f.usize, f.crc32), (0, 0, 0, 0));
}

#[test]
fn keys_that_must_be_there() {
    let full = "{\"format\":\"GBF\",\"magic\":\"GREDBIN\",\"version\":1,\"fields\":[]}";
    assert!(parse_header(full).is_ok());
    for missing in ["\"format\":\"GBF\",", "\"magic\":\"GREDBIN\",", "\"version\":1,"] {
        let text = full.replace(missing, "");
        assert_eq!(parse_header(&text).unwrap_err().kind(), ErrorKind::Json, "{text}");
    }
    let no_fields = "{\"format\":\"GBF\",\"magic\":\"GREDBIN\",\"version\":1}";
    assert_eq!(parse_header(no_fields).unwrap_err().kind(), ErrorKind::Json);
    for bad in [
        "",
        "[]",
        "{",
        "{\"format\":1,\"magic\":\"GREDBIN\",\"version\":1,\"fields\":[]}",
        "{\"format\":\"GBF\",\"magic\":\"GREDBIN\",\"version\":\"1\",\"fields\":[]}",
        "{\"format\":\"GBF\",\"magic\":\"GREDBIN\",\"version\":-1,\"fields\":[]}",
        "{\"format\":\"GBF\",\"magic\":\"GREDBIN\",\"version\":4294967296,\"fields\":[]}",
        "{\"format\":\"GBF\",\"magic\":\"GREDBIN\",\"version\":1,\"fields\":{}}",
        "{\"format\":\"GBF\",\"magic\":\"GREDBIN\",\"version\":1,\"fields\":[1]}",
        "{\"format\":\"GBF\",\"magic\":\"GREDBIN\",\"version\":1,\"fields\":[{\"name\":\"x\"}]}",
        "{\"format\":\"GBF\",\"magic\":\"GREDBIN\",\"version\":1,\"fields\":[],\"root\":null}",
        "{\"format\":\"GBF\",\"magic\":\"GREDBIN\",\"version\":1,\"fields\":[]} trailing",
    ] {
        assert_eq!(parse_header(bad).unwrap_err().kind(), ErrorKind::Json, "{bad}");
    }
    let bad_complex = "{\"format\":\"GBF\",\"magic\":\"GREDBIN\",\"version\":1,\"fields\":[{\"name\":\"x\",\"kind\":\"k\",\"class\":\"c\",\"complex\":1}]}";
    assert_eq!(parse_header(bad_complex).unwrap_err().kind(), ErrorKind::Json);
}

#[test]
fn numbers_are_read_loosely() {
    let h = parse_header(
        "{\"format\":\"GBF\",\"magic\":\"GREDBIN\",\"version\":1,\"payload_start\":\"123\",\
         \"file_size\":456.5,\"fields\":[{\"name\":\"x\",\"kind\":\"logical\",\"class\":\"logical\",\
         \"shape\":[2,3.4,-1,\"5\",null,1e30],\"offset\":-7,\"csize\":null,\"usize\":\"nope\",\
         \"crc32\":4294967296}]}",
    )
    .unwrap();
    assert_eq!(h.payload_start, 123);
    assert_eq!(h.file_size, 457);
    let f = &h.fields[0];
    assert_eq!(f.shape, vec![2, 3, 0, 5, 0, u64::MAX]);
    assert_eq!(f.offset, 0);
    assert_eq!(f.csize, 0);
    assert_eq!(f.usize, 0);
    assert_eq!(f.crc32, u32::MAX);

    let h = parse_header(
        "{\"format\":\"GBF\",\"magic\":\"GREDBIN\",\"version\":1,\"fields\":[{\"name\":\"x\",\
         \"kind\":\"k\",\"class\":\"c\",\"shape\":\"3\",\"crc32\":\"4294967296\",\"offset\":true}]}",
    )
    .unwrap();
    assert!(h.fields[0].shape.is_empty());
    assert_eq!(h.fields[0].crc32, 0);
    assert_eq!(h.fields[0].offset, 0);
}

#[test]
fn coercion_of_single_documents() {
    assert_eq!(node_to_u64(&JsonNode::Unsigned(u64::MAX)), u64::MAX);
    assert_eq!(node_to_u64(&JsonNode::Signed(-1)), 0);
    assert_eq!(node_to_u64(&JsonNode::Signed(5)), 5);
    assert_eq!(node_to_u64(&JsonNode::Float(2.5f64.to_bits())), 3);
    assert_eq!(node_to_u64(&JsonNode::Text("18446744073709551615".into())), u64::MAX);
    assert_eq!(node_to_u64(&JsonNode::Text("18446744073709551616".into())), 0);
    assert_eq!(node_to_u64(&JsonNode::Text(" 1".into())), 0);
    assert_eq!(node_to_u64(&JsonNode::Text("+12".into())), 12);
    assert_eq!(node_to_u64(&JsonNode::Null), 0);
    assert_eq!(node_to_u64(&JsonNode::Bool(true)), 0);
    assert_eq!(node_to_u64(&JsonNode::List(vec![JsonNode::Unsigned(1)])), 0);
    assert_eq!(node_to_u32(&JsonNode::Unsigned(7)), 7);
    assert_eq!(node_to_u32(&JsonNode::Unsigned(1 << 40)), u32::MAX);
    assert_eq!(node_to_u32(&JsonNode::Float(1e12f64.to_bits())), u32::MAX);
    assert_eq!(node_to_u32(&JsonNode::Text("12".into())), 12);
    assert_eq!(node_to_u32(&JsonNode::Text("4294967295".into())), u32::MAX);
    assert_eq!(node_to_u32(&JsonNode::Text("4294967296".into())), 0);
    assert_eq!(node_to_u32(&JsonNode::Signed(-3)), 0);
}

#[test]
fn doubles_are_rounded_to_the_nearest_whole_number() {
    let cases: [f64; 30] = [
        0.0,
        -0.0,
        0.25,
        0.49999999999999994,
        0.5,
        0.75,
        1.0,
        1.4999,
        1.5,
        2.5,
        3.5,
        1e-320,
        f64::MIN_POSITIVE,
        123456.789,
        4503599627370495.5,
        4503599627370496.0,
        9007199254740991.0,
        9007199254740992.0,
        9007199254740993.0,
        1e15,
        1e18,
        9223372036854775808.0,
        18446744073709549568.0,
        18446744073709551615.0,
        1e20,
        f64::MAX,
        f64::INFINITY,
        -1.0,
        -1e300,
        f64::NEG_INFINITY,
    ];
    for v in cases {
        assert_eq!(round_float_bits(v.to_bits()), v.round().max(0.0) as u64, "{v}");
    }
    assert_eq!(round_float_bits(f64::NAN.to_bits()), 0);
    assert_eq!(round_float_bits((-f64::NAN).to_bits()), 0);
    assert_eq!(round_float_bits(0.5f64.to_bits()), 1);
    assert_eq!(round_float_bits(2.5f64.to_bits()), 3);
    assert_eq!(round_float_bits(1e30f64.to_bits()), u64::MAX);
    // many more, spread over all exponents
    let mut bits: u64 = 0x0123_4567_89AB_CDEF;
    for _ in 0..20000 {
        bits = bits.wrapping_mul(6364136223846793005).wrapping_add(1442695040888963407);
        let v = f64::from_bits(bits);
        assert_eq!(round_float_bits(bits), v.round().max(0.0) as u64, "{v}");
    }
}

#[test]
fn json_documents_cross_the_text() {
    let node = parse_json("{\"b\":[1,-2,3.5,\"x\",null,true],\"a\":{}}").unwrap();
    assert_eq!(
        node,
        JsonNode::Record(vec![
            (
                "b".to_string(),
                JsonNode::List(vec![
                    JsonNode::Unsigned(1),
                    JsonNode::Signed(-2),
                    JsonNode::Float(3.5f64.to_bits()),
                    JsonNode::Text("x".into()),
                    JsonNode::Null,
                    JsonNode::Bool(true),
                ])
            ),
            ("a".to_string(), JsonNode::Record(vec![])),
        ])
    );
    assert_eq!(parse_json("{").unwrap_err().kind(), ErrorKind::Json);
    assert_eq!(parse_json("1 2").unwrap_err().kind(), ErrorKind::Json);

    let plain = JsonNode::Record(vec![
        ("z".to_string(), JsonNode::Unsigned(1)),
        ("a".to_string(), JsonNode::List(vec![JsonNode::Bool(false), JsonNode::Null])),
        ("t".to_string(), JsonNode::Text("q\"\n".into())),
    ]);
    assert_eq!(render_json(&plain, false), "{\"z\":1,\"a\":[false,null],\"t\":\"q\\\"\\n\"}");
    assert_eq!(
        render_json(&plain, true),
        "{\n  \"z\": 1,\n  \"a\": [\n    false,\n    null\n  ],\n  \"t\": \"q\\\"\\n\"\n}"
    );
    assert_eq!(parse_json(&render_json(&plain, true)).unwrap(), plain);
}

#[test]
fn a_field_document_has_the_keys_of_the_field() {
    let node = field_document(&sample_field());
    match &node {
        JsonNode::Record(members) => {
            let keys: Vec<&str> = members.iter().map(|m| m.0.as_str()).collect();
            assert_eq!(
                keys,
                vec![
                    "name", "kind", "class", "shape", "complex", "encoding", "compression",
                    "offset", "csize", "usize", "crc32"
                ]
            );
            assert_eq!(members[3].1, JsonNode::List(vec![JsonNode::Unsigned(3), JsonNode::Unsigned(3)]));
            assert_eq!(members[8].1, JsonNode::Unsigned(72));
        }
        other => panic!("{other:?}"),
    }
}

#[test]
fn decimal_numbers() {
    assert_eq!(parse_decimal_u64("42"), Some(42));
    assert_eq!(parse_decimal_u64("0"), Some(0));
    assert_eq!(parse_decimal_u64("+0"), Some(0));
    assert_eq!(parse_decimal_u64("+17"), Some(17));
    assert_eq!(parse_decimal_u64("00012"), Some(12));
    assert_eq!(parse_decimal_u64("18446744073709551615"), Some(u64::MAX));
    assert_eq!(parse_decimal_u64("18446744073709551616"), None);
    assert_eq!(parse_decimal_u64("99999999999999999999999"), None);
    assert_eq!(parse_decimal_u64("9999999999999999999999x"), None);
    for bad in ["", "+", "-0", "-1", "++1", "1+", "4.2", "1e3", " 1", "1 ", "١٢", "0x10", "1_000"] {
        assert_eq!(parse_decimal_u64(bad), None, "{bad:?}");
        assert_eq!(bad.parse::<u64>().ok(), None, "{bad:?}");
    }
    for n in [0u64, 7, 10, 99, 100, 1234567890, u64::MAX / 10, u64::MAX - 1, u64::MAX] {
        assert_eq!(decimal_text(n), n.to_string());
        assert_eq!(parse_decimal_u64(&decimal_text(n)), Some(n));
        assert_eq!(parse_decimal_u64(&format!("+{n}")), format!("+{n}").parse::<u64>().ok());
    }
}

#[test]
fn text_helpers() {
    assert_eq!(text_of_utf8(b"caf\xC3\xA9"), Some("café".to_string()));
    assert_eq!(text_of_utf8(b"\xC3"), None);
    assert_eq!(text_of_utf8(b""), Some(String::new()));
    assert_eq!(concat2("ab", "cd"), "abcd");
    assert_eq!(concat3("a", ".", "b"), "a.b");
}

#[test]
fn a_missing_key_is_named_in_the_error() {
    let full = "{\"format\":\"GBF\",\"magic\":\"GREDBIN\",\"version\":1,\"fields\":[]}";
    for (part, key) in [
        ("\"format\":\"GBF\",", "format"),
        ("\"magic\":\"GREDBIN\",", "magic"),
        ("\"version\":1,", "version"),
    ] {
        let e = parse_header(&full.replace(part, "")).unwrap_err();
        assert_eq!(e.message(), format!("JSON error: missing or invalid field `{key}`"));
    }
    let e = parse_header("{\"format\":\"GBF\",\"magic\":\"GREDBIN\",\"version\":1}").unwrap_err();
    assert_eq!(e.message(), "JSON error: missing or invalid field `fields`");
    let e = parse_header("{\"format\":\"GBF\",\"magic\":\"GREDBIN\",\"version\":1,\"fields\":[],\"root\":7}")
        .unwrap_err();
    assert_eq!(e.message(), "JSON error: missing or invalid field `root`");
}
