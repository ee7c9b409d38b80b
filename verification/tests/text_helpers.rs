use gbin::text::{
    concat2, concat3, decimal_text, eq_ignoring_case, hex8_text, parse_decimal_u64, same_text,
    split_once_at, strip_prefix_of, text_lt, text_of_utf8, trim_text, upper_ascii, utf16_of,
};

const SAMPLES: [&str; 14] = [
    "",
    "a",
    "A",
    "ab",
    "a.b",
    "abc",
    "b",
    "z",
    "\u{E9}",
    "e\u{301}",
    "\u{FFFF}",
    "\u{10000}",
    "\u{10FFFF}",
    "a\u{1F600}b",
];

#[test]
fn text_order_is_the_order_of_strings() {
    for a in SAMPLES {
        for b in SAMPLES {
            assert_eq!(text_lt(a, b), a < b, "{a:?} < {b:?}");
            assert_eq!(same_text(a, b), a == b, "{a:?} == {b:?}");
        }
    }
    assert!(text_lt("a", "b"));
    assert!(!text_lt("b", "a"));
    assert!(text_lt("a", "ab"));
    assert!(!text_lt("a", "a"));
    assert!(text_lt("Z", "a"));
    assert!(text_lt("\u{FFFF}", "\u{10000}"));
}

#[test]
fn a_text_splits_at_the_first_delimiter() {
    assert_eq!(split_once_at("a.b.c", '.'), Some(("a", "b.c")));
    assert_eq!(split_once_at(".b", '.'), Some(("", "b")));
    assert_eq!(split_once_at("a.", '.'), Some(("a", "")));
    assert_eq!(split_once_at(".", '.'), Some(("", "")));
    assert_eq!(split_once_at("abc", '.'), None);
    assert_eq!(split_once_at("", '.'), None);
    assert_eq!(split_once_at("\u{E9}t\u{E9}.\u{1F600}", '.'), Some(("\u{E9}t\u{E9}", "\u{1F600}")));
    assert_eq!(split_once_at("a\u{1F600}b", '\u{1F600}'), Some(("a", "b")));
    for s in SAMPLES {
        assert_eq!(split_once_at(s, '.'), s.split_once('.'));
        assert_eq!(split_once_at(s, 'b'), s.split_once('b'));
    }
}

#[test]
fn a_prefix_is_stripped_where_it_stands() {
    assert_eq!(strip_prefix_of("a.b.c", "a."), Some("b.c"));
    assert_eq!(strip_prefix_of("a.b.c", ""), Some("a.b.c"));
    assert_eq!(strip_prefix_of("a.b.c", "a.b.c"), Some(""));
    assert_eq!(strip_prefix_of("a.b.c", "a.b.c.d"), None);
    assert_eq!(strip_prefix_of("a.b.c", "b."), None);
    assert_eq!(strip_prefix_of("", "a"), None);
    assert_eq!(strip_prefix_of("", ""), Some(""));
    assert_eq!(strip_prefix_of("\u{E9}t\u{E9}.x", "\u{E9}t\u{E9}."), Some("x"));
    for s in SAMPLES {
        for p in SAMPLES {
            assert_eq!(strip_prefix_of(s, p), s.strip_prefix(p), "{s:?} without {p:?}");
        }
    }
}

#[test]
fn utf16_units_of_samples() {
    for s in SAMPLES {
        let expected: Vec<u16> = s.encode_utf16().collect();
        assert_eq!(utf16_of(s), expected);
    }
    assert_eq!(utf16_of("a\u{1F600}b"), vec![0x61, 0xD83D, 0xDE00, 0x62]);
}

#[test]
fn decimal_numbers_are_read_and_written() {
    assert_eq!(parse_decimal_u64("0"), Some(0));
    assert_eq!(parse_decimal_u64("+7"), Some(7));
    assert_eq!(parse_decimal_u64("007"), Some(7));
    assert_eq!(parse_decimal_u64("18446744073709551615"), Some(u64::MAX));
    assert_eq!(parse_decimal_u64("18446744073709551616"), None);
    assert_eq!(parse_decimal_u64(""), None);
    assert_eq!(parse_decimal_u64("+"), None);
    assert_eq!(parse_decimal_u64("-1"), None);
    assert_eq!(parse_decimal_u64(" 1"), None);
    assert_eq!(parse_decimal_u64("1.0"), None);
    assert_eq!(parse_decimal_u64("12a"), None);
    assert_eq!(decimal_text(0), "0");
    assert_eq!(decimal_text(10), "10");
    assert_eq!(decimal_text(4096), "4096");
    assert_eq!(decimal_text(u64::MAX), "18446744073709551615");
    for n in [0u64, 1, 9, 10, 99, 100, 12345, u64::MAX - 1, u64::MAX] {
        assert_eq!(decimal_text(n), n.to_string());
        assert_eq!(parse_decimal_u64(&decimal_text(n)), Some(n));
    }
}

#[test]
fn a_checksum_is_written_as_eight_capital_hex_digits() {
    assert_eq!(hex8_text(0), "00000000");
    assert_eq!(hex8_text(0xABCDEF), "00ABCDEF");
    assert_eq!(hex8_text(0xDEADBEEF), "DEADBEEF");
    assert_eq!(hex8_text(u32::MAX), "FFFFFFFF");
    assert_eq!(hex8_text(0x0123_4567), "01234567");
}

#[test]
fn bytes_become_text_only_where_they_are_utf8() {
    assert_eq!(text_of_utf8(b"plain"), Some("plain".to_string()));
    assert_eq!(text_of_utf8(b""), Some(String::new()));
    assert_eq!(text_of_utf8("h\u{E9}llo \u{1F600}".as_bytes()), Some("h\u{E9}llo \u{1F600}".to_string()));
    assert_eq!(text_of_utf8(&[0xFF]), None);
    assert_eq!(text_of_utf8(&[0xC3]), None);
    assert_eq!(text_of_utf8(&[0xED, 0xA0, 0x80]), None);
    assert_eq!(text_of_utf8(&[0xC0, 0x80]), None);
}

#[test]
fn texts_are_joined_in_order() {
    assert_eq!(concat2("ab", "cd"), "abcd");
    assert_eq!(concat2("", ""), "");
    assert_eq!(concat3("a", ".", "b"), "a.b");
    assert_eq!(concat3("", "x", ""), "x");
}

const CASES: [&str; 12] = [
    "",
    "zlib",
    "ZLIB",
    "ZLib",
    "zlib ",
    "zlic",
    "@[`{",
    "a\u{E9}z",
    "A\u{E9}Z",
    "A\u{C9}Z",
    "\u{17F}\u{212A}",
    "sk\u{1F600}~",
];

#[test]
fn texts_are_compared_without_the_case_of_ascii_letters() {
    for a in CASES {
        for b in CASES {
            assert_eq!(eq_ignoring_case(a, b), a.eq_ignore_ascii_case(b), "{a:?} ~ {b:?}");
        }
    }
    assert!(eq_ignoring_case("NuMeRiC", "numeric"));
    assert!(!eq_ignoring_case("numeric", "numeri"));
    assert!(!eq_ignoring_case("@", "`"));
    assert!(!eq_ignoring_case("[", "{"));
    assert!(!eq_ignoring_case("\u{E9}", "\u{C9}"));
    assert!(!eq_ignoring_case("k", "\u{212A}"));
}

#[test]
fn ascii_letters_are_put_in_capitals() {
    for a in CASES.iter().chain(SAMPLES.iter()) {
        assert_eq!(upper_ascii(a), a.to_ascii_uppercase(), "{a:?}");
    }
    assert_eq!(upper_ascii("00abcdef"), "00ABCDEF");
    assert_eq!(upper_ascii("az`{AZ"), "AZ`{AZ");
    assert_eq!(upper_ascii("h\u{E9}llo \u{1F600}"), "H\u{E9}LLO \u{1F600}");
}

#[test]
fn white_space_is_what_trimming_removes() {
    let spaces = [
        '\u{9}', '\u{A}', '\u{B}', '\u{C}', '\u{D}', ' ', '\u{85}', '\u{A0}', '\u{1680}', '\u{2000}',
        '\u{2005}', '\u{200A}', '\u{2028}', '\u{2029}', '\u{202F}', '\u{205F}', '\u{3000}',
    ];
    for c in spaces {
        assert!(c.is_whitespace(), "{c:?}");
    }
    for c in ['\u{8}', '\u{E}', '\u{1F}', '!', '\u{84}', '\u{86}', '\u{9F}', '\u{A1}', '\u{167F}', '\u{1681}',
        '\u{1FFF}', '\u{200B}', '\u{2027}', '\u{202A}', '\u{202E}', '\u{2030}', '\u{205E}', '\u{2060}',
        '\u{2FFF}', '\u{3001}', '\u{FEFF}']
    {
        assert!(!c.is_whitespace(), "{c:?}");
    }
    let mut count = 0;
    let mut n = 0u32;
    while n <= 0x10FFFF {
        if char::from_u32(n).is_some_and(|c| c.is_whitespace()) {
            count += 1;
        }
        n += 1;
    }
    assert_eq!(count, 25);
}

#[test]
fn trimming_removes_white_space_at_both_ends_only() {
    let texts = [
        "",
        " ",
        "\t\n\r ",
        "a",
        " a",
        "a ",
        "  a b  ",
        "\u{A0}a.b\u{3000}",
        "\u{2028}\u{85}x y\u{1680}\u{205F}",
        "\u{200B}a\u{200B}",
        "\u{FEFF} a",
        " \u{1F600} ",
        "a.b.c.d.leaf",
        " 0000ABCD\n",
    ];
    for t in texts {
        assert_eq!(trim_text(t), t.trim(), "{t:?}");
    }
    for a in CASES.iter().chain(SAMPLES.iter()) {
        assert_eq!(trim_text(a), a.trim(), "{a:?}");
    }
    assert_eq!(trim_text("  a b  "), "a b");
    assert_eq!(trim_text(" \t "), "");
    assert_eq!(trim_text("a.b.c.d.leaf"), "a.b.c.d.leaf");
    let mut n = 0u32;
    while n <= 0x10FFFF {
        if let Some(c) = char::from_u32(n) {
            let t = format!("{c}x{c}");
            assert_eq!(trim_text(&t), t.trim(), "{n:#x}");
        }
        n += 1;
    }
}
