use gbin::checksum::{check_header_crc, choose_substitution};
use gbin::compress::{
    check_raw, choose_stored, wants_compression, within_cap, zlib_compress, zlib_decompress,
    AUTO_COMPRESS_THRESHOLD_BYTES, COMPRESS_THRESHOLD_BYTES, MAX_FIELD_USIZE,
};
use gbin::{
    compute_crc32, compute_header_crc32_hex_from_original_json, decode_field_bytes,
    header_json_with_placeholder_crc, should_try_compress, validate_header_crc, CompressionMode,
    ErrorKind, FieldMeta, GbfError, Header,
};

fn field(compression: &str, usize_: u64, crc32: u32) -> FieldMeta {
    FieldMeta {
        name: "f".to_string(),
        kind: "logical".to_string(),
        class_name: "logical".to_string(),
        shape: vec![1],
        complex: false,
        encoding: String::new(),
        compression: compression.to_string(),
        offset: 0,
        csize: 0,
        usize: usize_,
        crc32,
    }
}

fn header_with_crc(crc: &str) -> Header {
    Header {
        format: "GBF".into(),
        magic: "GREDBIN".into(),
        version: 1,
        endianness: "little".into(),
        order: "column-major".into(),
        root: "struct".into(),
        created_utc: String::new(),
        producer_version: String::new(),
        fields: vec![],
        payload_start: 0,
        file_size: 0,
        header_crc32_hex: crc.into(),
    }
}

#[test]
fn crc32_of_the_check_string() {
    assert_eq!(compute_crc32(b"123456789"), 0xCBF4_3926);
    assert_eq!(compute_crc32(b""), 0);
    assert_ne!(compute_crc32(b"a"), compute_crc32(b"b"));
}

#[test]
fn auto_mode_thresholds() {
    assert_eq!(COMPRESS_THRESHOLD_BYTES, 1024);
    assert_eq!(AUTO_COMPRESS_THRESHOLD_BYTES, 64 * 1024);
    assert_eq!(MAX_FIELD_USIZE, 16 * 1024 * 1024 * 1024);
    assert!(!should_try_compress("logical", "logical", &vec![0u8; 1023]));
    assert!(should_try_compress("logical", "logical", &vec![0u8; 1024]));
    assert!(!should_try_compress("logical", "logical", &[]));
    // floating-point arrays wait for 64 KiB
    assert!(!should_try_compress("numeric", "double", &vec![0u8; 65535]));
    assert!(should_try_compress("numeric", "double", &vec![0u8; 65536]));
    assert!(!should_try_compress("numeric", "single", &vec![0u8; 2048]));
    assert!(should_try_compress("numeric", "int32", &vec![0u8; 2048]));
    // the words count as they are written
    assert!(should_try_compress("Numeric", "double", &vec![0u8; 2048]));
    // all 256 byte values in 1024 bytes are one in four: compressible
    let mixed: Vec<u8> = (0..1024).map(|i| (i % 256) as u8).collect();
    assert!(should_try_compress("logical", "logical", &mixed));
}

#[test]
fn modes_decide_whether_compression_is_tried() {
    let big = vec![0u8; 4096];
    let small = vec![0u8; 100];
    assert!(!wants_compression(false, CompressionMode::Always, "logical", "logical", &big));
    assert!(!wants_compression(true, CompressionMode::Never, "logical", "logical", &big));
    assert!(wants_compression(true, CompressionMode::Always, "logical", "logical", &big));
    assert!(!wants_compression(true, CompressionMode::Always, "logical", "logical", &small));
    assert!(wants_compression(true, CompressionMode::Always, "numeric", "double", &big));
    assert!(!wants_compression(true, CompressionMode::Auto, "numeric", "double", &big));
    assert!(wants_compression(true, CompressionMode::Auto, "logical", "logical", &big));
}

#[test]
fn compressed_bytes_are_kept_only_if_strictly_fewer() {
    assert_eq!(choose_stored(vec![1, 2, 3], Some(vec![9, 9])), (vec![9, 9], true));
    assert_eq!(choose_stored(vec![1, 2, 3], Some(vec![9, 9, 9])), (vec![1, 2, 3], false));
    assert_eq!(choose_stored(vec![1, 2, 3], Some(vec![9, 9, 9, 9])), (vec![1, 2, 3], false));
    assert_eq!(choose_stored(vec![1, 2, 3], None), (vec![1, 2, 3], false));
    assert_eq!(choose_stored(vec![], Some(vec![])), (vec![], false));
}

#[test]
fn zlib_gives_the_bytes_back() {
    let raw: Vec<u8> = (0..5000).map(|i| (i % 7) as u8).collect();
    for level in [0, 1, 6, 9, 50] {
        let stored = zlib_compress(&raw, level).unwrap();
        assert_ne!(stored, raw);
        assert_eq!(zlib_decompress(&stored, raw.len() as u64).unwrap(), raw);
        assert_eq!(zlib_decompress(&stored, u64::MAX).unwrap(), raw);
    }
    let stored = zlib_compress(&raw, 1).unwrap();
    assert!(stored.len() < raw.len());
    // a level above 9 counts as 9
    assert_eq!(zlib_compress(&raw, 50), zlib_compress(&raw, 9));
}

#[test]
fn zlib_output_is_capped() {
    let raw = vec![5u8; 3000];
    let stored = zlib_compress(&raw, 1).unwrap();
    assert!(zlib_decompress(&stored, 2999).is_err());
    assert!(zlib_decompress(&stored, 0).is_err());
    assert!(zlib_decompress(&stored, 3000).is_ok());
    assert!(zlib_decompress(b"not a zlib stream", 100).is_err());
    assert_eq!(within_cap(vec![1, 2, 3], 3), Some(vec![1, 2, 3]));
    assert_eq!(within_cap(vec![1, 2, 3], 2), None);
}

#[test]
fn stored_bytes_become_raw_bytes() {
    let raw = vec![3u8; 2000];
    let crc = compute_crc32(&raw);
    let stored = zlib_compress(&raw, 1).unwrap();

    assert_eq!(decode_field_bytes(&field("zlib", 2000, crc), &stored, true).unwrap(), raw);
    assert_eq!(decode_field_bytes(&field("ZLIB", 0, 0), &stored, true).unwrap(), raw);
    assert_eq!(decode_field_bytes(&field("none", 2000, crc), &raw, true).unwrap(), raw);
    assert_eq!(decode_field_bytes(&field("", 0, 0), &raw, true).unwrap(), raw);
    // without validation nothing is held against the field
    assert_eq!(decode_field_bytes(&field("none", 7, 1), &raw, false).unwrap(), raw);
}

#[test]
fn wrong_sizes_and_crcs_are_named() {
    let raw = vec![3u8; 2000];
    let crc = compute_crc32(&raw);

    match decode_field_bytes(&field("none", 1999, crc), &raw, true).unwrap_err() {
        GbfError::FieldSizeMismatch { name, expected, got } => {
            assert_eq!((name.as_str(), expected, got), ("f", 1999, 2000));
        }
        other => panic!("{other:?}"),
    }
    match decode_field_bytes(&field("none", 2000, crc ^ 1), &raw, true).unwrap_err() {
        GbfError::FieldCrcMismatch { name, expected, got } => {
            assert_eq!((name.as_str(), expected, got), ("f", crc ^ 1, crc));
        }
        other => panic!("{other:?}"),
    }
    // the size is held first
    let err = decode_field_bytes(&field("none", 1, crc ^ 1), &raw, true).unwrap_err();
    assert_eq!(err.kind(), ErrorKind::FieldSizeMismatch);

    match decode_field_bytes(&field("zlib", 2000, crc), &raw, true).unwrap_err() {
        GbfError::DecompressionFailed { name, message } => {
            assert_eq!(name, "f");
            assert!(!message.is_empty());
        }
        other => panic!("{other:?}"),
    }
    // a stream that holds more than the field declares
    let stored = zlib_compress(&raw, 1).unwrap();
    let err = decode_field_bytes(&field("zlib", 1000, 0), &stored, false).unwrap_err();
    assert_eq!(err.kind(), ErrorKind::DecompressionFailed);
}

#[test]
fn raw_checks_take_the_crc_as_given() {
    let f = field("none", 3, 77);
    assert_eq!(check_raw(&f, vec![1, 2, 3], 77, true).unwrap(), vec![1, 2, 3]);
    assert_eq!(check_raw(&f, vec![1, 2, 3], 78, true).unwrap_err().kind(), ErrorKind::FieldCrcMismatch);
    assert_eq!(check_raw(&f, vec![1, 2], 77, true).unwrap_err().kind(), ErrorKind::FieldSizeMismatch);
    assert_eq!(check_raw(&f, vec![1, 2], 78, false).unwrap(), vec![1, 2]);
    // a stored CRC of zero is none
    assert_eq!(check_raw(&field("none", 0, 0), vec![1], 5, true).unwrap(), vec![1]);
}

#[test]
fn the_stored_header_crc_is_blanked() {
    let text = "{\"a\":1,\"header_crc32_hex\":\"DEADBEEF\"}\n";
    assert_eq!(
        header_json_with_placeholder_crc(text),
        "{\"a\":1,\"header_crc32_hex\":\"00000000\"}\n"
    );
    // the whitespace around the colon stays
    let pretty = "{\n  \"header_crc32_hex\" :  \"deadbeef\",\n  \"z\": 2\n}";
    assert_eq!(
        header_json_with_placeholder_crc(pretty),
        "{\n  \"header_crc32_hex\" :  \"00000000\",\n  \"z\": 2\n}"
    );
    // a value that is not eight digits is replaced together with the whitespace
    let odd = "{\"header_crc32_hex\" : \"xyz\"}";
    assert_eq!(header_json_with_placeholder_crc(odd), "{\"header_crc32_hex\":\"00000000\"}");
    // nothing to replace
    assert_eq!(header_json_with_placeholder_crc("{\"a\":1}"), "{\"a\":1}");
    assert_eq!(header_json_with_placeholder_crc(""), "");
    // only the first is replaced
    let twice = "\"header_crc32_hex\":\"11111111\",\"header_crc32_hex\":\"22222222\"";
    assert_eq!(
        header_json_with_placeholder_crc(twice),
        "\"header_crc32_hex\":\"00000000\",\"header_crc32_hex\":\"22222222\""
    );
}

#[test]
fn choosing_between_the_substitutions() {
    assert_eq!(choose_substitution("t", Some("p".into())), "p");
    assert_eq!(choose_substitution("t", Some("t".into())), "t");
    assert_eq!(choose_substitution("t", None), "t");
}

#[test]
fn a_blank_crc_keeps_its_whitespace() {
    // the stored CRC is eight zeros already: nothing changes, the spaces stay
    let pretty = "{\n  \"header_crc32_hex\": \"00000000\"\n}\n";
    assert_eq!(header_json_with_placeholder_crc(pretty), pretty);
    let filled = pretty.replace("00000000", "1234ABCD");
    assert_eq!(header_json_with_placeholder_crc(&filled), pretty);
    assert_eq!(
        compute_header_crc32_hex_from_original_json(&filled).unwrap(),
        compute_header_crc32_hex_from_original_json(pretty).unwrap()
    );
}

#[test]
fn the_header_crc_is_that_of_the_blanked_text() {
    let text = "{\"header_crc32_hex\":\"DEADBEEF\"}\n";
    let blank = "{\"header_crc32_hex\":\"00000000\"}\n";
    let want = format!("{:08X}", compute_crc32(blank.as_bytes()));
    assert_eq!(compute_header_crc32_hex_from_original_json(text).unwrap(), want);
    assert_eq!(compute_header_crc32_hex_from_original_json(blank).unwrap(), want);
    assert_eq!(want.len(), 8);
}

#[test]
fn the_stored_header_crc_is_held_against_the_text() {
    let blank = "{\"header_crc32_hex\":\"00000000\"}\n";
    let good = compute_header_crc32_hex_from_original_json(blank).unwrap();
    let text = blank.replace("00000000", &good);

    assert!(validate_header_crc(&header_with_crc(&good), &text).is_ok());
    assert!(validate_header_crc(&header_with_crc(&good.to_lowercase()), &text).is_ok());
    assert!(validate_header_crc(&header_with_crc(&format!("  {good}\n")), &text).is_ok());
    // an empty stored CRC is not checked
    assert!(validate_header_crc(&header_with_crc(""), &text).is_ok());
    assert!(validate_header_crc(&header_with_crc("   "), &text).is_ok());

    match validate_header_crc(&header_with_crc(" 0badf00d "), &text).unwrap_err() {
        GbfError::HeaderCrcMismatch { expected, got } => {
            assert_eq!(expected, "0BADF00D");
            assert_eq!(got, good);
        }
        other => panic!("{other:?}"),
    }
    assert!(check_header_crc("abc", "ABC".to_string()).is_ok());
    assert!(check_header_crc("abc", "abc".to_string()).is_err());
}

#[test]
fn errors_describe_themselves() {
    let e = GbfError::FieldCrcMismatch { name: "A".into(), expected: 0xAB, got: 0xCD00 };
    assert_eq!(e.message(), "field `A` CRC mismatch: expected 000000AB, got 0000CD00");
    assert_eq!(e.kind(), ErrorKind::FieldCrcMismatch);
    let e = GbfError::FieldSizeMismatch { name: "A".into(), expected: 72, got: 71 };
    assert_eq!(e.message(), "field `A` decoded size mismatch: expected 72 bytes, got 71 bytes");
    let e = GbfError::FieldOutOfBounds { name: "A".into(), offset: 1, csize: 2, payload_len: 3 };
    assert_eq!(e.message(), "field `A` chunk out of bounds (offset 1, csize 2, payload_len 3)");
    let e = GbfError::FileSizeMismatch { expected: 10, got: 9 };
    assert_eq!(e.message(), "file size mismatch: expected 10 bytes, got 9 bytes");
    let e = GbfError::HeaderCrcMismatch { expected: "AA".into(), got: "BB".into() };
    assert_eq!(e.message(), "header CRC mismatch: expected AA, got BB");
    assert_eq!(GbfError::VarNotFound("a.b".into()).message(), "variable not found: a.b");
    assert_eq!(GbfError::Format("x".into()).message(), "format error: x");
    assert_eq!(GbfError::Unsupported("x".into()).message(), "unsupported value: x");
    assert_eq!(GbfError::Io("x".into()).message(), "I/O error: x");
    assert_eq!(GbfError::Utf8("x".into()).message(), "UTF-8 error: x");
    assert_eq!(GbfError::Json("x".into()).message(), "JSON error: x");
    let e = GbfError::DecompressionFailed { name: "A".into(), message: "bad".into() };
    assert_eq!(e.message(), "failed to decompress field `A`: bad");
    assert_eq!(GbfError::Io("x".into()).kind(), ErrorKind::Io);
    assert_eq!(GbfError::VarNotFound("x".into()).kind(), ErrorKind::VarNotFound);
}
