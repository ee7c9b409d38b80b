use gbin::reader::{decode_field, decode_into, finish_value, header_length, read_fields, read_preamble};
use gbin::writer::{assemble_image, close, plan_fields};
use gbin::{
    read_file, read_header_only, read_var, write_container, write_file, CategoricalArray,
    CompressionMode, ErrorKind, FieldMeta, GbfError, GbfValue, Header, LogicalArray, NumericArray,
    NumericClass, ReadOptions, StringArray, StructMap, WriteOptions, MAGIC_BYTES, VERSION,
};

const CREATED: &str = "2025-12-29T10:15:34Z";
const PRODUCER: &str = "gbin tests";

fn validating() -> ReadOptions {
    ReadOptions { validate: true }
}

fn doubles(shape: Vec<usize>, data: &[f64]) -> GbfValue {
    let mut bytes = Vec::new();
    for v in data {
        bytes.extend_from_slice(&v.to_le_bytes());
    }
    GbfValue::Numeric(NumericArray::new_real(NumericClass::Double, shape, bytes))
}

fn record(entries: Vec<(&str, GbfValue)>) -> GbfValue {
    let mut m = StructMap::new();
    for (k, v) in entries {
        m.insert(k.to_string(), v);
    }
    GbfValue::Struct(m)
}

fn options(compression: bool, mode: CompressionMode, crc: bool) -> WriteOptions {
    let mut o = WriteOptions::default();
    o.compression = compression;
    o.compression_mode = mode;
    o.crc = crc;
    o
}

fn pseudo_random(len: usize, mut state: u64) -> Vec<u8> {
    let mut out = Vec::with_capacity(len);
    for _ in 0..len {
        state = state.wrapping_mul(6364136223846793005).wrapping_add(1442695040888963407);
        out.push((state >> 56) as u8);
    }
    out
}

#[test]
fn default_options() {
    let w = WriteOptions::default();
    assert!(w.compression);
    assert_eq!(w.compression_mode, CompressionMode::Auto);
    assert_eq!(w.compression_level, 1);
    assert!(!w.crc);
    assert!(!w.pretty_header);
    assert!(!ReadOptions::default().validate);
    assert_eq!(MAGIC_BYTES, *b"GREDBIN\0");
    assert_eq!(VERSION, 1);
}

#[test]
fn a_three_by_three_matrix_uncompressed_with_crc() {
    let a = doubles(vec![3, 3], &[1.0, 4.0, 7.0, 2.0, 5.0, 8.0, 3.0, 6.0, 9.0]);
    let v = record(vec![("A", a.clone())]);
    let file = write_file(&v, &options(false, CompressionMode::Auto, true), CREATED, PRODUCER).unwrap();

    assert_eq!(&file[..8], b"GREDBIN\0");
    let header_len = u32::from_le_bytes([file[8], file[9], file[10], file[11]]) as usize;
    assert_eq!(file[12 + header_len - 1], b'\n');
    assert_eq!(file.len(), 12 + header_len + 72);

    let (header, len, text) = read_header_only(&file, validating()).unwrap();
    assert_eq!(len as usize, header_len);
    assert_eq!(text.as_bytes(), &file[12..12 + header_len]);
    assert_eq!(header.root, "struct");
    assert_eq!(header.fields.len(), 1);
    let f = &header.fields[0];
    assert_eq!(f.name, "A");
    assert_eq!(f.kind, "numeric");
    assert_eq!(f.class_name, "double");
    assert_eq!(f.shape, vec![3, 3]);
    assert!(!f.complex);
    assert_eq!(f.offset, 0);
    assert_eq!(f.csize, 72);
    assert_eq!(f.usize, 72);
    assert_eq!(f.compression, "none");
    let raw = match &a {
        GbfValue::Numeric(n) => n.real_le.clone(),
        _ => unreachable!(),
    };
    assert_eq!(f.crc32, gbin::compute_crc32(&raw));
    // the payload is the raw bytes, byte for byte
    assert_eq!(&file[12 + header_len..], &raw[..]);
    assert_eq!(read_file(&file, validating()).unwrap(), v);
}

#[test]
fn arrays_without_elements() {
    let v = record(vec![
        ("a", doubles(vec![0, 0], &[])),
        ("b", doubles(vec![0, 3], &[])),
        ("c", doubles(vec![3, 0], &[])),
    ]);
    for crc in [false, true] {
        let file = write_file(&v, &options(true, CompressionMode::Auto, crc), CREATED, PRODUCER).unwrap();
        let back = read_file(&file, validating()).unwrap();
        assert_eq!(back, v);
        for name in ["a", "b", "c"] {
            match back.get_path(name) {
                Some(GbfValue::Numeric(n)) => assert_eq!(n.real_le.len(), 0),
                other => panic!("{other:?}"),
            }
        }
        let (header, _, _) = read_header_only(&file, validating()).unwrap();
        assert_eq!(header.fields[1].shape, vec![0, 3]);
        assert_eq!(header.fields[1].csize, 0);
    }
}

#[test]
fn a_large_single_matrix_under_auto_and_always() {
    // 1024 x 1024 single precision: 4 MiB of bytes without pattern
    let raw = pseudo_random(4 * 1024 * 1024, 7);
    let v = record(vec![(
        "m",
        GbfValue::Numeric(NumericArray::new_real(NumericClass::Single, vec![1024, 1024], raw.clone())),
    )]);
    for mode in [CompressionMode::Auto, CompressionMode::Always] {
        let c = write_container(&v, &options(true, mode, false), CREATED, PRODUCER).unwrap();
        let f = &c.header.fields[0];
        assert_eq!(f.usize, 4 * 1024 * 1024);
        // bytes without pattern do not shrink, so they are stored as they are
        assert_eq!(f.compression, "none");
        assert_eq!(f.csize, f.usize);
        assert_eq!(c.chunks[0], raw);
    }
}

#[test]
fn a_compressible_field_is_stored_as_zlib() {
    let data = vec![1u8; 100_000];
    let v = record(vec![("l", GbfValue::Logical(LogicalArray { shape: vec![100_000], data }))]);
    for mode in [CompressionMode::Auto, CompressionMode::Always] {
        let file = write_file(&v, &options(true, mode, true), CREATED, PRODUCER).unwrap();
        let (header, _, _) = read_header_only(&file, validating()).unwrap();
        let f = &header.fields[0];
        assert_eq!(f.compression, "zlib");
        assert!(f.csize < f.usize);
        assert_eq!(f.usize, 100_000);
        assert_eq!(header.file_size, header.payload_start + f.csize);
        assert_eq!(read_file(&file, validating()).unwrap(), v);
    }
    for (compression, mode) in [(true, CompressionMode::Never), (false, CompressionMode::Always)] {
        let file = write_file(&v, &options(compression, mode, true), CREATED, PRODUCER).unwrap();
        let (header, _, _) = read_header_only(&file, validating()).unwrap();
        assert_eq!(header.fields[0].compression, "none");
        assert_eq!(header.fields[0].csize, header.fields[0].usize);
        assert_eq!(read_file(&file, validating()).unwrap(), v);
    }
}

#[test]
fn a_corrupt_zlib_field_is_detected() {
    let data: Vec<u8> = (0..200_000).map(|i| (i % 3) as u8).collect();
    let v = record(vec![("l", GbfValue::Logical(LogicalArray { shape: vec![200_000], data }))]);
    let file = write_file(&v, &options(true, CompressionMode::Always, true), CREATED, PRODUCER).unwrap();
    let (header, header_len, _) = read_header_only(&file, validating()).unwrap();
    assert_eq!(header.fields[0].compression, "zlib");
    let payload_start = 12 + header_len as usize;
    let csize = header.fields[0].csize as usize;
    for at in [0, 1, 2, csize / 2, csize - 4, csize - 1] {
        let mut bad = file.clone();
        bad[payload_start + at] ^= 0x10;
        let err = read_file(&bad, validating()).unwrap_err();
        assert!(
            matches!(err.kind(), ErrorKind::FieldCrcMismatch | ErrorKind::DecompressionFailed),
            "{err:?}"
        );
    }
}

#[test]
fn deep_leaf_and_missing_variable() {
    let leaf = doubles(vec![1, 3], &[1.0, 2.0, 3.0]);
    let v = record(vec![(
        "a",
        record(vec![("b", record(vec![("c", record(vec![("d", record(vec![("leaf", leaf.clone())]))]))]))]),
    )]);
    let file = write_file(&v, &WriteOptions::default(), CREATED, PRODUCER).unwrap();
    assert_eq!(read_var(&file, "a.b.c.d.leaf", validating()).unwrap(), leaf);
    assert_eq!(read_var(&file, "  a.b.c.d.leaf ", validating()).unwrap(), leaf);
    match read_var(&file, "a.b.c.d.nope", validating()).unwrap_err() {
        GbfError::VarNotFound(p) => assert_eq!(p, "a.b.c.d.nope"),
        other => panic!("{other:?}"),
    }
    // a prefix gives the record below it
    assert_eq!(read_var(&file, "a.b.c", validating()).unwrap(), record(vec![("d", record(vec![("leaf", leaf)]))]));
    // the empty path gives everything
    assert_eq!(read_var(&file, " ", validating()).unwrap(), v);
}

#[test]
fn every_leaf_is_found_at_its_path() {
    let v = record(vec![
        ("x", doubles(vec![1], &[1.5])),
        ("m", record(vec![("n", GbfValue::EmptyStruct), ("o", doubles(vec![2], &[1.0, 2.0]))])),
        ("s", GbfValue::String(StringArray { shape: vec![1], data: vec![None] })),
    ]);
    let file = write_file(&v, &options(true, CompressionMode::Always, true), CREATED, PRODUCER).unwrap();
    let mut leaves = Vec::new();
    gbin::flatten_to_leaves(&v, "", &mut leaves).unwrap();
    assert_eq!(leaves.len(), 4);
    for (path, leaf) in &leaves {
        assert_eq!(&read_var(&file, path, validating()).unwrap(), leaf, "{path}");
        assert_eq!(v.get_path(path), Some(leaf));
    }
    assert_eq!(&read_var(&file, "m", validating()).unwrap(), v.get_path("m").unwrap());
}

#[test]
fn a_single_leaf_is_stored_as_data() {
    let leaf = doubles(vec![2], &[0.5, 0.25]);
    for pretty in [false, true] {
        let mut o = options(true, CompressionMode::Auto, true);
        o.pretty_header = pretty;
        let file = write_file(&leaf, &o, CREATED, PRODUCER).unwrap();
        let (header, _, text) = read_header_only(&file, validating()).unwrap();
        assert_eq!(header.root, "single");
        assert_eq!(header.fields.len(), 1);
        assert_eq!(header.fields[0].name, "data");
        assert_eq!(text.contains("\n  \""), pretty);
        assert_eq!(read_file(&file, validating()).unwrap(), leaf);
        assert_eq!(read_var(&file, "data", validating()).unwrap(), leaf);
    }
    let file = write_file(&GbfValue::EmptyStruct, &WriteOptions::default(), CREATED, PRODUCER).unwrap();
    assert_eq!(read_file(&file, validating()).unwrap(), GbfValue::EmptyStruct);
    let empty = GbfValue::Struct(StructMap::new());
    let file = write_file(&empty, &WriteOptions::default(), CREATED, PRODUCER).unwrap();
    assert_eq!(read_file(&file, validating()).unwrap(), empty);
}

#[test]
fn sizes_add_up_and_fields_leave_no_gaps() {
    let v = record(vec![
        ("a", GbfValue::Logical(LogicalArray { shape: vec![5000], data: vec![0; 5000] })),
        ("b", doubles(vec![2], &[1.0, 2.0])),
        ("c", GbfValue::EmptyStruct),
        ("d", GbfValue::Logical(LogicalArray { shape: vec![3], data: vec![1, 1, 0] })),
    ]);
    for pretty in [false, true] {
        let mut o = options(true, CompressionMode::Always, true);
        o.pretty_header = pretty;
        let c = write_container(&v, &o, CREATED, PRODUCER).unwrap();
        let file = assemble_image(&c.header_line, &c.chunks);
        assert_eq!(write_file(&v, &o, CREATED, PRODUCER).unwrap(), file);
        let h = &c.header;
        assert_eq!(h.payload_start, 8 + 4 + c.header_line.len() as u64);
        let total: u64 = h.fields.iter().map(|f| f.csize).sum();
        assert_eq!(h.file_size, h.payload_start + total);
        assert_eq!(h.file_size, file.len() as u64);
        let mut next = 0;
        for (f, chunk) in h.fields.iter().zip(&c.chunks) {
            assert_eq!(f.offset, next);
            assert_eq!(f.csize, chunk.len() as u64);
            assert!(f.csize <= f.usize);
            next += f.csize;
        }
        assert_eq!(h.fields[0].compression, "zlib");
        assert_eq!(h.fields[1].compression, "none");
        // the header in the file is the header of the container
        let (read, len, text) = read_header_only(&file, validating()).unwrap();
        assert_eq!(read, *h);
        assert_eq!(text, c.header_line);
        assert_eq!(len as usize, text.len());
    }
}

#[test]
fn equal_arguments_give_equal_files() {
    let v = record(vec![
        ("a", GbfValue::Logical(LogicalArray { shape: vec![5000], data: vec![7; 5000] })),
        ("b", doubles(vec![2], &[1.0, 2.0])),
    ]);
    let o = options(true, CompressionMode::Auto, true);
    let one = write_file(&v, &o, CREATED, PRODUCER).unwrap();
    let two = write_file(&v.clone(), &o, CREATED, PRODUCER).unwrap();
    assert_eq!(one, two);
    let other = write_file(&v, &o, "2026-01-01T00:00:00Z", PRODUCER).unwrap();
    assert_ne!(one, other);
    let (h1, _, _) = read_header_only(&one, validating()).unwrap();
    let (h2, _, _) = read_header_only(&other, validating()).unwrap();
    assert_eq!(h1.fields, h2.fields);
    assert_ne!(h1.header_crc32_hex, h2.header_crc32_hex);
}

#[test]
fn values_that_cannot_be_written() {
    let o = WriteOptions::default();
    let dotted = record(vec![("a.b", GbfValue::EmptyStruct)]);
    assert_eq!(write_file(&dotted, &o, CREATED, PRODUCER).unwrap_err().kind(), ErrorKind::Unsupported);
    let bad = record(vec![(
        "n",
        GbfValue::Numeric(NumericArray::new_real(NumericClass::Double, vec![2], vec![0; 15])),
    )]);
    assert_eq!(write_file(&bad, &o, CREATED, PRODUCER).unwrap_err().kind(), ErrorKind::Format);
}

#[test]
fn flipped_bits_in_the_header_are_detected() {
    let v = record(vec![("A", doubles(vec![1], &[1.0]))]);
    let file = write_file(&v, &options(false, CompressionMode::Auto, true), CREATED, PRODUCER).unwrap();
    let header_len = u32::from_le_bytes([file[8], file[9], file[10], file[11]]) as usize;
    let text = std::str::from_utf8(&file[12..12 + header_len]).unwrap();
    let key_at = 12 + text.find("\"header_crc32_hex\"").unwrap();
    let value_at = key_at + "\"header_crc32_hex\":\"".len();
    let mut silent = 0;
    for at in 12..12 + header_len {
        for bit in 0..8 {
            let mut bad = file.clone();
            bad[at] ^= 1 << bit;
            match read_file(&bad, validating()) {
                Err(e) => assert!(
                    matches!(
                        e.kind(),
                        ErrorKind::HeaderCrcMismatch | ErrorKind::Json | ErrorKind::Utf8
                    ),
                    "at {at} bit {bit}: {e:?}"
                ),
                Ok(back) => {
                    // Two changes go through: another name for the key of the
                    // CRC, so that no CRC is stored, and another case for a
                    // digit of the CRC.
                    let in_key = key_at < at && at < key_at + 17;
                    let in_value = value_at <= at && at < value_at + 8 && bit == 5;
                    assert!(in_key || in_value, "at {at} bit {bit}");
                    assert_eq!(back, v);
                    silent += 1;
                }
            }
        }
    }
    assert!(silent > 0);
}

#[test]
fn flipped_bits_in_a_field_are_detected() {
    let v = record(vec![("A", doubles(vec![2], &[1.0, 2.0])), ("B", doubles(vec![1], &[3.0]))]);
    let file = write_file(&v, &options(false, CompressionMode::Auto, true), CREATED, PRODUCER).unwrap();
    let header_len = u32::from_le_bytes([file[8], file[9], file[10], file[11]]) as usize;
    for at in 12 + header_len..file.len() {
        for bit in 0..8 {
            let mut bad = file.clone();
            bad[at] ^= 1 << bit;
            match read_file(&bad, validating()).unwrap_err() {
                GbfError::FieldCrcMismatch { name, .. } => {
                    assert_eq!(name, if at < 12 + header_len + 16 { "A" } else { "B" });
                }
                other => panic!("{other:?}"),
            }
            // without validation the change goes through
            assert!(read_file(&bad, ReadOptions::default()).is_ok());
        }
    }
}

#[test]
fn the_beginning_of_a_file_is_checked() {
    let v = record(vec![("A", doubles(vec![1], &[1.0]))]);
    let file = write_file(&v, &WriteOptions::default(), CREATED, PRODUCER).unwrap();
    let header_len = u32::from_le_bytes([file[8], file[9], file[10], file[11]]);
    assert_eq!(header_length(&file).unwrap(), header_len);
    assert_eq!(header_length(&file[..12]).unwrap(), header_len);
    assert_eq!(read_preamble(&file).unwrap().0, header_len);

    for cut in [0, 7, 8, 11] {
        assert_eq!(header_length(&file[..cut]).unwrap_err().kind(), ErrorKind::Io, "{cut}");
    }
    assert_eq!(read_preamble(&file[..12]).unwrap_err().kind(), ErrorKind::Io);
    assert_eq!(read_preamble(&file[..11 + header_len as usize]).unwrap_err().kind(), ErrorKind::Io);
    assert!(read_preamble(&file[..12 + header_len as usize]).is_ok());

    let mut bad = file.clone();
    bad[7] = 1;
    assert_eq!(header_length(&bad).unwrap_err().kind(), ErrorKind::Format);
    for len in [0u32, 1, 64 * 1024 * 1024 + 1, u32::MAX] {
        let mut bad = file.clone();
        bad[8..12].copy_from_slice(&len.to_le_bytes());
        assert_eq!(header_length(&bad).unwrap_err().kind(), ErrorKind::Format, "{len}");
    }
    let mut bad = file.clone();
    bad[8..12].copy_from_slice(&(64u32 * 1024 * 1024).to_le_bytes());
    assert_eq!(header_length(&bad).unwrap(), 64 * 1024 * 1024);
    assert_eq!(read_file(&bad, validating()).unwrap_err().kind(), ErrorKind::Io);

    let mut bad = file.clone();
    bad[20] = 0xFF;
    assert_eq!(read_file(&bad, ReadOptions::default()).unwrap_err().kind(), ErrorKind::Utf8);
    let mut bad = file.clone();
    bad[12] = b'[';
    assert_eq!(read_file(&bad, ReadOptions::default()).unwrap_err().kind(), ErrorKind::Json);
}

#[test]
fn the_length_of_the_file_is_checked() {
    let v = record(vec![("A", doubles(vec![1], &[1.0]))]);
    let file = write_file(&v, &WriteOptions::default(), CREATED, PRODUCER).unwrap();
    let mut longer = file.clone();
    longer.push(0);
    match read_file(&longer, validating()).unwrap_err() {
        GbfError::FileSizeMismatch { expected, got } => {
            assert_eq!(expected, file.len() as u64);
            assert_eq!(got, file.len() as u64 + 1);
        }
        other => panic!("{other:?}"),
    }
    assert_eq!(read_file(&longer, ReadOptions::default()).unwrap(), v);
    let shorter = &file[..file.len() - 1];
    assert_eq!(read_file(shorter, validating()).unwrap_err().kind(), ErrorKind::FileSizeMismatch);
    match read_file(shorter, ReadOptions::default()).unwrap_err() {
        GbfError::FieldOutOfBounds { name, offset, csize, payload_len } => {
            assert_eq!((name.as_str(), offset, csize, payload_len), ("A", 0, 8, 7));
        }
        other => panic!("{other:?}"),
    }
}

fn hand_made(header_text: &str, payload: &[u8]) -> Vec<u8> {
    let mut file = MAGIC_BYTES.to_vec();
    file.extend_from_slice(&(header_text.len() as u32).to_le_bytes());
    file.extend_from_slice(header_text.as_bytes());
    file.extend_from_slice(payload);
    file
}

/// A file with a hand-made table of fields, and a header that states
/// where the payload begins and how long the file is.
fn stated(fields: &str, payload: &[u8]) -> Vec<u8> {
    let mut places = (0u64, 0u64);
    loop {
        let text = format!(
            "{{\"format\":\"GBF\",\"magic\":\"GREDBIN\",\"version\":1,\"root\":\"struct\",\
             \"fields\":[{}],\"payload_start\":{},\"file_size\":{}}}\n",
            fields, places.0, places.1
        );
        let start = 12 + text.len() as u64;
        let next = (start, start + payload.len() as u64);
        if next == places {
            return hand_made(&text, payload);
        }
        places = next;
    }
}

#[test]
fn a_hand_made_file_with_fields_out_of_order() {
    let fields = "{\"name\":\"g.y\",\"kind\":\"logical\",\"class\":\"logical\",\"shape\":[1,2],\"offset\":3,\"csize\":2},\
        {\"name\":\"g.x\",\"kind\":\"LOGICAL\",\"class\":\"logical\",\"shape\":[3],\"offset\":\"0\",\"csize\":3.0}";
    let file = stated(fields, &[1, 2, 3, 4, 5]);
    let want = record(vec![(
        "g",
        record(vec![
            ("x", GbfValue::Logical(LogicalArray { shape: vec![3], data: vec![1, 2, 3] })),
            ("y", GbfValue::Logical(LogicalArray { shape: vec![1, 2], data: vec![4, 5] })),
        ]),
    )]);
    assert_eq!(read_file(&file, validating()).unwrap(), want);
    assert_eq!(read_var(&file, "g", validating()).unwrap(), *want.get_path("g").unwrap());
    assert_eq!(read_var(&file, "g.y", validating()).unwrap(), *want.get_path("g.y").unwrap());
}

#[test]
fn a_stated_payload_start_is_checked_and_used() {
    let text = "{\"format\":\"GBF\",\"magic\":\"GREDBIN\",\"version\":1,\"payload_start\":PPP,\"file_size\":FFF,\"fields\":[\
        {\"name\":\"x\",\"kind\":\"logical\",\"class\":\"logical\",\"shape\":[2],\"offset\":0,\"csize\":2}]}\n";
    let start = 12 + text.len();
    let size = format!("{}", start + 2);
    assert_eq!(size.len(), 3);
    let good = text.replace("PPP", &format!("{}", start)).replace("FFF", &size);
    assert_eq!(good.len(), text.len());
    let file = hand_made(&good, &[8, 9]);
    assert!(read_file(&file, validating()).is_ok());
    let off = text.replace("PPP", &format!("{}", start - 1)).replace("FFF", &size);
    let file = hand_made(&off, &[8, 9]);
    assert_eq!(read_file(&file, validating()).unwrap_err().kind(), ErrorKind::Format);
    // without validation the stated start is taken as it is
    assert_eq!(
        read_file(&file, ReadOptions::default()).unwrap(),
        record(vec![("x", GbfValue::Logical(LogicalArray { shape: vec![2], data: vec![b'\n', 8] }))])
    );
}

#[test]
fn a_validating_read_asks_for_the_stated_places() {
    let text = "{\"format\":\"GBF\",\"magic\":\"GREDBIN\",\"version\":1,\"fields\":[\
        {\"name\":\"x\",\"kind\":\"logical\",\"class\":\"logical\",\"shape\":[2],\"offset\":0,\"csize\":2}]}\n";
    let file = hand_made(text, &[8, 9]);
    match read_file(&file, validating()) {
        Err(GbfError::FileSizeMismatch { expected, got }) => {
            assert_eq!((expected, got), (0, file.len() as u64));
        }
        other => panic!("{other:?}"),
    }
    assert_eq!(read_header_only(&file, validating()).unwrap_err().kind(), ErrorKind::FileSizeMismatch);
    let sized = text.replace("\"fields\"", &format!("\"file_size\":{},\"fields\"", file.len() + 16));
    let sized = sized.replace(&format!("{}", file.len() + 16), &format!("{}", 12 + sized.len() + 2));
    let file = hand_made(&sized, &[8, 9]);
    assert_eq!(read_file(&file, validating()).unwrap_err().kind(), ErrorKind::Format);
    assert_eq!(
        read_file(&file, ReadOptions::default()).unwrap(),
        record(vec![("x", GbfValue::Logical(LogicalArray { shape: vec![2], data: vec![8, 9] }))])
    );
}

#[test]
fn paths_that_collide_are_a_format_error() {
    let fields = "{\"name\":\"a\",\"kind\":\"struct\",\"class\":\"struct\",\"shape\":[1,1]},\
        {\"name\":\"a.b\",\"kind\":\"struct\",\"class\":\"struct\",\"shape\":[1,1]}";
    let file = stated(fields, &[]);
    assert_eq!(read_file(&file, validating()).unwrap_err().kind(), ErrorKind::Format);
    let fields = "{\"name\":\"a..b\",\"kind\":\"struct\",\"class\":\"struct\",\"shape\":[1,1]}";
    assert_eq!(read_file(&stated(fields, &[]), validating()).unwrap_err().kind(), ErrorKind::Format);
}

#[test]
fn a_categorical_code_without_category_is_refused_on_validating_reads() {
    let fields = "{\"name\":\"c\",\"kind\":\"categorical\",\"class\":\"categorical\",\"shape\":[1],\"offset\":0,\"csize\":13}";
    let file = stated(fields, &[1, 0, 0, 0, 1, 0, 0, 0, b'a', 2, 0, 0, 0]);
    assert_eq!(read_file(&file, validating()).unwrap_err().kind(), ErrorKind::Format);
    let loose = read_file(&file, ReadOptions::default()).unwrap();
    assert_eq!(
        loose,
        record(vec![(
            "c",
            GbfValue::Categorical(CategoricalArray {
                shape: vec![1],
                categories: vec!["a".into()],
                codes: vec![2]
            })
        )])
    );
}

#[test]
fn single_root_takes_data_or_the_first_field() {
    let leaf = |n| GbfValue::Logical(LogicalArray { shape: vec![1], data: vec![n] });
    let mut m = StructMap::new();
    m.insert("data".into(), leaf(1));
    m.insert("a".into(), leaf(2));
    assert_eq!(finish_value("single", m.clone()), leaf(1));
    assert_eq!(finish_value("SINGLE", m.clone()), leaf(1));
    assert_eq!(finish_value("struct", m.clone()), GbfValue::Struct(m));
    let mut m = StructMap::new();
    m.insert("b".into(), leaf(3));
    m.insert("a".into(), leaf(2));
    assert_eq!(finish_value("single", m), leaf(2));
    assert_eq!(finish_value("single", StructMap::new()), GbfValue::Struct(StructMap::new()));
    assert_eq!(finish_value("", StructMap::new()), GbfValue::Struct(StructMap::new()));
}

#[test]
fn fields_are_decoded_into_a_record() {
    let fields = vec![
        FieldMeta {
            name: "p.a".into(),
            kind: "logical".into(),
            class_name: "logical".into(),
            shape: vec![1],
            complex: false,
            encoding: String::new(),
            compression: "none".into(),
            offset: 0,
            csize: 1,
            usize: 1,
            crc32: 0,
        },
        FieldMeta {
            name: "q".into(),
            kind: "logical".into(),
            class_name: "logical".into(),
            shape: vec![1],
            complex: false,
            encoding: String::new(),
            compression: "none".into(),
            offset: 1,
            csize: 1,
            usize: 1,
            crc32: 0,
        },
    ];
    let leaf = |n| GbfValue::Logical(LogicalArray { shape: vec![1], data: vec![n] });
    assert_eq!(decode_field(&fields[0], &[5], true).unwrap(), leaf(5));
    assert_eq!(decode_field(&fields[0], &[5, 6], true).unwrap_err().kind(), ErrorKind::FieldSizeMismatch);
    assert_eq!(decode_field(&fields[0], &[5, 6], false).unwrap_err().kind(), ErrorKind::Format);

    let mut out = StructMap::new();
    decode_into(&mut out, &fields, &vec![(0, vec![5])], "p.", true).unwrap();
    assert_eq!(GbfValue::Struct(out), record(vec![("a", leaf(5))]));
    let mut out = StructMap::new();
    decode_into(&mut out, &fields, &vec![(1, vec![6]), (0, vec![5])], "", true).unwrap();
    assert_eq!(GbfValue::Struct(out), record(vec![("p", record(vec![("a", leaf(5))])), ("q", leaf(6))]));
    // a field that does not lie below the prefix
    let mut out = StructMap::new();
    let err = decode_into(&mut out, &fields, &vec![(1, vec![6])], "p.", true).unwrap_err();
    assert_eq!(err.kind(), ErrorKind::Format);

    let header = Header {
        format: "GBF".into(),
        magic: "GREDBIN".into(),
        version: 1,
        endianness: String::new(),
        order: String::new(),
        root: String::new(),
        created_utc: String::new(),
        producer_version: String::new(),
        fields,
        payload_start: 2,
        file_size: 0,
        header_crc32_hex: String::new(),
    };
    let out = read_fields(&header, 0, &[0, 0, 5, 6], &vec![1, 0], "", false).unwrap();
    assert_eq!(GbfValue::Struct(out), record(vec![("p", record(vec![("a", leaf(5))])), ("q", leaf(6))]));
    let err = read_fields(&header, 0, &[0, 0, 5], &vec![1, 0], "", false).unwrap_err();
    assert_eq!(err.kind(), ErrorKind::FieldOutOfBounds);
}

#[test]
fn a_layout_is_planned_leaf_by_leaf() {
    let leaves = vec![
        ("a".to_string(), GbfValue::Logical(LogicalArray { shape: vec![2000], data: vec![0; 2000] })),
        ("b".to_string(), GbfValue::EmptyStruct),
        ("c".to_string(), GbfValue::Logical(LogicalArray { shape: vec![2], data: vec![1, 0] })),
    ];
    let (fields, chunks, total) = plan_fields(&leaves, &options(true, CompressionMode::Always, true)).unwrap();
    assert_eq!(fields.len(), 3);
    assert_eq!(fields[0].compression, "zlib");
    assert_eq!(fields[0].usize, 2000);
    assert_eq!(fields[0].crc32, gbin::compute_crc32(&vec![0; 2000]));
    assert_eq!(fields[1].offset, fields[0].csize);
    assert_eq!((fields[1].csize, fields[1].usize, fields[1].crc32), (0, 0, 0));
    assert_eq!(fields[1].kind, "struct");
    assert_eq!(fields[2].offset, fields[0].csize);
    assert_eq!(chunks[2], vec![1, 0]);
    assert_eq!(total, fields[0].csize + 2);
    let (fields, _, total) = plan_fields(&leaves, &options(true, CompressionMode::Never, false)).unwrap();
    assert_eq!(total, 2002);
    assert!(fields.iter().all(|f| f.compression == "none" && f.crc32 == 0 && f.csize == f.usize));
}

#[test]
fn a_header_is_closed_over_its_payload() {
    let header = Header {
        format: "GBF".into(),
        magic: "GREDBIN".into(),
        version: 1,
        endianness: "little".into(),
        order: "column-major".into(),
        root: "struct".into(),
        created_utc: CREATED.into(),
        producer_version: PRODUCER.into(),
        fields: vec![],
        payload_start: 0,
        file_size: 0,
        header_crc32_hex: "00000000".into(),
    };
    for total in [0u64, 9, 99_999, 1 << 40] {
        let (closed, line) = close(header.clone(), total, false).unwrap();
        assert!(line.ends_with('\n'));
        assert_eq!(closed.payload_start, 12 + line.len() as u64);
        assert_eq!(closed.file_size, closed.payload_start + total);
        assert_eq!(gbin::schema::render_header(&closed, false) + "\n", line);
        assert!(gbin::validate_header_crc(&closed, &line).is_ok());
        assert_eq!(closed.created_utc, CREATED);
    }
    assert_eq!(close(header, u64::MAX - 5, false).unwrap_err().kind(), ErrorKind::Unsupported);
}

fn open_header_with(producer: String) -> Header {
    Header {
        format: "GBF".into(),
        magic: "GREDBIN".into(),
        version: 1,
        endianness: "little".into(),
        order: "column-major".into(),
        root: "struct".into(),
        created_utc: CREATED.into(),
        producer_version: producer,
        fields: vec![],
        payload_start: 0,
        file_size: 0,
        header_crc32_hex: "00000000".into(),
    }
}

#[test]
fn the_header_text_grows_with_the_digits_of_its_places_only() {
    for pretty in [false, true] {
        let mut h = open_header_with("p".into());
        let base = gbin::schema::render_header(&h, pretty).len() + 1 - 2;
        for crc in ["00000000", "FFFFFFFF", "12AB34CD"] {
            for p in [0u64, 9, 10, 99, 100, 12345, u64::MAX] {
                for f in [0u64, 7, 1000, 999_999_999_999, u64::MAX] {
                    h.header_crc32_hex = crc.into();
                    h.payload_start = p;
                    h.file_size = f;
                    let len = gbin::schema::render_header(&h, pretty).len() + 1;
                    assert_eq!(len, base + p.to_string().len() + f.to_string().len());
                }
            }
        }
    }
}

#[test]
fn a_header_closes_where_its_places_gain_digits() {
    for pretty in [false, true] {
        for pad in [0usize, 1, 57, 730, 745] {
            let header = open_header_with("x".repeat(pad));
            let (first, _) = close(header.clone(), 0, pretty).unwrap();
            let start = first.payload_start;
            let mut totals = vec![0u64, 1, 9];
            for k in [3u32, 4, 19] {
                let power = 10u64.pow(k);
                for d in 0..5u64 {
                    totals.push(power.saturating_sub(start + d));
                    totals.push(power - start.min(power) + d);
                }
            }
            for total in totals {
                let (closed, line) = close(header.clone(), total, pretty).unwrap();
                assert_eq!(closed.payload_start, 12 + line.len() as u64);
                assert_eq!(closed.file_size, closed.payload_start + total);
                assert_eq!(gbin::schema::render_header(&closed, pretty) + "\n", line);
                assert!(gbin::validate_header_crc(&closed, &line).is_ok());
            }
        }
    }
}

fn matrix_file(options: &WriteOptions) -> (Vec<u8>, Vec<u8>) {
    let raw: Vec<u8> = [1.0f64, 4.0, 7.0, 2.0, 5.0, 8.0, 3.0, 6.0, 9.0]
        .iter()
        .flat_map(|v| v.to_le_bytes())
        .collect();
    let v = record(vec![
        ("A", GbfValue::Numeric(NumericArray::new_real(NumericClass::Double, vec![3, 3], raw.clone()))),
        ("B", GbfValue::Logical(LogicalArray { shape: vec![2], data: vec![1, 0] })),
    ]);
    (write_file(&v, options, CREATED, PRODUCER).unwrap(), raw)
}

#[test]
fn another_magic_is_named_in_the_error() {
    let (mut file, _) = matrix_file(&options(false, CompressionMode::Never, true));
    file[0] = b'X';
    for validate in [false, true] {
        let opts = ReadOptions { validate };
        for e in [
            read_file(&file, opts).unwrap_err(),
            read_var(&file, "A", opts).unwrap_err(),
            read_header_only(&file, opts).unwrap_err(),
        ] {
            match e {
                GbfError::Format(m) => assert_eq!(m, "bad magic; not a GBF/GREDBIN file"),
                other => panic!("{other:?}"),
            }
        }
    }
    assert_eq!(header_length(&file[..11]).unwrap_err().message(), "format error: bad magic; not a GBF/GREDBIN file");
}

#[test]
fn a_cut_file_is_held_against_its_stated_length() {
    let (file, _) = matrix_file(&options(false, CompressionMode::Never, true));
    let (_, header_len, _) = read_header_only(&file, validating()).unwrap();
    let start = 12 + header_len as usize;
    for k in [start, start + 1, file.len() - 1] {
        match read_file(&file[..k], validating()) {
            Err(GbfError::FileSizeMismatch { expected, got }) => {
                assert_eq!((expected, got), (file.len() as u64, k as u64));
            }
            other => panic!("{other:?}"),
        }
        match read_file(&file[..k], ReadOptions::default()) {
            Err(GbfError::FieldOutOfBounds { name, offset, csize, payload_len }) => {
                let first = if k < start + 72 { ("A", 0, 72) } else { ("B", 72, 2) };
                assert_eq!((name.as_str(), offset, csize), first);
                assert_eq!(payload_len, (k - start) as u64);
            }
            other => panic!("{other:?}"),
        }
    }
    assert_eq!(read_file(&file[..start - 1], validating()).unwrap_err().kind(), ErrorKind::Io);
}

#[test]
fn a_changed_field_is_named_with_both_checksums() {
    let (file, raw) = matrix_file(&options(false, CompressionMode::Never, true));
    let (header, header_len, _) = read_header_only(&file, validating()).unwrap();
    let start = 12 + header_len as usize;
    let mut changed = file.clone();
    changed[start + 10] ^= 0xFF;
    let mut raw_changed = raw.clone();
    raw_changed[10] ^= 0xFF;
    for e in [read_file(&changed, validating()).unwrap_err(), read_var(&changed, "A", validating()).unwrap_err()] {
        match e {
            GbfError::FieldCrcMismatch { name, expected, got } => {
                assert_eq!(name, "A");
                assert_eq!(expected, gbin::compute_crc32(&raw));
                assert_eq!(expected, header.fields[0].crc32);
                assert_eq!(got, gbin::compute_crc32(&raw_changed));
                assert_ne!(got, expected);
            }
            other => panic!("{other:?}"),
        }
    }
    assert!(read_var(&changed, "B", validating()).is_ok());
    assert!(read_file(&changed, ReadOptions::default()).is_ok());
}

#[test]
fn a_field_of_another_size_is_named_with_both_sizes() {
    let mut field = FieldMeta {
        name: "f".into(),
        kind: "logical".into(),
        class_name: "logical".into(),
        shape: vec![3],
        complex: false,
        encoding: String::new(),
        compression: "none".into(),
        offset: 0,
        csize: 2,
        usize: 3,
        crc32: 0,
    };
    match gbin::decode_field_bytes(&field, &[1, 2], true) {
        Err(GbfError::FieldSizeMismatch { name, expected, got }) => {
            assert_eq!((name.as_str(), expected, got), ("f", 3, 2));
        }
        other => panic!("{other:?}"),
    }
    match decode_field(&field, &[1, 2], true) {
        Err(GbfError::FieldSizeMismatch { name, expected, got }) => {
            assert_eq!((name.as_str(), expected, got), ("f", 3, 2));
        }
        other => panic!("{other:?}"),
    }
    field.usize = 2;
    field.crc32 = 5;
    match gbin::decode_field_bytes(&field, &[1, 2], true) {
        Err(GbfError::FieldCrcMismatch { name, expected, got }) => {
            assert_eq!((name.as_str(), expected, got), ("f", 5, gbin::compute_crc32(&[1, 2])));
        }
        other => panic!("{other:?}"),
    }
    assert_eq!(gbin::decode_field_bytes(&field, &[1, 2], false).unwrap(), vec![1, 2]);
    field.compression = "ZLib".into();
    match gbin::decode_field_bytes(&field, &[1, 2], true) {
        Err(GbfError::DecompressionFailed { name, .. }) => assert_eq!(name, "f"),
        other => panic!("{other:?}"),
    }
}

#[test]
fn a_changed_header_is_named_with_both_checksums() {
    let (mut file, _) = matrix_file(&options(false, CompressionMode::Never, true));
    let (header, _, line) = read_header_only(&file, validating()).unwrap();
    let at = 12 + line.find("gbin tests").unwrap();
    file[at] = b'G';
    match read_file(&file, validating()) {
        Err(GbfError::HeaderCrcMismatch { expected, got }) => {
            assert_eq!(expected, header.header_crc32_hex);
            assert_eq!(
                got,
                gbin::compute_header_crc32_hex_from_original_json(&line.replace("gbin tests", "Gbin tests"))
                    .unwrap()
            );
            assert_ne!(got, expected);
        }
        other => panic!("{other:?}"),
    }
    assert!(read_file(&file, ReadOptions::default()).is_ok());
}
