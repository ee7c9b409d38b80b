use gbin::inspect::{
    bytes_per_elem, clamp_scroll, ensure_visible, fmt_shape, fmt_shape_usize, move_selection,
    scalar_text, shape_hint_for_path, signed_text,
};
use gbin::layout::{
    all_indices, check_span, check_spans, plan_groups, select_fields, sort_by_offset, split_group,
    READ_COALESCE_MAX_GAP_BYTES, READ_COALESCE_MAX_GROUP_BYTES,
};
use gbin::{field_payload_start, ErrorKind, FieldMeta, GbfError, ReadGroup, Selection};

fn field(name: &str, offset: u64, csize: u64) -> FieldMeta {
    FieldMeta {
        name: name.to_string(),
        kind: "logical".to_string(),
        class_name: "logical".to_string(),
        shape: vec![csize],
        complex: false,
        encoding: String::new(),
        compression: "none".to_string(),
        offset,
        csize,
        usize: csize,
        crc32: 0,
    }
}

#[test]
fn payload_begins_where_the_header_says() {
    assert_eq!(field_payload_start(100, 0), 112);
    assert_eq!(field_payload_start(100, 500), 500);
    assert_eq!(field_payload_start(u32::MAX, 0), 12 + u32::MAX as u64);
}

#[test]
fn spans_are_held_against_the_file() {
    let f = field("A", 10, 20);
    assert!(check_span(&f, 100, 130).is_ok());
    match check_span(&f, 100, 129).unwrap_err() {
        GbfError::FieldOutOfBounds { name, offset, csize, payload_len } => {
            assert_eq!((name.as_str(), offset, csize, payload_len), ("A", 10, 20, 29));
        }
        other => panic!("{other:?}"),
    }
    match check_span(&f, 100, 50).unwrap_err() {
        GbfError::FieldOutOfBounds { payload_len, .. } => assert_eq!(payload_len, 0),
        other => panic!("{other:?}"),
    }
    let sixteen_gib = 16u64 * 1024 * 1024 * 1024;
    let big = field("B", 0, sixteen_gib + 1);
    assert_eq!(check_span(&big, 0, u64::MAX).unwrap_err().kind(), ErrorKind::Unsupported);
    let mut declared = field("C", 0, 1);
    declared.usize = sixteen_gib + 1;
    assert_eq!(check_span(&declared, 0, u64::MAX).unwrap_err().kind(), ErrorKind::Unsupported);
    let exact = field("D", 0, sixteen_gib);
    assert!(check_span(&exact, 0, sixteen_gib).is_ok());
    let far = field("E", u64::MAX, 1);
    assert_eq!(check_span(&far, 1, u64::MAX).unwrap_err().kind(), ErrorKind::Format);
    let far = field("E", u64::MAX - 1, 2);
    assert_eq!(check_span(&far, 0, u64::MAX).unwrap_err().kind(), ErrorKind::Format);

    let fields = vec![field("A", 0, 5), field("B", 5, 5), field("C", 10, 5)];
    assert!(check_spans(&fields, &vec![0, 1, 2], 0, 15).is_ok());
    assert_eq!(
        check_spans(&fields, &vec![0, 1, 2], 0, 14).unwrap_err().kind(),
        ErrorKind::FieldOutOfBounds
    );
    assert!(check_spans(&fields, &vec![0, 1], 0, 14).is_ok());
}

#[test]
fn fields_are_selected_by_name_or_prefix() {
    let fields = vec![
        field("a.b", 0, 1),
        field("a.c.d", 1, 1),
        field("ab", 2, 1),
        field("a.b", 3, 1),
        field("z", 4, 1),
    ];
    assert_eq!(select_fields(&fields, "a.b").unwrap(), Selection::Leaf(0));
    assert_eq!(select_fields(&fields, "z").unwrap(), Selection::Leaf(4));
    assert_eq!(select_fields(&fields, "a").unwrap(), Selection::Subtree(vec![0, 1, 3]));
    assert_eq!(select_fields(&fields, "a.c").unwrap(), Selection::Subtree(vec![1]));
    match select_fields(&fields, "a.c.d.e").unwrap_err() {
        GbfError::VarNotFound(p) => assert_eq!(p, "a.c.d.e"),
        other => panic!("{other:?}"),
    }
    assert_eq!(select_fields(&fields, "A").unwrap_err().kind(), ErrorKind::VarNotFound);
    assert_eq!(select_fields(&vec![], "a").unwrap_err().kind(), ErrorKind::VarNotFound);
}

#[test]
fn fields_are_sorted_by_offset_and_keep_their_order() {
    let fields = vec![
        field("a", 30, 1),
        field("b", 10, 1),
        field("c", 20, 1),
        field("d", 10, 2),
        field("e", 0, 1),
    ];
    assert_eq!(sort_by_offset(&fields, &all_indices(5)), vec![4, 1, 3, 2, 0]);
    assert_eq!(sort_by_offset(&fields, &vec![3, 1]), vec![3, 1]);
    assert_eq!(sort_by_offset(&fields, &vec![0, 0, 4]), vec![4, 0, 0]);
    assert_eq!(sort_by_offset(&fields, &vec![]), Vec::<usize>::new());
    assert_eq!(all_indices(3), vec![0, 1, 2]);
    assert_eq!(all_indices(0), Vec::<usize>::new());
}

#[test]
fn neighbours_are_read_together() {
    assert_eq!(READ_COALESCE_MAX_GAP_BYTES, 4096);
    assert_eq!(READ_COALESCE_MAX_GROUP_BYTES, 8 * 1024 * 1024);
    let fields = vec![
        field("a", 0, 100),
        field("b", 100, 50),
        field("c", 150 + 4096, 10),       // a gap of 4096: still together
        field("d", 160 + 4096 + 4097, 5), // a gap of 4097: apart
        field("e", 160 + 4096 + 4097, 0),
    ];
    let groups = plan_groups(&fields, &vec![0, 1, 2, 3, 4]);
    assert_eq!(
        groups,
        vec![
            ReadGroup { start: 0, end: 160 + 4096, members: vec![0, 1, 2] },
            ReadGroup { start: 8353, end: 8358, members: vec![3, 4] },
        ]
    );
    assert_eq!(plan_groups(&fields, &vec![]), vec![]);
    assert_eq!(
        plan_groups(&fields, &vec![2]),
        vec![ReadGroup { start: 4246, end: 4256, members: vec![2] }]
    );
}

#[test]
fn a_group_spans_at_most_eight_mebibytes() {
    let mib = 1024 * 1024;
    let fields = vec![
        field("a", 0, 4 * mib),
        field("b", 4 * mib, 4 * mib),     // the group is then exactly 8 MiB
        field("c", 8 * mib, 1),           // one byte too many
        field("d", 8 * mib + 1, 9 * mib), // too large for any company
        field("e", 17 * mib + 1, 1),
    ];
    let groups = plan_groups(&fields, &vec![0, 1, 2, 3, 4]);
    assert_eq!(
        groups,
        vec![
            ReadGroup { start: 0, end: 8 * mib, members: vec![0, 1] },
            ReadGroup { start: 8 * mib, end: 8 * mib + 1, members: vec![2] },
            ReadGroup { start: 8 * mib + 1, end: 17 * mib + 1, members: vec![3] },
            ReadGroup { start: 17 * mib + 1, end: 17 * mib + 2, members: vec![4] },
        ]
    );
}

#[test]
fn overlapping_fields_share_a_group() {
    let fields = vec![field("a", 0, 100), field("b", 10, 20), field("c", 50, 100)];
    let groups = plan_groups(&fields, &vec![0, 1, 2]);
    assert_eq!(groups, vec![ReadGroup { start: 0, end: 150, members: vec![0, 1, 2] }]);
}

#[test]
fn a_group_is_cut_into_its_fields() {
    let fields = vec![field("a", 10, 3), field("b", 13, 0), field("c", 15, 2)];
    let group = ReadGroup { start: 10, end: 17, members: vec![0, 1, 2] };
    let bytes = [1u8, 2, 3, 4, 5, 6, 7];
    assert_eq!(
        split_group(&fields, &group, &bytes).unwrap(),
        vec![(0, vec![1, 2, 3]), (1, vec![]), (2, vec![6, 7])]
    );
    // bytes that do not reach
    assert_eq!(split_group(&fields, &group, &bytes[..6]).unwrap_err().kind(), ErrorKind::Io);
    // a field before the group
    let early = ReadGroup { start: 11, end: 17, members: vec![0] };
    assert_eq!(split_group(&fields, &early, &bytes).unwrap_err().kind(), ErrorKind::Io);
}

#[test]
fn scrolling_stays_within_the_list() {
    assert_eq!(clamp_scroll(5, 100, 0), 0);
    assert_eq!(clamp_scroll(5, 10, 10), 0);
    assert_eq!(clamp_scroll(5, 9, 10), 0);
    assert_eq!(clamp_scroll(5, 100, 10), 5);
    assert_eq!(clamp_scroll(90, 100, 10), 90);
    assert_eq!(clamp_scroll(91, 100, 10), 90);
    assert_eq!(clamp_scroll(u16::MAX, 100, 10), 90);
    // the length counts modulo 65536
    assert_eq!(clamp_scroll(7, 65536 + 20, 10), 7);
    assert_eq!(clamp_scroll(17, 65536 + 20, 10), 10);

    assert_eq!(ensure_visible(5, 3, 0), 5);
    assert_eq!(ensure_visible(5, 3, 10), 3);
    assert_eq!(ensure_visible(5, 5, 10), 5);
    assert_eq!(ensure_visible(5, 14, 10), 5);
    assert_eq!(ensure_visible(5, 15, 10), 6);
    assert_eq!(ensure_visible(0, 100, 1), 100);
    assert_eq!(ensure_visible(65530, 65535, 10), 65530);
    assert_eq!(ensure_visible(0, 65535, 65535), 1);

    assert_eq!(bytes_per_elem("double"), Some(8));
    assert_eq!(bytes_per_elem("single"), Some(4));
    assert_eq!(bytes_per_elem("int8"), Some(1));
    assert_eq!(bytes_per_elem("uint8"), Some(1));
    assert_eq!(bytes_per_elem("int16"), Some(2));
    assert_eq!(bytes_per_elem("uint16"), Some(2));
    assert_eq!(bytes_per_elem("int32"), Some(4));
    assert_eq!(bytes_per_elem("uint32"), Some(4));
    assert_eq!(bytes_per_elem("int64"), Some(8));
    assert_eq!(bytes_per_elem("uint64"), Some(8));
    assert_eq!(bytes_per_elem("Double"), None);
    assert_eq!(bytes_per_elem(""), None);
}

#[test]
fn many_fields_are_sorted_like_the_stable_sort_of_the_standard_library() {
    let mut state: u64 = 99;
    let mut fields = Vec::new();
    for i in 0..2000 {
        state = state.wrapping_mul(6364136223846793005).wrapping_add(1442695040888963407);
        fields.push(field(&format!("f{i}"), (state >> 33) % 50, 1));
    }
    let wanted: Vec<usize> = (0..fields.len()).rev().collect();
    let mut expected = wanted.clone();
    expected.sort_by_key(|&i| fields[i].offset);
    assert_eq!(sort_by_offset(&fields, &wanted), expected);
    let some: Vec<usize> = (0..fields.len()).filter(|i| i % 3 != 1).collect();
    let mut expected = some.clone();
    expected.sort_by_key(|&i| fields[i].offset);
    assert_eq!(sort_by_offset(&fields, &some), expected);
    assert_eq!(sort_by_offset(&fields, &vec![7]), vec![7]);
}

#[test]
fn shapes_are_written_in_brackets() {
    assert_eq!(fmt_shape(&[]), "[?]");
    assert_eq!(fmt_shape(&[7]), "[7]");
    assert_eq!(fmt_shape(&[3, 4]), "[3 x 4]");
    assert_eq!(fmt_shape(&[0, 10, u64::MAX]), "[0 x 10 x 18446744073709551615]");
    assert_eq!(fmt_shape_usize(&[]), "[?]");
    assert_eq!(fmt_shape_usize(&[2, 0, 5]), "[2 x 0 x 5]");
}

#[test]
fn a_selection_moves_within_the_list() {
    assert_eq!(move_selection(3, 1, 10), 4);
    assert_eq!(move_selection(3, -1, 10), 2);
    assert_eq!(move_selection(0, -1, 10), 0);
    assert_eq!(move_selection(9, 1, 10), 9);
    assert_eq!(move_selection(9, 5, 10), 9);
    assert_eq!(move_selection(2, -5, 10), 0);
    assert_eq!(move_selection(5, 0, 10), 5);
    assert_eq!(move_selection(5, 3, 0), 0);
    assert_eq!(move_selection(12, 0, 4), 3);
    assert_eq!(move_selection(4, i32::MIN, 10), 0);
    assert_eq!(move_selection(0, i32::MAX, 10), 9);
}

#[test]
fn integers_are_written_in_decimal_digits() {
    assert_eq!(signed_text(0), "0");
    assert_eq!(signed_text(-1), "-1");
    assert_eq!(signed_text(42), "42");
    assert_eq!(signed_text(i64::MAX), "9223372036854775807");
    assert_eq!(signed_text(i64::MIN), "-9223372036854775808");

    assert_eq!(scalar_text("int8", &[0x80]), "-128");
    assert_eq!(scalar_text("int8", &[0x7F]), "127");
    assert_eq!(scalar_text("uint8", &[0xFF]), "255");
    assert_eq!(scalar_text("int16", &(-2i16).to_le_bytes()), "-2");
    assert_eq!(scalar_text("uint16", &[0x34, 0x12]), "4660");
    assert_eq!(scalar_text("int32", &i32::MIN.to_le_bytes()), "-2147483648");
    assert_eq!(scalar_text("uint32", &[0xFF; 4]), "4294967295");
    assert_eq!(scalar_text("int64", &(-5_000_000_000i64).to_le_bytes()), "-5000000000");
    assert_eq!(scalar_text("int64", &i64::MIN.to_le_bytes()), "-9223372036854775808");
    assert_eq!(scalar_text("uint64", &[0xFF; 8]), "18446744073709551615");
    assert_eq!(scalar_text("uint64", &1u64.to_le_bytes()), "1");
}

#[test]
fn other_elements_are_written_in_hexadecimal_digits() {
    assert_eq!(scalar_text("logical", &[1]), "0x01");
    assert_eq!(scalar_text("char", &[0x47, 0x00]), "0x4700");
    assert_eq!(scalar_text("", &[]), "0x");
    assert_eq!(scalar_text("Int8", &[0xAB, 0xCD, 0xEF]), "0xABCDEF");
    assert_eq!(scalar_text("bytes", &[0x00, 0x0F, 0xF0, 0x9A]), "0x000FF09A");
}

#[test]
fn the_shape_of_a_named_field_is_found() {
    let mut a = field("a", 0, 4);
    a.shape = vec![2, 2];
    let mut b = field("a.b", 4, 6);
    b.shape = vec![1, 6];
    let mut again = field("a", 10, 3);
    again.shape = vec![3];
    let fields = vec![a, b, again];
    assert_eq!(shape_hint_for_path(&fields, "a"), Some("[2 x 2]".to_string()));
    assert_eq!(shape_hint_for_path(&fields, "a.b"), Some("[1 x 6]".to_string()));
    assert_eq!(shape_hint_for_path(&fields, "b"), None);
    assert_eq!(shape_hint_for_path(&fields, "A"), None);
    assert_eq!(shape_hint_for_path(&[], "a"), None);
}
