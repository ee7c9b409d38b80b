use gbin::tree::{assign_by_path, flatten_to_leaves};
use gbin::{ErrorKind, GbfValue, LogicalArray, StructMap};

fn leaf(n: u8) -> GbfValue {
    GbfValue::Logical(LogicalArray { shape: vec![1, 1], data: vec![n] })
}

fn keys(m: &StructMap) -> Vec<&str> {
    m.entries.iter().map(|e| e.0.as_str()).collect()
}

#[test]
fn a_record_keeps_its_names_in_order() {
    let mut m = StructMap::new();
    assert_eq!(m.len(), 0);
    m.insert("b".into(), leaf(1));
    m.insert("a".into(), leaf(2));
    m.insert("c".into(), leaf(3));
    m.insert("B".into(), leaf(4));
    m.insert("ab".into(), leaf(5));
    assert_eq!(keys(&m), vec!["B", "a", "ab", "b", "c"]);
    assert_eq!(m.len(), 5);
    m.insert("a".into(), leaf(9));
    assert_eq!(keys(&m), vec!["B", "a", "ab", "b", "c"]);
    assert_eq!(m.get("a"), Some(&leaf(9)));
    assert_eq!(m.get("zz"), None);
    assert!(m.contains_key("ab"));
    assert!(!m.contains_key("A"));
    assert_eq!(m.position("b"), 3);
    assert_eq!(m.position("nope"), 5);
}

#[test]
fn names_are_ordered_by_code_point() {
    let mut m = StructMap::new();
    m.insert("é".into(), leaf(1));
    m.insert("z".into(), leaf(2));
    m.insert("\u{1F600}".into(), leaf(3));
    m.insert("".into(), leaf(4));
    assert_eq!(keys(&m), vec!["", "z", "é", "\u{1F600}"]);
}

fn sample() -> GbfValue {
    let mut inner = StructMap::new();
    inner.insert("y".into(), leaf(2));
    inner.insert("x".into(), leaf(1));
    inner.insert("e".into(), GbfValue::EmptyStruct);
    let mut mid = StructMap::new();
    mid.insert("in".into(), GbfValue::Struct(inner));
    let mut root = StructMap::new();
    root.insert("top".into(), leaf(0));
    root.insert("mid".into(), GbfValue::Struct(mid));
    GbfValue::Struct(root)
}

#[test]
fn paths_lead_through_records() {
    let v = sample();
    assert_eq!(v.get_path(""), Some(&v));
    assert_eq!(v.get_path("top"), Some(&leaf(0)));
    assert_eq!(v.get_path("mid.in.x"), Some(&leaf(1)));
    assert_eq!(v.get_path("mid.in.e"), Some(&GbfValue::EmptyStruct));
    assert!(matches!(v.get_path("mid.in"), Some(GbfValue::Struct(_))));
    assert_eq!(v.get_path("mid.in.nope"), None);
    assert_eq!(v.get_path("top.x"), None);
    assert_eq!(v.get_path("mid..in"), None);
    assert_eq!(v.get_path("."), None);
    assert_eq!(leaf(1).get_path(""), Some(&leaf(1)));
    assert_eq!(leaf(1).get_path("a"), None);
    assert!(v.as_struct().is_some());
    assert!(leaf(1).as_struct().is_none());
}

#[test]
fn flattening_names_every_leaf_by_its_path() {
    let mut out = Vec::new();
    flatten_to_leaves(&sample(), "", &mut out).unwrap();
    let names: Vec<&str> = out.iter().map(|e| e.0.as_str()).collect();
    assert_eq!(names, vec!["mid.in.e", "mid.in.x", "mid.in.y", "top"]);
    assert_eq!(out[0].1, GbfValue::EmptyStruct);
    assert_eq!(out[1].1, leaf(1));
    assert_eq!(out[3].1, leaf(0));

    let mut out = vec![("first".to_string(), leaf(7))];
    flatten_to_leaves(&leaf(5), "", &mut out).unwrap();
    assert_eq!(out.len(), 2);
    assert_eq!(out[1], ("data".to_string(), leaf(5)));

    let mut out = Vec::new();
    flatten_to_leaves(&sample(), "pre", &mut out).unwrap();
    assert_eq!(out[0].0, "pre.mid.in.e");

    let mut out = Vec::new();
    flatten_to_leaves(&GbfValue::Struct(StructMap::new()), "", &mut out).unwrap();
    assert!(out.is_empty());
}

#[test]
fn a_name_with_a_dot_cannot_be_flattened() {
    let mut inner = StructMap::new();
    inner.insert("a.b".into(), leaf(1));
    let mut root = StructMap::new();
    root.insert("ok".into(), GbfValue::Struct(inner));
    let mut out = Vec::new();
    let err = flatten_to_leaves(&GbfValue::Struct(root), "", &mut out).unwrap_err();
    assert_eq!(err.kind(), ErrorKind::Unsupported);

    let mut root = StructMap::new();
    root.insert("a.b".into(), leaf(1));
    let mut out = Vec::new();
    let err = flatten_to_leaves(&GbfValue::Struct(root), "", &mut out).unwrap_err();
    assert_eq!(err.kind(), ErrorKind::Unsupported);
}

#[test]
fn assigning_builds_the_records_on_the_way() {
    let mut root = StructMap::new();
    assign_by_path(&mut root, "mid.in.y", leaf(2)).unwrap();
    assign_by_path(&mut root, "top", leaf(0)).unwrap();
    assign_by_path(&mut root, "mid.in.e", GbfValue::EmptyStruct).unwrap();
    assign_by_path(&mut root, "mid.in.x", leaf(1)).unwrap();
    assert_eq!(GbfValue::Struct(root), sample());
}

#[test]
fn assembling_the_leaves_of_a_tree_gives_the_tree() {
    let v = sample();
    let mut leaves = Vec::new();
    flatten_to_leaves(&v, "", &mut leaves).unwrap();
    // in any order
    leaves.reverse();
    let mut root = StructMap::new();
    for (name, value) in leaves {
        assign_by_path(&mut root, &name, value).unwrap();
    }
    assert_eq!(GbfValue::Struct(root), v);
}

#[test]
fn assigning_fails_on_bad_paths_and_leaves_the_record_alone() {
    let mut root = StructMap::new();
    assign_by_path(&mut root, "a", leaf(1)).unwrap();
    let before = GbfValue::Struct(root.clone());

    for path in ["", ".", "a.", ".a", "b..c"] {
        let err = assign_by_path(&mut root, path, leaf(2)).unwrap_err();
        assert_eq!(err.kind(), ErrorKind::Format, "path {path:?}");
        assert_eq!(GbfValue::Struct(root.clone()), before);
    }
    // `a` is a leaf, so nothing can lie below it
    let err = assign_by_path(&mut root, "a.b", leaf(2)).unwrap_err();
    assert_eq!(err.kind(), ErrorKind::Format);
    assert!(err.message().contains("collision"));
    assert_eq!(GbfValue::Struct(root.clone()), before);

    // a leaf may take the place of another
    assign_by_path(&mut root, "a", leaf(3)).unwrap();
    assert_eq!(root.get("a"), Some(&leaf(3)));
}
