use osmpbf::StringTableBuilder;

fn to_str(bytes: &[u8]) -> String {
    String::from_utf8(bytes.to_vec()).unwrap()
}

fn assert_eq_vec(actual: &[Vec<u8>], expected: Vec<&str>) {
    let actual = actual.iter().map(|v| to_str(v)).collect::<Vec<_>>();
    assert_eq!(actual, expected);
}

#[test]
fn test_string_table_builder() {
    let tbl = StringTableBuilder::default();
    let (pbf, idx) = tbl.finalize();
    assert_eq!(pbf.len(), 0);
    assert_eq!(idx.len(), 0);

    let mut tbl = StringTableBuilder::default();
    assert_eq!(tbl.add_string("a".to_string()), 1);
    let (pbf, idx) = tbl.finalize();
    assert_eq_vec(&pbf, vec!["", "a"]);
    assert_eq!(idx, [0, 1]);

    let mut tbl = StringTableBuilder::default();
    assert_eq!(tbl.add_string("a".to_string()), 1);
    assert_eq!(tbl.add_string("b".to_string()), 2);
    assert_eq!(tbl.add_string("b".to_string()), 2);
    let (pbf, idx) = tbl.finalize();
    assert_eq_vec(&pbf, vec!["", "b", "a"]);
    assert_eq!(idx, [0, 2, 1]);
    assert_eq!(to_str(&pbf[idx[0]]), "");
    assert_eq!(to_str(&pbf[idx[1]]), "a");
    assert_eq!(to_str(&pbf[idx[2]]), "b");

    let mut tbl = StringTableBuilder::default();
    assert_eq!(tbl.add_string("a3".to_string()), 1);
    assert_eq!(tbl.add_string("a2".to_string()), 2);
    assert_eq!(tbl.add_string("a1".to_string()), 3);
    let (pbf, idx) = tbl.finalize();
    assert_eq_vec(&pbf, vec!["", "a1", "a2", "a3"]);
    assert_eq!(idx, [0, 3, 2, 1]);
    assert_eq!(to_str(&pbf[idx[0]]), "");
    assert_eq!(to_str(&pbf[idx[1]]), "a3");
    assert_eq!(to_str(&pbf[idx[2]]), "a2");
    assert_eq!(to_str(&pbf[idx[3]]), "a1");
}

#[test]
fn string_table_map_is_not_its_own_inverse() {
    // temporary indices: x=1, y=2, z=3; usages: x=1, y=2, z=3
    let mut tbl = StringTableBuilder::new();
    assert_eq!(tbl.add_string("x".to_string()), 1);
    assert_eq!(tbl.add_string("y".to_string()), 2);
    assert_eq!(tbl.add_string("y".to_string()), 2);
    assert_eq!(tbl.add_string("z".to_string()), 3);
    assert_eq!(tbl.add_string("z".to_string()), 3);
    assert_eq!(tbl.add_string("z".to_string()), 3);
    // "x" is added again only now: it keeps its index
    assert_eq!(tbl.add_string("x".to_string()), 1);
    let (pbf, idx) = tbl.finalize();
    // usages: z=3, x=2, y=2 (x before y by bytes)
    assert_eq_vec(&pbf, vec!["", "z", "x", "y"]);
    assert_eq!(idx, [0, 2, 3, 1]);
    assert_eq!(to_str(&pbf[idx[1]]), "x");
    assert_eq!(to_str(&pbf[idx[2]]), "y");
    assert_eq!(to_str(&pbf[idx[3]]), "z");
}

#[test]
fn string_table_empty_string_stays_first() {
    let mut tbl = StringTableBuilder::new();
    assert_eq!(tbl.add_string("".to_string()), 0);
    assert_eq!(tbl.len(), 1);
    assert_eq!(tbl.add_string("b".to_string()), 1);
    let (pbf, idx) = tbl.finalize();
    assert_eq_vec(&pbf, vec!["", "b"]);
    assert_eq!(idx, [0, 1]);
}

#[test]
fn string_table_orders_bytes_not_length() {
    let mut tbl = StringTableBuilder::new();
    assert_eq!(tbl.add_string("ab".to_string()), 1);
    assert_eq!(tbl.add_string("b".to_string()), 2);
    assert_eq!(tbl.add_string("a".to_string()), 3);
    assert_eq!(tbl.add_string("é".to_string()), 4);
    let (pbf, idx) = tbl.finalize();
    assert_eq_vec(&pbf, vec!["", "a", "ab", "b", "é"]);
    assert_eq!(idx, [0, 2, 3, 1, 4]);
}
