use tag_aggregate::aggregate::{aggregate_lines, process_line, LineError};
use tag_aggregate::keytable::{load_key_table, KeyTable, LoadError};
use tag_aggregate::table::AggregateTable;

fn lines(v: &[&str]) -> Vec<String> {
    v.iter().map(|s| s.to_string()).collect()
}

#[test]
fn line_without_key_table_counts_each_tag() {
    let mut t = AggregateTable::new();
    assert_eq!(process_line("tagA|tagB,2020,1,2", &mut t, None), Ok(()));
    assert_eq!(t.len(), 2);
    assert_eq!(t.get("tagA", 2020, 1), Some(1));
    assert_eq!(t.get("tagB", 2020, 1), Some(1));
}

#[test]
fn line_with_key_table_maps_and_drops() {
    let mut kt = KeyTable::new();
    kt.insert("so1".to_string(), "python".to_string());
    let mut t = AggregateTable::new();
    assert_eq!(process_line("so1|so2,2021,3,5", &mut t, Some(&kt)), Ok(()));
    assert_eq!(t.len(), 1);
    assert_eq!(t.get("python", 2021, 3), Some(1));
    assert_eq!(t.get("so2", 2021, 3), None);
    assert_eq!(t.get("so1", 2021, 3), None);
}

#[test]
fn duplicate_tags_count_twice() {
    let mut t = AggregateTable::new();
    assert_eq!(process_line("a|a,2020,1,1", &mut t, None), Ok(()));
    assert_eq!(t.len(), 1);
    assert_eq!(t.get("a", 2020, 1), Some(2));
}

#[test]
fn empty_tag_group_without_key_table() {
    let mut t = AggregateTable::new();
    assert_eq!(process_line(",2020,1,1", &mut t, None), Ok(()));
    assert_eq!(t.len(), 1);
    assert_eq!(t.get("", 2020, 1), Some(1));
}

#[test]
fn empty_tag_group_with_key_table_is_dropped() {
    let kt = KeyTable::new();
    let mut t = AggregateTable::new();
    assert_eq!(process_line(",2020,1,1", &mut t, Some(&kt)), Ok(()));
    assert_eq!(t.len(), 0);
}

#[test]
fn too_few_fields_is_a_structural_error() {
    let mut t = AggregateTable::new();
    assert_eq!(
        process_line("notenoughfields", &mut t, None),
        Err(LineError::MissingFields)
    );
    assert_eq!(t.len(), 0);
}

#[test]
fn bad_numbers_are_numeric_errors() {
    let mut t = AggregateTable::new();
    assert_eq!(
        process_line("a,20x0,1,2", &mut t, None),
        Err(LineError::BadNumber)
    );
    assert_eq!(
        process_line("a,2020,,2", &mut t, None),
        Err(LineError::BadNumber)
    );
    assert_eq!(
        process_line("a,2020,1,two", &mut t, None),
        Err(LineError::BadNumber)
    );
    assert_eq!(t.len(), 0);
}

#[test]
fn extra_fields_are_ignored() {
    let mut t = AggregateTable::new();
    assert_eq!(process_line("a,2020,1,2,junk", &mut t, None), Ok(()));
    assert_eq!(t.get("a", 2020, 1), Some(1));
}

#[test]
fn header_line_is_skipped() {
    let input = lines(&["x|y,2020,1,1", "a,2021,2,3"]);
    let t = aggregate_lines(&input, 10, None).unwrap();
    assert_eq!(t.len(), 1);
    assert_eq!(t.get("a", 2021, 2), Some(1));
    assert_eq!(t.get("x", 2020, 1), None);
}

#[test]
fn empty_input_yields_empty_table() {
    let t = aggregate_lines(&lines(&[]), 10, None).unwrap();
    assert_eq!(t.len(), 0);
    let t = aggregate_lines(&lines(&["header only"]), 10, None).unwrap();
    assert_eq!(t.len(), 0);
}

#[test]
fn cap_limits_data_lines_but_not_the_header() {
    let mut input = vec!["tags,year,quarter,count".to_string()];
    for i in 1..=20 {
        input.push(format!("t{},2020,1,1", i));
    }
    let t = aggregate_lines(&input, 10, None).unwrap();
    assert_eq!(t.len(), 10);
    assert_eq!(t.get("t1", 2020, 1), Some(1));
    assert_eq!(t.get("t10", 2020, 1), Some(1));
    assert_eq!(t.get("t11", 2020, 1), None);
    assert_eq!(t.get("t20", 2020, 1), None);
}

#[test]
fn malformed_line_aborts_the_run() {
    let input = lines(&[
        "tags,year,quarter,count",
        "a,2020,1,1",
        "notenoughfields",
        "b,2020,1,1",
    ]);
    assert_eq!(
        aggregate_lines(&input, 10, None).err(),
        Some(LineError::MissingFields)
    );
}

#[test]
fn same_input_twice_yields_identical_tables() {
    let input = lines(&[
        "tags,year,quarter,count",
        "a|b,2020,1,5",
        "a,2020,1,2",
        "c,2021,4,1",
    ]);
    let t1 = aggregate_lines(&input, 100, None).unwrap();
    let t2 = aggregate_lines(&input, 100, None).unwrap();
    assert_eq!(t1.len(), t2.len());
    for (name, y, q) in [("a", 2020, 1), ("b", 2020, 1), ("c", 2021, 4)] {
        assert_eq!(t1.get(name, y, q), t2.get(name, y, q));
    }
    assert_eq!(t1.get("a", 2020, 1), Some(2));
    assert_eq!(t1.get("b", 2020, 1), Some(1));
    assert_eq!(t1.get("c", 2021, 4), Some(1));
}

#[test]
fn distinct_keys_never_exceed_combinations_seen() {
    let input = lines(&[
        "tags,year,quarter,count",
        "a|b|a,2020,1,1",
        "a,2020,1,1",
        "a,2020,2,1",
    ]);
    let t = aggregate_lines(&input, 100, None).unwrap();
    // Combinations seen: (a,2020,1), (b,2020,1), (a,2020,2).
    assert_eq!(t.len(), 3);
    assert_eq!(t.get("a", 2020, 1), Some(3));
}

#[test]
fn cap_of_zero_processes_no_data_lines() {
    let input = lines(&["tags,year,quarter,count", "a,2020,1,1"]);
    let t = aggregate_lines(&input, 0, None).unwrap();
    assert_eq!(t.len(), 0);
}

#[test]
fn fields_may_be_padded_and_negative() {
    let mut t = AggregateTable::new();
    assert_eq!(process_line("a, -5 ,\t1 , 2", &mut t, None), Ok(()));
    assert_eq!(t.get("a", -5, 1), Some(1));
}

#[test]
fn load_key_table_maps_stackoverflow_to_key() {
    let data = b"key,reddit,stackoverflow,wikipedia\n\
python,r_python,so_python,Python_(language)\n\
rust,r_rust,so_rust,Rust_(language)\n";
    let kt = load_key_table(data).unwrap();
    assert_eq!(kt.lookup("so_python").map(|s| s.as_str()), Some("python"));
    assert_eq!(kt.lookup("so_rust").map(|s| s.as_str()), Some("rust"));
    assert!(kt.lookup("absent").is_none());
    assert!(kt.lookup("python").is_none());
}

#[test]
fn load_key_table_later_rows_win() {
    let data = b"key,reddit,stackoverflow,wikipedia\n\
python,a,shared,b\n\
rust,c,shared,d\n";
    let kt = load_key_table(data).unwrap();
    assert_eq!(kt.lookup("shared").map(|s| s.as_str()), Some("rust"));
}

#[test]
fn load_key_table_empty_file_is_empty() {
    let kt = load_key_table(b"").unwrap();
    assert!(kt.lookup("anything").is_none());
    let kt = load_key_table(b"key,reddit,stackoverflow,wikipedia\n").unwrap();
    assert!(kt.lookup("anything").is_none());
}

#[test]
fn load_key_table_rejects_wrong_header() {
    let data = b"key,reddit\nx,y\n";
    assert_eq!(load_key_table(data).err(), Some(LoadError::Structure));
}

#[test]
fn load_key_table_rejects_ragged_rows() {
    let data = b"key,reddit,stackoverflow,wikipedia\na,b,c\n";
    assert_eq!(load_key_table(data).err(), Some(LoadError::Csv));
}

#[test]
fn load_key_table_rejects_bad_bytes() {
    let data = [0xffu8, 0xfe, b',', b'x', b'\n', b'a', b',', b'b', b'\n'];
    assert!(load_key_table(&data).is_err());
}

#[test]
fn full_run_with_key_table() {
    let key_data = b"key,reddit,stackoverflow,wikipedia\n\
python,r_python,so1,P\n\
rust,r_rust,so2,R\n";
    let kt = load_key_table(key_data).unwrap();
    let input = lines(&[
        "tags,year,quarter,count",
        "so1|so2,2021,3,5",
        "so1|unknown,2021,3,2",
        "so2,2022,1,1",
    ]);
    let t = aggregate_lines(&input, 10, Some(&kt)).unwrap();
    assert_eq!(t.len(), 3);
    assert_eq!(t.get("python", 2021, 3), Some(2));
    assert_eq!(t.get("rust", 2021, 3), Some(1));
    assert_eq!(t.get("rust", 2022, 1), Some(1));
    assert_eq!(t.get("unknown", 2021, 3), None);
}
