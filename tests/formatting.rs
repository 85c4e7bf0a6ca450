use tzdb_transform::zone::{format_collection, ZoneInfo};

#[test]
fn record_literal_in_field_order() {
    let z = ZoneInfo::new("America/New_York", "EST", -18000);
    assert_eq!(z.to_cpp_structure_literal(), "{\"America/New_York\",\"EST\",-18000}");
}

#[test]
fn record_literal_zero_and_positive_offsets() {
    assert_eq!(ZoneInfo::new("UTC", "UTC", 0).to_cpp_structure_literal(), "{\"UTC\",\"UTC\",0}");
    assert_eq!(
        ZoneInfo::new("Asia/Tokyo", "JST", 32400).to_cpp_structure_literal(),
        "{\"Asia/Tokyo\",\"JST\",32400}"
    );
}

#[test]
fn record_literal_escapes_quotes_and_backslashes() {
    let z = ZoneInfo::new("a\"b\\c", "x\ny", 7);
    assert_eq!(z.to_cpp_structure_literal(), "{\"a\\\"b\\\\c\",\"x\\ny\",7}");
}

#[test]
fn record_literal_extreme_offset() {
    let z = ZoneInfo::new("n", "a", i64::MIN);
    assert_eq!(z.to_cpp_structure_literal(), "{\"n\",\"a\",-9223372036854775808}");
}

#[test]
fn new_keeps_fields() {
    let z = ZoneInfo::new("Europe/Paris", "CET", 3600);
    assert_eq!(z.name, "Europe/Paris");
    assert_eq!(z.abbreviation, "CET");
    assert_eq!(z.utc_off, 3600);
}

#[test]
fn empty_collection_has_only_braces() {
    assert_eq!(format_collection(&vec![]), "{\n}\n");
}

#[test]
fn collection_keeps_order_one_line_each() {
    let zs = vec![
        ZoneInfo::new("B", "b", 60),
        ZoneInfo::new("A", "a", -60),
        ZoneInfo::new("C", "c", 0),
    ];
    let text = format_collection(&zs);
    assert_eq!(text, "{\n{\"B\",\"b\",60},\n{\"A\",\"a\",-60},\n{\"C\",\"c\",0},\n}\n");
    let lines: Vec<&str> = text.lines().collect();
    assert_eq!(lines.len(), 5);
    assert!(lines[1..4].iter().all(|l| l.ends_with(',')));
}

#[test]
fn collection_line_count_with_newline_in_name() {
    let zs = vec![ZoneInfo::new("x\ny", "z", 1)];
    assert_eq!(format_collection(&zs).lines().count(), 3);
}
