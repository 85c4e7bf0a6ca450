use tzdb_transform::error::ParseError;
use tzdb_transform::records::{convert_csv, zones_from_csv, zones_from_rows};
use tzdb_transform::source::{choose_source, classify_line, InputSource, LineKind};

const HEADER: &str = "ID,STD ABBR,STD NAME,DST ABBR,DST NAME,GMT offset\n";

fn row(fields: &[&str]) -> Vec<String> {
    fields.iter().map(|f| f.to_string()).collect()
}

#[test]
fn end_to_end_single_record() {
    let text = format!("{}America/New_York,EST,-5,0,0,-05:00:00\n", HEADER);
    assert_eq!(convert_csv(&text), Ok("{\n{\"America/New_York\",\"EST\",-18000},\n}\n".to_string()));
}

#[test]
fn header_only_gives_empty_block() {
    assert_eq!(convert_csv(HEADER), Ok("{\n}\n".to_string()));
}

#[test]
fn records_keep_row_order() {
    let text = format!("{}Asia/Tokyo,JST,x,y,z,+09:00:00\nUTC,UTC,x,y,z,00:00:00\n", HEADER);
    let zs = zones_from_csv(&text).unwrap();
    assert_eq!(zs.len(), 2);
    assert_eq!(zs[0].name, "Asia/Tokyo");
    assert_eq!(zs[0].utc_off, 32400);
    assert_eq!(zs[1].abbreviation, "UTC");
    assert_eq!(zs[1].utc_off, 0);
}

#[test]
fn bad_offset_aborts_the_whole_run() {
    let text = format!("{}A,a,x,y,z,01:00:00\nB,b,x,y,z,bad\n", HEADER);
    assert_eq!(convert_csv(&text), Err(ParseError::MalformedOffset));
    let text = format!("{}A,a,x,y,z,01:xx:00\n", HEADER);
    assert_eq!(convert_csv(&text), Err(ParseError::InvalidNumber));
}

#[test]
fn uneven_rows_are_unreadable() {
    let text = format!("{}A,a,x\n", HEADER);
    assert_eq!(convert_csv(&text), Err(ParseError::IOError));
}

#[test]
fn short_row_is_missing_a_field() {
    let rows = vec![row(&["A", "a", "x", "y", "z", "01:00:00"]), row(&["B", "b"])];
    assert_eq!(zones_from_rows(&rows).err(), Some(ParseError::MissingField));
}

#[test]
fn first_bad_row_decides_the_error() {
    let rows = vec![row(&["A", "a", "x", "y", "z", "1:00"]), row(&["B"])];
    assert_eq!(zones_from_rows(&rows).err(), Some(ParseError::MalformedOffset));
}

#[test]
fn rows_give_records() {
    let rows = vec![row(&["Europe/Berlin", "CET", "", "", "", "+01:00:00", "extra"])];
    let zs = zones_from_rows(&rows).unwrap();
    assert_eq!(zs[0].name, "Europe/Berlin");
    assert_eq!(zs[0].abbreviation, "CET");
    assert_eq!(zs[0].utc_off, 3600);
}

#[test]
fn directory_takes_precedence() {
    match choose_source(Some("tz".to_string()), Some("a.csv".to_string())) {
        Ok(InputSource::TzdbDirectory(p)) => assert_eq!(p, "tz"),
        other => panic!("unexpected {:?}", other),
    }
    match choose_source(None, Some("a.csv".to_string())) {
        Ok(InputSource::CsvFile(p)) => assert_eq!(p, "a.csv"),
        other => panic!("unexpected {:?}", other),
    }
}

#[test]
fn no_source_is_an_error() {
    assert!(matches!(choose_source(None, None), Err(ParseError::NoInputSource)));
}

#[test]
fn area_file_lines() {
    assert_eq!(classify_line("# comment"), LineKind::Comment);
    assert_eq!(classify_line("Zone America/New_York -4:56:02 - LMT 1883"), LineKind::ZoneStart);
    assert_eq!(classify_line("Rule US 1967 2006 - Oct lastSun 2:00 0 S"), LineKind::Other);
    assert_eq!(classify_line("Zon"), LineKind::Other);
    assert_eq!(classify_line(""), LineKind::Other);
}
