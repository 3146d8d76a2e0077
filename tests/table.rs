use std::time::SystemTime;

use csv_table::{get_dimensions, parse_dimension, Bound, CSVData, Page, TableError};

const SAMPLE: &str = "\
community,block,along,telephone,jar,play
environment,managed,valley,potatoes,there,century
his,soft,breathing,gun,barn,completely
wire,tall,pocket,fifteen,garden,drawn
";

fn load(text: &str) -> CSVData {
    CSVData::from_source(
        "sample.csv",
        text.as_bytes(),
        text.len() as u64,
        SystemTime::UNIX_EPOCH,
        SystemTime::UNIX_EPOCH,
    )
    .expect("Failed to read test CSV text")
}

fn numbered(n: usize) -> CSVData {
    let mut text = String::new();
    for i in 0..n {
        text.push_str(&format!("r{i}a,r{i}b,r{i}c\n"));
    }
    load(&text)
}

fn bounds(t: &CSVData) -> Vec<(usize, usize)> {
    t.pages.iter().map(|p| (p.start, p.end)).collect()
}

fn strings(fields: &[&str]) -> Vec<String> {
    fields.iter().map(|f| f.to_string()).collect()
}

#[test]
fn test_paginate() {
    let csv_data = load(SAMPLE);
    let rows = csv_data.paginate(0, 3).expect("Not in range");
    assert_eq!(rows[0], strings(&["community", "block", "along", "telephone", "jar", "play"]));
    assert_eq!(
        rows[1],
        strings(&["environment", "managed", "valley", "potatoes", "there", "century"])
    );
    assert_eq!(rows[2], strings(&["his", "soft", "breathing", "gun", "barn", "completely"]));
}

#[test]
fn test_delete_and_modify() {
    let mut csv_data = load(SAMPLE);
    let original_records = csv_data.records;
    let original_fields = csv_data.fields;

    csv_data.delete_row(0).expect("Failed to delete row");
    assert_eq!(csv_data.records, original_records);
    assert_eq!(csv_data.data[0].len(), original_fields);

    csv_data.modify_field(1, 1, "modified").expect("Failed to modify field");
    assert_eq!(csv_data.records, original_records);
    assert_eq!(csv_data.fields, original_fields);
}

#[test]
fn load_measures_rows_and_first_row() {
    let t = load(SAMPLE);
    assert_eq!(t.records, 4);
    assert_eq!(t.fields, 6);
    assert!(t.pages.is_empty());
    assert_eq!(t.file_name, "sample.csv");
    assert_eq!(t.file_size, SAMPLE.len() as u64);
    assert_eq!(t.creation_date, SystemTime::UNIX_EPOCH);
}

#[test]
fn load_empty_source() {
    let t = load("");
    assert_eq!(t.records, 0);
    assert_eq!(t.fields, 0);
    assert!(t.data.is_empty());
}

#[test]
fn load_rejects_ragged_text() {
    let r = CSVData::from_source("x", b"a,b\nc\n", 6, SystemTime::UNIX_EPOCH, SystemTime::UNIX_EPOCH);
    assert!(matches!(r, Err(TableError::SourceUnreadable)));
}

#[test]
fn load_rejects_invalid_utf8() {
    let r = CSVData::from_source("x", b"a,\xff\n", 5, SystemTime::UNIX_EPOCH, SystemTime::UNIX_EPOCH);
    assert!(matches!(r, Err(TableError::SourceUnreadable)));
}

#[test]
fn load_reads_quoted_fields() {
    let t = load("\"a,b\",c\n");
    assert_eq!(t.data, vec![strings(&["a,b", "c"])]);
}

#[test]
fn pages_of_twenty_five_rows_then_edits() {
    let mut t = numbered(25);
    t.create_pages(10);
    assert_eq!(bounds(&t), vec![(0, 10), (10, 20), (20, 25)]);
    t.delete_row(0).unwrap();
    t.modify_field(1, 0, "X").unwrap();
    assert!(t.data[0].iter().all(|f| f.is_empty()));
    assert_eq!(t.data[0].len(), 3);
    assert_eq!(t.data[1][0], "X");
    assert_eq!(t.records, 25);
}

#[test]
fn pages_cover_rows_in_runs() {
    let mut t = numbered(7);
    t.create_pages(3);
    assert_eq!(t.pages, vec![Page { start: 0, end: 3 }, Page { start: 3, end: 6 }, Page { start: 6, end: 7 }]);
    t.create_pages(7);
    assert_eq!(bounds(&t), vec![(0, 7)]);
    t.create_pages(100);
    assert_eq!(bounds(&t), vec![(0, 7)]);
    t.create_pages(1);
    assert_eq!(t.pages.len(), 7);
}

#[test]
fn page_size_zero_is_ten() {
    let mut a = numbered(23);
    let mut b = numbered(23);
    a.create_pages(0);
    b.create_pages(10);
    assert_eq!(a.pages, b.pages);
    assert_eq!(bounds(&a), vec![(0, 10), (10, 20), (20, 23)]);
}

#[test]
fn no_rows_no_pages() {
    let mut t = load("");
    t.create_pages(5);
    assert!(t.pages.is_empty());
    t.create_pages(0);
    assert!(t.pages.is_empty());
}

#[test]
fn pagination_twice_is_the_same() {
    let mut t = numbered(12);
    t.create_pages(5);
    let first = t.pages.clone();
    t.create_pages(5);
    assert_eq!(t.pages, first);
    assert_eq!(bounds(&t), vec![(0, 5), (5, 10), (10, 12)]);
}

#[test]
fn pages_follow_overridden_row_count() {
    let mut t = numbered(2);
    t.records = 5;
    t.create_pages(2);
    assert_eq!(bounds(&t), vec![(0, 2), (2, 4), (4, 5)]);
    assert!(matches!(t.paginate(4, 5), Err(TableError::IndexOutOfBounds(Bound::Row))));
}

#[test]
fn paginate_rejects_bad_ranges() {
    let t = load(SAMPLE);
    assert!(matches!(t.paginate(3, 2), Err(TableError::IndexOutOfBounds(Bound::Row))));
    assert!(matches!(t.paginate(0, 5), Err(TableError::IndexOutOfBounds(Bound::Row))));
    assert_eq!(t.paginate(4, 4).unwrap().len(), 0);
    assert_eq!(t.paginate(3, 4).unwrap()[0][0], "wire");
}

#[test]
fn modify_changes_one_field_only() {
    let mut t = load(SAMPLE);
    let before = t.data.clone();
    t.modify_field(2, 3, "sword").unwrap();
    for (i, row) in t.data.iter().enumerate() {
        for (j, f) in row.iter().enumerate() {
            if (i, j) == (2, 3) {
                assert_eq!(f, "sword");
            } else {
                assert_eq!(f, &before[i][j]);
            }
        }
    }
    assert_eq!((t.records, t.fields), (4, 6));
}

#[test]
fn modify_out_of_range_changes_nothing() {
    let mut t = load(SAMPLE);
    let before = t.data.clone();
    assert_eq!(t.modify_field(4, 0, "x"), Err(TableError::IndexOutOfBounds(Bound::Row)));
    assert_eq!(t.modify_field(0, 6, "x"), Err(TableError::IndexOutOfBounds(Bound::Field)));
    assert_eq!(t.data, before);
    assert_eq!((t.records, t.fields), (4, 6));
}

#[test]
fn modify_bounds_field_by_the_row_itself() {
    let mut t = load(SAMPLE);
    t.fields = 2;
    t.modify_field(0, 5, "x").unwrap();
    assert_eq!(t.data[0][5], "x");
    t.records = 2;
    assert_eq!(t.modify_field(3, 0, "x"), Err(TableError::IndexOutOfBounds(Bound::Row)));
}

#[test]
fn delete_blanks_in_place() {
    let mut t = load(SAMPLE);
    t.delete_row(2).unwrap();
    assert_eq!(t.data.len(), 4);
    assert_eq!(t.data[2], strings(&["", "", "", "", "", ""]));
    assert_eq!(t.data[3][0], "wire");
    assert_eq!(t.records, 4);
}

#[test]
fn delete_out_of_range_changes_nothing() {
    let mut t = load(SAMPLE);
    let before = t.data.clone();
    assert_eq!(t.delete_row(4), Err(TableError::IndexOutOfBounds(Bound::Row)));
    t.records = 9;
    assert_eq!(t.delete_row(6), Err(TableError::IndexOutOfBounds(Bound::Row)));
    assert_eq!(t.data, before);
}

#[test]
fn delete_uses_declared_field_count() {
    let mut t = load(SAMPLE);
    t.fields = 2;
    t.delete_row(1).unwrap();
    assert_eq!(t.data[1], strings(&["", ""]));
}

#[test]
fn writes_rows_as_stored() {
    let mut t = load("a,b\nc,d\n");
    assert_eq!(t.to_csv(), b"a,b\nc,d\n".to_vec());
    t.modify_field(0, 1, "x,y").unwrap();
    t.fields = 1;
    t.delete_row(1).unwrap();
    assert_eq!(t.to_csv(), b"a,\"x,y\"\n\"\"\n".to_vec());
}

#[test]
fn written_rows_read_back_the_same() {
    let mut t = load(SAMPLE);
    t.modify_field(1, 2, "a \"quoted\", field").unwrap();
    t.delete_row(3).unwrap();
    let bytes = t.to_csv();
    let back = load(std::str::from_utf8(&bytes).unwrap());
    assert_eq!(back.data, t.data);
    assert_eq!((back.records, back.fields), (t.records, t.fields));
}

#[test]
fn dimensions_measured_from_source() {
    assert_eq!(get_dimensions(SAMPLE.as_bytes()), Ok((4, 6)));
    assert_eq!(get_dimensions(b""), Ok((0, 0)));
    assert_eq!(get_dimensions(b"a,b\nc\n"), Err(TableError::SourceUnreadable));
}

#[test]
fn dimension_declarations() {
    assert_eq!(parse_dimension("3,4"), Some((3, 4)));
    assert_eq!(parse_dimension("+12,007"), Some((12, 7)));
    assert_eq!(parse_dimension("0,0"), Some((0, 0)));
    assert_eq!(parse_dimension("3"), None);
    assert_eq!(parse_dimension("3,4,5"), None);
    assert_eq!(parse_dimension("a,4"), None);
    assert_eq!(parse_dimension(",4"), None);
    assert_eq!(parse_dimension("3, 4"), None);
    assert_eq!(parse_dimension("-1,4"), None);
    assert_eq!(parse_dimension("+,4"), None);
    assert_eq!(parse_dimension("99999999999999999999999,1"), None);
    assert_eq!(parse_dimension(&format!("{},1", usize::MAX)), Some((usize::MAX, 1)));
}

#[test]
fn resolve_uses_declaration_or_measures() {
    let mut t = load(SAMPLE);
    t.resolve_dimensions(Some("10,2"), SAMPLE.as_bytes()).unwrap();
    assert_eq!((t.records, t.fields), (10, 2));
    t.resolve_dimensions(Some("10;2"), b"x,y,z\n").unwrap();
    assert_eq!((t.records, t.fields), (1, 3));
    t.resolve_dimensions(None, SAMPLE.as_bytes()).unwrap();
    assert_eq!((t.records, t.fields), (4, 6));
    assert_eq!(t.resolve_dimensions(None, b"a,b\nc\n"), Err(TableError::SourceUnreadable));
    assert_eq!((t.records, t.fields), (4, 6));
    assert_eq!(t.data.len(), 4);
}
