use rustychickpeas_ldbc::tables::{int_or_zero_of, read_files, read_table, select_columns};
use rustychickpeas_ldbc::dates::{date_cuts, month_or_one, ms_cuts};
use rustychickpeas_ldbc::numtext::int_text;
use std::io::Write;

fn rows(v: &[&[&str]]) -> Vec<Vec<String>> {
    v.iter().map(|r| r.iter().map(|s| s.to_string()).collect()).collect()
}

#[test]
fn select_columns_picks_by_header() {
    let recs = rows(&[&["id", "name", "age"], &["1", "ann", "30"], &["2", "bob"]]);
    let got = select_columns(&recs, &vec!["age", "id"]).unwrap();
    assert_eq!(got, rows(&[&["30", "1"], &["", "2"]]));
}

#[test]
fn select_columns_names_the_first_missing_column() {
    let recs = rows(&[&["id", "name"], &["1", "ann"]]);
    assert_eq!(select_columns(&recs, &vec!["id", "x", "y"]), Err("x".to_string()));
    assert_eq!(select_columns(&Vec::new(), &vec!["id"]), Err("id".to_string()));
    assert_eq!(select_columns(&Vec::new(), &vec![]), Ok(vec![]));
}

#[test]
fn read_table_plain_pipe_csv() {
    let bytes = b"id|title\n7|hello\n8|world\n";
    let got = read_table(bytes, false, false, &vec!["title"]).unwrap().unwrap();
    assert_eq!(got, rows(&[&["hello"], &["world"]]));
}

#[test]
fn read_table_gzip() {
    let mut enc = flate2::write::GzEncoder::new(Vec::new(), flate2::Compression::default());
    enc.write_all(b"a|b\n1|2\n").unwrap();
    let gz = enc.finish().unwrap();
    let got = read_table(&gz, true, false, &vec!["b", "a"]).unwrap().unwrap();
    assert_eq!(got, rows(&[&["2", "1"]]));
    // Not gzip at all: decoding fails.
    assert_eq!(read_table(b"a|b\n1|2\n", true, false, &vec!["a"]), None);
}

#[test]
fn read_table_ragged_rows_need_flexible() {
    let bytes = b"a|b\n1|2\n3\n";
    assert_eq!(read_table(bytes, false, false, &vec!["b"]), None);
    let got = read_table(bytes, false, true, &vec!["b"]).unwrap().unwrap();
    assert_eq!(got, rows(&[&["2"], &[""]]));
}

#[test]
fn read_files_joins_files_in_order() {
    let files = vec![b"id\n1\n2\n".to_vec(), b"id\n3\n".to_vec()];
    let got = read_files(&files, false, false, &vec!["id"]).unwrap().unwrap();
    assert_eq!(got, rows(&[&["1"], &["2"], &["3"]]));
    let bad = vec![b"id\n1\n".to_vec(), b"x\n3\n".to_vec()];
    assert_eq!(read_files(&bad, false, false, &vec!["id"]), Some(Err("id".to_string())));
    assert_eq!(read_files(&Vec::new(), false, false, &vec!["id"]), Some(Ok(vec![])));
}

#[test]
fn ints_read_or_zero() {
    assert_eq!(int_or_zero_of("42"), 42);
    assert_eq!(int_or_zero_of("-7"), -7);
    assert_eq!(int_or_zero_of("+5"), 5);
    assert_eq!(int_or_zero_of("x1"), 0);
    assert_eq!(int_or_zero_of(""), 0);
}

#[test]
fn decimal_text_of_integers() {
    assert_eq!(int_text(0), "0");
    assert_eq!(int_text(-7), "-7");
    assert_eq!(int_text(1234567890), "1234567890");
    assert_eq!(int_text(i64::MIN), "-9223372036854775808");
    assert_eq!(int_text(i64::MAX), "9223372036854775807");
}

#[test]
fn date_slicing_checks() {
    assert!(date_cuts("2010-02-24T08:06:02.996+00:00"));
    assert!(date_cuts("short"));
    assert!(!date_cuts("201\u{e9}-02-24"));
    // The year does not read, so the month is never sliced.
    assert!(date_cuts("20x0-\u{e9}2-24"));
    assert!(ms_cuts("2010-02-24T08:06:02.996+00:00"));
    assert!(!ms_cuts("2010-02-24T08:06:02.99\u{e9}"));
    assert_eq!(month_or_one("2010-02-24"), 2);
    assert_eq!(month_or_one("2010-xx-24"), 1);
    assert_eq!(month_or_one("2010"), 1);
}
