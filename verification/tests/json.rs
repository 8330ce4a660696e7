use rustychickpeas_ldbc::json::{block, jstr, rows_kv, rows_pairs, strs};

#[test]
fn jstr_escapes_quotes_backslashes_and_controls() {
    assert_eq!(jstr("plain"), "\"plain\"");
    assert_eq!(jstr("a\"b\\c"), "\"a\\\"b\\\\c\"");
    assert_eq!(jstr("l1\nl2\r\t"), "\"l1\\nl2\\r\\t\"");
    assert_eq!(jstr("\u{1}"), "\"\\u0001\"");
    assert_eq!(jstr("\u{1f}é"), "\"\\u001fé\"");
}

#[test]
fn rows_and_blocks_render_json() {
    assert_eq!(rows_kv(&[("a".to_string(), 3), ("b\"".to_string(), 0)]), "[[\"a\",3],[\"b\\\"\",0]]");
    assert_eq!(rows_kv(&[]), "[]");
    assert_eq!(strs(&["x".to_string(), "y".to_string()]), "[\"x\",\"y\"]");
    assert_eq!(rows_pairs(&[("k".to_string(), "v".to_string())]), "[[\"k\",\"v\"]]");
    assert_eq!(block("q1", "[]".to_string()), "{\"kind\":\"q1\",\"rows\":[]}");
}
