use validresult::loader::{parse_csv, parse_user_rows, remove_user_row, submit_model};
use validresult::table::{CellAlign, CellData};

fn texts(cells: &[CellData]) -> Vec<String> {
    cells.iter().map(|c| c.value.clone()).collect()
}

#[test]
fn table_header_and_rows() {
    let (headers, rows) = parse_csv("model, a ,b\nm1, 1 ,2\n\n   \n m2,3,4\n");
    assert_eq!(texts(&headers), vec!["model", "a", "b"]);
    assert!(headers.iter().all(|c| c.bold && c.align == CellAlign::Left));
    assert_eq!(rows.len(), 2);
    assert_eq!(texts(&rows[0]), vec!["m1", "1", "2"]);
    assert_eq!(texts(&rows[1]), vec!["m2", "3", "4"]);
    assert!(rows.iter().flatten().all(|c| !c.bold && c.align == CellAlign::Center));
}

#[test]
fn table_of_empty_text() {
    let (headers, rows) = parse_csv("");
    assert_eq!(texts(&headers), vec![""]);
    assert!(rows.is_empty());
}

#[test]
fn table_with_crlf_and_ragged_rows() {
    let (headers, rows) = parse_csv("h1,h2\r\nx\r\ny,z,w\r\n");
    assert_eq!(texts(&headers), vec!["h1", "h2"]);
    assert_eq!(texts(&rows[0]), vec!["x"]);
    assert_eq!(texts(&rows[1]), vec!["y", "z", "w"]);
}

#[test]
fn user_rows_from_cookie() {
    let rows = parse_user_rows("model,a,b\nm1,1,2\n", "u1,1,2|u2, 3 ,4");
    assert_eq!(rows.len(), 2);
    assert_eq!(texts(&rows[0]), vec!["u1", "1", "2"]);
    assert_eq!(texts(&rows[1]), vec!["u2", "3", "4"]);
}

#[test]
fn blank_cookie_has_no_rows() {
    assert!(parse_user_rows("model,a\nm,1\n", "   ").is_empty());
    assert!(parse_user_rows("model,a\nm,1\n", "").is_empty());
}

#[test]
fn delete_middle_row() {
    assert_eq!(remove_user_row("a|b|c", 1), Some("a|c".to_string()));
}

#[test]
fn delete_last_remaining_row() {
    assert_eq!(remove_user_row("a", 0), None);
}

#[test]
fn delete_past_the_end_keeps_all() {
    assert_eq!(remove_user_row("a|b", 5), Some("a|b".to_string()));
}

#[test]
fn submit_first_model() {
    let vals = vec!["1.5".to_string(), String::new()];
    assert_eq!(submit_model("  new ", &vals, &None), Some("new,1.5,0.0".to_string()));
}

#[test]
fn submit_appends_to_cookie() {
    let vals = vec!["2".to_string()];
    assert_eq!(
        submit_model("m2", &vals, &Some("m1,1".to_string())),
        Some("m1,1|m2,2".to_string())
    );
}

#[test]
fn submit_refuses_blank_name() {
    assert_eq!(submit_model("   ", &vec!["1".to_string()], &Some("x".to_string())), None);
}

#[test]
fn delete_after_submit_restores_cookie() {
    let vals = vec!["1".to_string(), String::new(), "3".to_string()];
    let existing = Some("a,1|b,2".to_string());
    let added = submit_model("c", &vals, &existing).unwrap();
    assert_eq!(remove_user_row(&added, 2), existing);
    let first = submit_model("c", &vals, &None).unwrap();
    assert_eq!(remove_user_row(&first, 0), None);
}

#[test]
fn trimming_matches_std() {
    let fields = [
        " \u{3000}a\u{2009} ",
        "\u{feff}b",
        "\u{180e}c\u{200b}",
        "\u{85}d\u{a0}\u{1680}",
        "\te\u{2028}\u{2029}\u{202f}\u{205f}",
    ];
    let line = fields.join(",");
    let (headers, _) = parse_csv(&line);
    let expected: Vec<String> = fields.iter().map(|f| f.trim().to_string()).collect();
    assert_eq!(texts(&headers), expected);
}

#[test]
fn lines_match_std() {
    let text = "h\r\nfoo\n\nbar\r\n\r\nbaz\r";
    let (_, rows) = parse_csv(text);
    let expected: Vec<String> = text
        .lines()
        .filter(|l| !l.trim().is_empty())
        .skip(1)
        .map(|l| l.trim().to_string())
        .collect();
    let got: Vec<String> = rows.iter().map(|r| r[0].value.clone()).collect();
    assert_eq!(got, expected);
}

#[test]
fn saved_model_shows_as_last_user_row() {
    let backend = "model,m1,m2,m3\nbase,1,2,3\n";
    let vals = vec!["0.5".to_string(), String::new(), " 2 ".to_string()];
    let cookie = submit_model(" mine ", &vals, &Some("old,1,1,1| |".to_string())).unwrap();
    let rows = parse_user_rows(backend, &cookie);
    let last = rows.last().unwrap();
    assert_eq!(texts(last), vec!["mine", "0.5", "0.0", "2"]);
}

#[test]
fn delete_removes_the_shown_row() {
    let backend = "model,a\nbase,1\n";
    let cookie = "u1,1|u2,2|u3,3";
    let before = parse_user_rows(backend, cookie);
    let after_cookie = remove_user_row(cookie, 1).unwrap();
    let after = parse_user_rows(backend, &after_cookie);
    let mut expected: Vec<Vec<String>> = before.iter().map(|r| texts(r)).collect();
    expected.remove(1);
    let got: Vec<Vec<String>> = after.iter().map(|r| texts(r)).collect();
    assert_eq!(got, expected);
}

#[test]
fn delete_removes_a_row_with_surrounding_spaces() {
    let backend = "model,a\nbase,1\n";
    let cookie = " a,1 |b,2|  c , 3 ";
    let before = parse_user_rows(backend, cookie);
    assert_eq!(before.len(), 3);
    let after = parse_user_rows(backend, &remove_user_row(cookie, 0).unwrap());
    let mut expected: Vec<Vec<String>> = before.iter().map(|r| texts(r)).collect();
    expected.remove(0);
    let got: Vec<Vec<String>> = after.iter().map(|r| texts(r)).collect();
    assert_eq!(got, expected);
}
