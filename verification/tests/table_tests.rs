use validresult::table::{
    combine_entries, filter_decimal_input, trim_fraction_zeros, with_score_column, CellAlign,
    CellData, RowEntry,
};

#[test]
fn cell_builders() {
    let c = CellData::new("x");
    assert_eq!(c, CellData { value: "x".to_string(), bold: false, align: CellAlign::Left });
    let c = c.bold().center();
    assert!(c.bold);
    assert_eq!(c.align, CellAlign::Center);
    assert_eq!(c.clone().right().align, CellAlign::Right);
    assert_eq!(c.right().left().align, CellAlign::Left);
    assert_eq!(CellAlign::default(), CellAlign::Left);
}

#[test]
fn score_column_added() {
    let h = with_score_column(vec![CellData::new("model")]);
    assert_eq!(h.len(), 2);
    assert_eq!(h[1], CellData::new("Оценка").bold());
}

#[test]
fn entries_backend_then_user() {
    let rows = vec![vec![CellData::new("a")], vec![CellData::new("b")]];
    let users = vec![vec![CellData::new("u")]];
    let e = combine_entries(rows, users);
    assert_eq!(
        e,
        vec![
            RowEntry { cells: vec![CellData::new("a")], is_user: false, user_idx: 0 },
            RowEntry { cells: vec![CellData::new("b")], is_user: false, user_idx: 0 },
            RowEntry { cells: vec![CellData::new("u")], is_user: true, user_idx: 0 },
        ]
    );
}

#[test]
fn decimal_input_filter() {
    assert_eq!(filter_decimal_input("1a.2.3"), "1.23");
    assert_eq!(filter_decimal_input("abc"), "");
    assert_eq!(filter_decimal_input("..5"), ".5");
    assert_eq!(filter_decimal_input("٣4"), "4");
}

#[test]
fn fraction_zeros_trimmed() {
    assert_eq!(trim_fraction_zeros("0.50"), "0.5");
    assert_eq!(trim_fraction_zeros("1.00"), "1");
    assert_eq!(trim_fraction_zeros("0.25"), "0.25");
    assert_eq!(trim_fraction_zeros("0.00"), "0");
}

#[test]
fn decimal_filter_twice_is_once() {
    for raw in ["1a.2.3", "..", "x9.9.9", "", "3.14"] {
        let once = filter_decimal_input(raw);
        assert_eq!(filter_decimal_input(&once), once);
        assert!(once.chars().filter(|c| *c == '.').count() <= 1);
    }
}
