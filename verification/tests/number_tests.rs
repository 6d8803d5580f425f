use validresult::number::is_float_str;

#[test]
fn accepted_texts_match_std() {
    let cases = [
        "1", "1.", ".5", "1.5", "-1e5", "1E+3", "+2.5e-3", "inf", "-Infinity", "NaN", "nan",
        "INF", "007", "", ".", "e5", "1e", " 1", "1 ", "1.2.3", "+", "-", "0x10", "1e+", "..1",
        "1..", "infinit", "nana", "+-1", "1_000", "١",
    ];
    for c in cases {
        assert_eq!(is_float_str(c), c.parse::<f64>().is_ok(), "case {:?}", c);
    }
}

#[test]
fn plain_numbers() {
    assert!(is_float_str("0.75"));
    assert!(!is_float_str("N/A"));
}
