use validresult::bench_hist::parse_benchmark_csv;

#[test]
fn benchmark_rows_with_bom_and_semicolons() {
    let raw = "\u{feff}model;MMLU_Pro;GPQA Diamond;SWE_bench_Verified;LiveCodeBench;AIME_2025\n\
               alpha;80.1;N/A;50;;x\n\
               ;1;2;3;4;5\n\
               beta; 70 ;60.5;40;30;20\n";
    let rows = parse_benchmark_csv(raw);
    assert_eq!(rows.len(), 2);
    assert_eq!(rows[0].model, "alpha");
    assert_eq!(
        rows[0].scores,
        vec![Some("80.1".to_string()), None, Some("50".to_string()), None, None]
    );
    assert_eq!(rows[1].model, "beta");
    assert_eq!(
        rows[1].scores,
        vec![
            Some("70".to_string()),
            Some("60.5".to_string()),
            Some("40".to_string()),
            Some("30".to_string()),
            Some("20".to_string())
        ]
    );
}

#[test]
fn benchmark_commas_and_model_id() {
    let raw = "model_id,aime 2025,mmlu-pro\nm1,1,2\n";
    let rows = parse_benchmark_csv(raw);
    assert_eq!(rows.len(), 1);
    assert_eq!(rows[0].model, "m1");
    assert_eq!(rows[0].scores, vec![Some("2".to_string()), None, None, None, Some("1".to_string())]);
}

#[test]
fn benchmark_without_model_column_has_no_rows() {
    assert!(parse_benchmark_csv("name,MMLU_Pro\nx,1\n").is_empty());
}

#[test]
fn benchmark_of_empty_text() {
    assert!(parse_benchmark_csv("").is_empty());
    assert!(parse_benchmark_csv("\n \n").is_empty());
}

#[test]
fn benchmark_short_line() {
    let rows = parse_benchmark_csv("MMLU_Pro,model\n5\n7,m\n");
    assert_eq!(rows.len(), 1);
    assert_eq!(rows[0].model, "m");
    assert_eq!(rows[0].scores[0], Some("7".to_string()));
}
