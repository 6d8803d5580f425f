use validresult::charts_route::{
    detect_separator, group_by_model, parse_csv, pr_csv_readable, PrRow,
};

fn row(model: &str, t: &str, p: Option<&str>, r: Option<&str>, f: Option<&str>) -> PrRow {
    PrRow {
        model: model.to_string(),
        threshold: t.to_string(),
        precision: p.map(|s| s.to_string()),
        recall: r.map(|s| s.to_string()),
        f1: f.map(|s| s.to_string()),
    }
}

#[test]
fn separator_detection() {
    assert_eq!(detect_separator("a;b,c;d\n,,,,"), ';');
    assert_eq!(detect_separator("a,b,c;d"), ',');
    assert_eq!(detect_separator(""), ';');
    assert_eq!(detect_separator("\na,b"), ';');
}

#[test]
fn flat_table() {
    let raw = "Model,Threshold,Precision,Recall,F1_Score\n\
               a,0.1,0.9,0.5,0.6\n\
               b,nan,1,1,1\n\
               ,0.2,1,1,1\n\
               c,x,1,1,1\n\
               d,0.3,1\n\
               e,0.5, p ,r,f\n";
    assert!(pr_csv_readable(raw));
    let rows = parse_csv(raw);
    assert_eq!(
        rows,
        vec![
            row("a", "0.1", Some("0.9"), Some("0.5"), Some("0.6")),
            row("e", "0.5", Some("p"), Some("r"), Some("f")),
        ]
    );
}

#[test]
fn flat_table_default_columns() {
    let raw = "model;x;y;z;w\nm;0.5;1;2;3\n";
    let rows = parse_csv(raw);
    assert_eq!(rows, vec![row("m", "0.5", Some("1"), Some("2"), Some("3"))]);
}

#[test]
fn flat_table_that_would_index_past_a_line() {
    let raw = "threshold,precision,recall,f1,model\n0.5,1,1,1\n";
    assert!(!pr_csv_readable(raw));
}

#[test]
fn wide_table() {
    let raw = "threshold,zeta_precision,alpha_recall,alpha_precision,zeta_f1,alpha_f1_score,plain\n\
               0.1,1,2,3,4,5,6\n\
               bad,1,2,3,4,5,6\n\
               0.2,7\n";
    assert!(pr_csv_readable(raw));
    let rows = parse_csv(raw);
    assert_eq!(
        rows,
        vec![
            // the last `_` splits `alpha_f1_score` into model `alpha_f1` and metric `score`
            row("alpha", "0.1", Some("3"), Some("2"), None),
            row("alpha_f1", "0.1", None, None, None),
            row("zeta", "0.1", Some("1"), None, Some("4")),
            row("alpha", "0.2", None, None, None),
            row("alpha_f1", "0.2", None, None, None),
            row("zeta", "0.2", Some("7"), None, None),
        ]
    );
}

#[test]
fn wide_table_later_column_wins() {
    let raw = "t,m_precision,m_precision\n1,2,3\n";
    let rows = parse_csv(raw);
    // no column named threshold: the first column holds the thresholds
    assert_eq!(rows, vec![row("m", "1", Some("3"), None, None)]);
}

#[test]
fn empty_table() {
    assert!(parse_csv("").is_empty());
    assert!(parse_csv("\u{feff}\n").is_empty());
}

#[test]
fn grouping_by_model() {
    let rows = vec![
        row("b", "0.2", None, None, None),
        row("a", "0.1", None, None, None),
        row("b", "0.1", None, None, None),
    ];
    let groups = group_by_model(&rows);
    assert_eq!(groups.len(), 2);
    assert_eq!(groups[0].0, "a");
    assert_eq!(groups[0].1, vec![row("a", "0.1", None, None, None)]);
    assert_eq!(groups[1].0, "b");
    assert_eq!(
        groups[1].1,
        vec![row("b", "0.2", None, None, None), row("b", "0.1", None, None, None)]
    );
}

#[test]
fn thresholds_parse_as_numbers() {
    let raw = "threshold,m_precision\n1e-1,1\nNaN,2\ninf,3\n";
    for r in parse_csv(raw) {
        let t: f64 = r.threshold.parse().unwrap();
        assert!(!t.is_nan());
    }
}
