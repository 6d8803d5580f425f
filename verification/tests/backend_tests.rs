use validresult::backend::{chat_url, cookie_name, metrics_url, MetricType};

#[test]
fn from_str_reads_both_names() {
    assert_eq!(MetricType::from_str("LLM"), MetricType::LLM);
    assert_eq!(MetricType::from_str("CV"), MetricType::CV);
}

#[test]
fn name_round_trip() {
    for t in MetricType::ALL {
        assert_eq!(MetricType::from_str(t.to_string().as_str()), t);
    }
    assert_eq!(MetricType::LLM.to_string(), "LLM");
    assert_eq!(MetricType::CV.to_string(), "CV");
}

#[test]
fn all_types_in_selector_order() {
    assert_eq!(MetricType::ALL, [MetricType::LLM, MetricType::CV]);
}

#[test]
fn label_counts_and_ends() {
    let llm = MetricType::LLM.metric_labels();
    assert_eq!(llm.len(), 30);
    assert_eq!(llm[0], "Средняя задержка");
    assert_eq!(llm[29], "Обратная связь");
    let cv = MetricType::CV.metric_labels();
    assert_eq!(cv.len(), 5);
    assert_eq!(cv[0], "Точность на цели");
    assert_eq!(cv[4], "Скорость инференса");
}

#[test]
fn request_type_is_lowercase_name() {
    assert_eq!(MetricType::LLM.request_type(), "llm");
    assert_eq!(MetricType::CV.request_type(), "cv");
}

#[test]
fn metrics_address() {
    assert_eq!(metrics_url(MetricType::LLM), "https://oheaven.ru/metrics?request_type=llm");
    assert_eq!(metrics_url(MetricType::CV), "https://oheaven.ru/metrics?request_type=cv");
}

#[test]
fn chat_address_without_session() {
    assert_eq!(
        chat_url(true, MetricType::LLM, &None),
        "https://oheaven.ru/chat?is_embed=true&request_type=llm"
    );
    assert_eq!(
        chat_url(false, MetricType::CV, &None),
        "https://oheaven.ru/chat?is_embed=false&request_type=cv"
    );
}

#[test]
fn chat_address_with_session() {
    assert_eq!(
        chat_url(false, MetricType::LLM, &Some("abc123".to_string())),
        "https://oheaven.ru/chat?is_embed=false&request_type=llm&session_id=abc123"
    );
}

#[test]
fn chat_address_ignores_empty_session() {
    assert_eq!(
        chat_url(true, MetricType::CV, &Some(String::new())),
        chat_url(true, MetricType::CV, &None)
    );
}

#[test]
fn cookie_names() {
    assert_eq!(cookie_name(MetricType::LLM), "user_models_LLM");
    assert_eq!(cookie_name(MetricType::CV), "user_models_CV");
}
