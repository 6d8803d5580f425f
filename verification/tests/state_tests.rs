use validresult::add_metrics::{empty_metric_values, set_metric_value};
use validresult::agent::{sends_on_key, ChatState};
use validresult::backend::MetricType;
use validresult::chart::{toggle_selection, NodeId, PointShape};
use validresult::sort_button::{next_sort_state, sort_indicator, Sort};

#[test]
fn sort_cycle() {
    assert_eq!(Sort::DESC.cycle(), (Sort::ASC, false));
    assert_eq!(Sort::ASC.cycle(), (Sort::DESC, true));
    assert_eq!(Sort::default(), Sort::DESC);
}

#[test]
fn sort_button_clicks() {
    let s1 = next_sort_state(None, 2);
    assert_eq!(s1, Some((2, Sort::DESC)));
    let s2 = next_sort_state(s1, 2);
    assert_eq!(s2, Some((2, Sort::ASC)));
    assert_eq!(next_sort_state(s2, 2), None);
    assert_eq!(next_sort_state(s2, 3), s2);
}

#[test]
fn sort_arrows() {
    assert_eq!(sort_indicator(Some((1, Sort::ASC)), 1), "▲");
    assert_eq!(sort_indicator(Some((1, Sort::DESC)), 1), "▼");
    assert_eq!(sort_indicator(Some((1, Sort::DESC)), 0), "↕");
    assert_eq!(sort_indicator(None, 0), "↕");
}

#[test]
fn point_selection() {
    let n = NodeId { series: 1, point: 2 };
    let m = NodeId { series: 0, point: 2 };
    assert_eq!(toggle_selection(None, n), Some(n));
    assert_eq!(toggle_selection(Some(n), n), None);
    assert_eq!(toggle_selection(Some(m), n), Some(n));
    assert_ne!(PointShape::Circle, PointShape::Diamond);
}

#[test]
fn chat_send_and_reply() {
    let mut c = ChatState::new();
    c.set_input("   ".to_string());
    assert_eq!(c.send(), None);
    c.toggle_access();
    c.set_input("hello".to_string());
    assert_eq!(c.send(), Some(("hello".to_string(), true)));
    assert_eq!(c.input, "");
    assert!(c.is_loading);
    c.set_input("again".to_string());
    assert_eq!(c.send(), None);
    c.receive("hi".to_string());
    assert!(!c.is_loading);
    assert_eq!(c.messages, vec![(true, "hello".to_string()), (false, "hi".to_string())]);
}

#[test]
fn enter_sends() {
    assert!(sends_on_key("Enter", false));
    assert!(!sends_on_key("Enter", true));
    assert!(!sends_on_key("a", false));
}

#[test]
fn metric_form_values() {
    let mut v = empty_metric_values(MetricType::CV);
    assert_eq!(v, vec![String::new(); 5]);
    assert_eq!(empty_metric_values(MetricType::LLM).len(), 30);
    set_metric_value(&mut v, 1, "2.5".to_string());
    set_metric_value(&mut v, 9, "x".to_string());
    assert_eq!(v[1], "2.5");
    assert_eq!(v.len(), 5);
}

#[test]
fn two_clicks_restore_selection() {
    let n = NodeId { series: 3, point: 0 };
    assert_eq!(toggle_selection(toggle_selection(None, n), n), None);
    assert_eq!(toggle_selection(toggle_selection(Some(n), n), n), Some(n));
}

#[test]
fn three_clicks_unsort() {
    let mut s = None;
    for _ in 0..3 {
        s = next_sort_state(s, 4);
    }
    assert_eq!(s, None);
}
