use rust_lessons::ownership::calculator::{Calculator, Operator};
use rust_lessons::ownership::history::History;

#[test]
fn test_new_history_is_empty() {
    let history = History::new();
    assert!(history.is_empty());
    assert_eq!(history.len(), 0);
}

#[test]
fn test_add_record() {
    let mut history = History::new();
    history.add("5 + 3 = 8".to_string());

    assert!(!history.is_empty());
    assert_eq!(history.len(), 1);
}

#[test]
fn test_multiple_records() {
    let mut history = History::new();
    history.add("5 + 3 = 8".to_string());
    history.add("10 * 2 = 20".to_string());
    history.add("15 - 7 = 8".to_string());

    assert_eq!(history.len(), 3);
}

#[test]
fn test_get_record() {
    let mut history = History::new();
    history.add("5 + 3 = 8".to_string());
    history.add("10 * 2 = 20".to_string());

    assert_eq!(history.get(0), Some(&"5 + 3 = 8".to_string()));
    assert_eq!(history.get(1), Some(&"10 * 2 = 20".to_string()));
    assert_eq!(history.get(2), None);
}

#[test]
fn test_last_record() {
    let mut history = History::new();
    assert_eq!(history.last(), None);

    history.add("5 + 3 = 8".to_string());
    assert_eq!(history.last(), Some(&"5 + 3 = 8".to_string()));

    history.add("10 * 2 = 20".to_string());
    assert_eq!(history.last(), Some(&"10 * 2 = 20".to_string()));
}

#[test]
fn test_clear() {
    let mut history = History::new();
    history.add("5 + 3 = 8".to_string());
    history.add("10 * 2 = 20".to_string());

    assert_eq!(history.len(), 2);

    history.clear();

    assert!(history.is_empty());
    assert_eq!(history.len(), 0);
}

#[test]
fn test_iter() {
    let mut history = History::new();
    history.add("5 + 3 = 8".to_string());
    history.add("10 * 2 = 20".to_string());

    let records: Vec<&String> = history.iter().collect();
    assert_eq!(records.len(), 2);
    assert_eq!(records[0], "5 + 3 = 8");
    assert_eq!(records[1], "10 * 2 = 20");
}

#[test]
fn test_ownership_transfer() {
    let mut history = History::new();
    let record = String::from("5 + 3 = 8");
    history.add(record);
    assert_eq!(history.get(0), Some(&"5 + 3 = 8".to_string()));
}

#[test]
fn test_history_default_is_empty() {
    let history = History::default();
    assert!(history.is_empty());
}

#[test]
fn calculator_history_records_and_clears() {
    let mut calc = Calculator::new();
    calc.record("5 + 3 = 8".to_string());
    calc.record("10 * 2 = 20".to_string());
    assert_eq!(calc.history().len(), 2);
    calc.clear_history();
    assert!(calc.history().is_empty());
}

#[test]
fn calculator_input_checks() {
    assert_eq!(Calculator::split_input(" 5  +   3 ").unwrap(), vec!["5", "+", "3"]);
    assert_eq!(
        Calculator::split_input("5 +").unwrap_err(),
        "格式错误！请使用：<数字> <运算符> <数字>"
    );
    assert_eq!(Operator::parse("/").unwrap(), Operator::Div);
    assert_eq!(Operator::parse("-").unwrap(), Operator::Sub);
    assert_eq!(Operator::parse("%").unwrap_err(), "不支持的运算符: %");
}
