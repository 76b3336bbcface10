use rust_lessons::error_handling::errors::AppError;
use rust_lessons::text::trim_text;
use rust_lessons::error_handling::records::{
    check_fields, data_lines, parse_u32, split_record,
};

const VALID_CSV: &str = "name,age,email,score
Alice,30,alice@example.com,95.5
Bob,25,bob@example.com,87.0
Carol,35,carol@example.com,92.3";

/// The records of CSV text as the library reads them, with the score's text
/// parsed as a float.
fn read_all(content: &str) -> Result<Vec<(String, u32, String, f64)>, AppError> {
    let mut out = Vec::new();
    for (n, line) in data_lines(content)? {
        let (name, age, email, score_text) = split_record(n, &line)?;
        let score = score_text
            .parse::<f64>()
            .map_err(|_| AppError::parse_number(&score_text))?;
        out.push((name, age, email, score));
    }
    Ok(out)
}

#[test]
fn test_parse_valid_csv() {
    let records = read_all(VALID_CSV).unwrap();
    assert_eq!(records.len(), 3);
    assert_eq!(records[0].0, "Alice");
    assert_eq!(records[0].1, 30);
    assert_eq!(records[0].3, 95.5);
}

#[test]
fn test_parse_empty_csv() {
    let result = data_lines("");
    assert!(result.is_err());
    assert!(matches!(result.unwrap_err(), AppError::EmptyFile(_)));
}

#[test]
fn test_parse_invalid_age() {
    let csv = "name,age,email,score\nAlice,abc,alice@example.com,95.5";
    let result = read_all(csv);
    assert!(result.is_err());
    assert!(matches!(result.unwrap_err(), AppError::ParseNumber { .. }));
}

#[test]
fn test_parse_missing_fields() {
    let csv = "name,age,email,score\nAlice,30";
    let result = read_all(csv);
    assert!(result.is_err());
    assert!(matches!(result.unwrap_err(), AppError::CsvParse { .. }));
}

#[test]
fn test_parse_and_validate() {
    let csv = "name,age,email,score
Alice,30,alice@example.com,95.5
Bob,25,bob@example.com,87.0";
    let records = read_all(csv).unwrap();
    for (i, (name, age, email, _)) in records.iter().enumerate() {
        assert!(check_fields(name, *age, email, i + 2).is_ok());
    }
    assert_eq!(records.len(), 2);
}

#[test]
fn data_lines_number_and_skip_blank_lines() {
    let lines = data_lines("h\r\na\n   \n\nb").unwrap();
    assert_eq!(lines, vec![(2, "a".to_string()), (5, "b".to_string())]);
    assert_eq!(data_lines("only header").unwrap(), Vec::<(usize, String)>::new());
}

#[test]
fn split_record_trims_fields_and_keeps_score_text() {
    let (name, age, email, score) = split_record(7, "  Ann ,\t42, a@b.c , 9x ").unwrap();
    assert_eq!(name, "Ann");
    assert_eq!(age, 42);
    assert_eq!(email, "a@b.c");
    assert_eq!(score, "9x");
}

#[test]
fn split_record_errors() {
    match split_record(4, "a,b,c") {
        Err(AppError::CsvParse { line, message }) => {
            assert_eq!(line, 4);
            assert_eq!(message, "期望 4 个字段，实际 3 个");
        }
        _ => panic!("expected a CSV parse error"),
    }
    match split_record(9, "a,1,b,c,d,e,f,g,h,i,j,k") {
        Err(AppError::CsvParse { message, .. }) => {
            assert_eq!(message, "期望 4 个字段，实际 12 个")
        }
        _ => panic!("expected a CSV parse error"),
    }
    match split_record(2, "  ,30,x@y,1") {
        Err(AppError::CsvParse { line, message }) => {
            assert_eq!(line, 2);
            assert_eq!(message, "姓名不能为空");
        }
        _ => panic!("expected a CSV parse error"),
    }
    match split_record(3, "Al, -5 ,x@y,1") {
        Err(AppError::ParseNumber { value }) => assert_eq!(value, "-5"),
        _ => panic!("expected a number error"),
    }
}

#[test]
fn check_fields_reports_the_first_broken_rule() {
    assert!(check_fields("Alice", 30, "alice@example.com", 1).is_ok());
    let long_name = "n".repeat(51);
    let cases: Vec<(&str, u32, &str, &str, String)> = vec![
        ("", 15, "x", "name", "姓名不能为空".to_string()),
        ("A", 15, "x", "name", "姓名长度必须在 2-50 之间".to_string()),
        (&long_name, 30, "x", "name", "姓名长度必须在 2-50 之间".to_string()),
        ("Al", 17, "x", "age", "年龄必须在 18-100 之间，实际值: 17".to_string()),
        ("Al", 101, "x", "age", "年龄必须在 18-100 之间，实际值: 101".to_string()),
        ("Al", 18, "invalid-email", "email", "邮箱格式无效，必须包含 @".to_string()),
    ];
    for (name, age, email, want_field, want_message) in cases {
        match check_fields(name, age, email, 6) {
            Err(AppError::Validation { line, field, message }) => {
                assert_eq!(line, 6);
                assert_eq!(field, want_field);
                assert_eq!(message, want_message);
            }
            _ => panic!("expected a validation error"),
        }
    }
    // Two characters of two bytes each are four bytes: long enough.
    assert!(check_fields("éé", 100, "@", 1).is_ok());
    assert!(check_fields(&"n".repeat(50), 18, "a@", 1).is_ok());
}

#[test]
fn trim_and_parse_u32() {
    assert_eq!(trim_text(" \t a b \n"), "a b");
    assert_eq!(trim_text("   "), "");
    assert_eq!(trim_text("\u{3000}x\u{3000}"), "x");
    assert_eq!(parse_u32("0"), Some(0));
    assert_eq!(parse_u32("+17"), Some(17));
    assert_eq!(parse_u32("007"), Some(7));
    assert_eq!(parse_u32("4294967295"), Some(u32::MAX));
    assert_eq!(parse_u32("4294967296"), None);
    assert_eq!(parse_u32("99999999999999999999"), None);
    assert_eq!(parse_u32(""), None);
    assert_eq!(parse_u32("+"), None);
    assert_eq!(parse_u32("-1"), None);
    assert_eq!(parse_u32("1 2"), None);
    assert_eq!(parse_u32("abc"), None);
    for s in ["0", "12", "+3", "-0", "4294967295", "4294967296", "", "x", "１"] {
        assert_eq!(parse_u32(s), s.parse::<u32>().ok());
        assert_eq!(trim_text(s), s.trim());
    }
}
