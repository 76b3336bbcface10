use rust_lessons::error_handling::errors::{AppError, AppResult};

#[test]
fn test_error_display() {
    let err = AppError::csv_parse(5, "缺少字段");
    assert_eq!(err.to_message(), "CSV 解析错误（第 5 行）: 缺少字段");
}

#[test]
fn test_validation_error() {
    let err = AppError::validation(3, "age", "年龄必须大于 0");
    assert!(err.to_message().contains("第 3 行"));
    assert!(err.to_message().contains("age"));
}

#[test]
fn test_parse_number_error() {
    let err = AppError::parse_number("abc");
    assert!(err.to_message().contains("abc"));
}

#[test]
fn test_from_io_error() {
    let io_err = std::io::Error::new(std::io::ErrorKind::NotFound, "文件未找到");
    let app_err: AppError = io_err.into();
    assert!(matches!(app_err, AppError::Io(_)));
}

#[test]
fn messages_of_every_variant() {
    assert_eq!(
        AppError::validation(12, "name", "太短").to_message(),
        "数据验证失败（第 12 行，字段 'name'）: 太短"
    );
    assert_eq!(AppError::parse_number("x1").to_message(), "数字解析错误: 'x1' 不是有效的数字");
    assert_eq!(AppError::InvalidFormat("bad".to_string()).to_message(), "文件格式错误: bad");
    assert_eq!(AppError::EmptyFile("a.csv".to_string()).to_message(), "文件为空: a.csv");
    assert_eq!(AppError::csv_parse(0, "m").to_message(), "CSV 解析错误（第 0 行）: m");
    let io: AppError = std::io::Error::new(std::io::ErrorKind::Other, "boom").into();
    assert_eq!(io.to_message(), "IO 错误: boom");
}

#[test]
fn test_error_propagation() {
    fn inner() -> AppResult<()> {
        Err(AppError::parse_number("test"))
    }

    fn outer() -> AppResult<()> {
        inner()?;
        Ok(())
    }

    assert!(outer().is_err());
}

#[test]
fn test_option_to_result() {
    fn find_value(values: &[i32], target: i32) -> AppResult<usize> {
        values
            .iter()
            .position(|&x| x == target)
            .ok_or_else(|| AppError::InvalidFormat("未找到目标值".to_string()))
    }

    let values = vec![1, 2, 3, 4, 5];
    assert!(find_value(&values, 3).is_ok());
    assert!(find_value(&values, 10).is_err());
}
