use rust_lessons::serde_config::config::{
    ApiResponse, AppConfig, DatabaseConfig, LogLevel, LogOutput, LoggingConfig, ServerConfig, User,
};
use rust_lessons::serde_config::parser::{ConfigFormat, ConfigParser};
use rust_lessons::serde_config::validator::{ConfigValidator, ValidationError};

fn create_valid_config() -> AppConfig {
    AppConfig {
        server: ServerConfig {
            host: "localhost".to_string(),
            port: 8080,
            workers: 4,
            max_connections: 1000,
        },
        database: DatabaseConfig {
            url: "postgres://localhost/mydb".to_string(),
            pool_size: 10,
            password: None,
        },
        logging: LoggingConfig { level: LogLevel::Info, output: LogOutput::Console },
    }
}

fn create_sample_config() -> AppConfig {
    AppConfig {
        server: ServerConfig {
            host: "0.0.0.0".to_string(),
            port: 8080,
            workers: 4,
            max_connections: 1000,
        },
        database: DatabaseConfig {
            url: "postgres://localhost/mydb".to_string(),
            pool_size: 10,
            password: None,
        },
        logging: LoggingConfig { level: LogLevel::Info, output: LogOutput::Console },
    }
}

#[test]
fn test_validation() {
    let config = create_sample_config();
    assert!(ConfigValidator::validate(&config).is_ok());
}

#[test]
fn main_test_api_response() {
    let response: ApiResponse<i32> = ApiResponse::success(42);
    assert!(response.success);
    assert_eq!(response.data, Some(42));
}

#[test]
fn api_response_error_carries_message() {
    let response: ApiResponse<String> = ApiResponse::error("Not found".to_string());
    assert!(!response.success);
    assert_eq!(response.data, None);
    assert_eq!(response.error, Some("Not found".to_string()));
}

#[test]
fn user_new_is_active_without_hash() {
    let user = User::new(1, "Alice".to_string(), "alice@example.com".to_string());
    assert_eq!(user.id, 1);
    assert_eq!(user.name, "Alice");
    assert_eq!(user.email, "alice@example.com");
    assert!(user.password_hash.is_empty());
    assert!(user.active);
}

#[test]
fn test_detect_format() {
    assert!(matches!(ConfigParser::detect_format("config.json"), Ok(ConfigFormat::Json)));
    assert!(matches!(ConfigParser::detect_format("config.toml"), Ok(ConfigFormat::Toml)));
    assert!(matches!(ConfigParser::detect_format("config.yaml"), Ok(ConfigFormat::Yaml)));
    assert!(ConfigParser::detect_format("config.txt").is_err());
}

#[test]
fn detect_format_edge_cases() {
    assert!(matches!(ConfigParser::detect_format("a.yml"), Ok(ConfigFormat::Yaml)));
    assert!(matches!(ConfigParser::detect_format(".json"), Ok(ConfigFormat::Json)));
    assert_eq!(ConfigParser::detect_format("json").unwrap_err(), "无法识别的文件格式");
    assert!(ConfigParser::detect_format("config.JSON").is_err());
}

#[test]
fn test_valid_config() {
    let config = create_valid_config();
    assert!(ConfigValidator::validate(&config).is_ok());
}

#[test]
fn test_invalid_host() {
    let mut config = create_valid_config();
    config.server.host = String::new();

    let result = ConfigValidator::validate(&config);
    assert!(result.is_err());

    let errors = result.unwrap_err();
    assert!(errors.iter().any(|e| e.field == "server.host"));
}

#[test]
fn test_invalid_port() {
    let mut config = create_valid_config();
    config.server.port = 0;

    let result = ConfigValidator::validate(&config);
    assert!(result.is_err());
}

#[test]
fn test_invalid_workers() {
    let mut config = create_valid_config();
    config.server.workers = 0;

    let result = ConfigValidator::validate(&config);
    assert!(result.is_err());
}

#[test]
fn test_invalid_database_url() {
    let mut config = create_valid_config();
    config.database.url = String::new();

    let result = ConfigValidator::validate(&config);
    assert!(result.is_err());

    let errors = result.unwrap_err();
    assert!(errors.iter().any(|e| e.field == "database.url"));
}

#[test]
fn test_pool_size_warning() {
    let mut config = create_valid_config();
    config.database.pool_size = 150;

    let result = ConfigValidator::validate(&config);
    assert!(result.is_err());

    let errors = result.unwrap_err();
    assert!(errors.iter().any(|e| e.field == "database.pool_size"));
}

#[test]
fn test_multiple_errors() {
    let mut config = create_valid_config();
    config.server.host = String::new();
    config.server.port = 0;
    config.database.url = String::new();

    let result = ConfigValidator::validate(&config);
    assert!(result.is_err());

    let errors = result.unwrap_err();
    assert!(errors.len() >= 3);
}

#[test]
fn validation_errors_come_in_check_order() {
    let mut config = create_valid_config();
    config.server.max_connections = 0;
    config.server.workers = 0;
    config.database.pool_size = 101;
    let errors = ConfigValidator::validate(&config).unwrap_err();
    let fields: Vec<&str> = errors.iter().map(|e| e.field.as_str()).collect();
    assert_eq!(fields, vec!["server.workers", "server.max_connections", "database.pool_size"]);
    assert_eq!(errors[0].message, "工作线程数必须大于 0");
    config.database.pool_size = 100;
    assert_eq!(ConfigValidator::validate_database(&config.database), Ok(()));
}

#[test]
fn validation_error_new_keeps_texts() {
    let e = ValidationError::new("f", "m");
    assert_eq!(e.field, "f");
    assert_eq!(e.message, "m");
}
