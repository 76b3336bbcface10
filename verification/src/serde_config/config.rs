//! Configuration and API data types.
use vstd::prelude::*;

verus! {

/// The whole application configuration.
#[derive(Debug, Clone, PartialEq)]
pub struct AppConfig {
    pub server: ServerConfig,
    pub database: DatabaseConfig,
    pub logging: LoggingConfig,
}

/// Where and how the server listens.
#[derive(Debug, Clone, PartialEq)]
pub struct ServerConfig {
    pub host: String,
    pub port: u16,
    pub workers: usize,
    pub max_connections: u32,
}

/// The number of worker threads when a configuration names none.
pub const DEFAULT_WORKERS: usize = 4;

/// The database connection.
#[derive(Debug, Clone, PartialEq)]
pub struct DatabaseConfig {
    pub url: String,
    pub pool_size: u32,
    pub password: Option<String>,
}

/// What is logged and where.
#[derive(Debug, Clone, PartialEq)]
pub struct LoggingConfig {
    pub level: LogLevel,
    pub output: LogOutput,
}

/// How much is logged.
#[derive(Debug, Clone, PartialEq)]
pub enum LogLevel {
    Debug,
    Info,
    Warn,
    Error,
}

/// Where log lines go.
#[derive(Debug, Clone, PartialEq)]
pub enum LogOutput {
    Console,
    File(String),
}

/// A user account.
#[derive(Debug, Clone, PartialEq)]
pub struct User {
    pub id: u32,
    pub name: String,
    pub email: String,
    pub password_hash: String,
    pub active: bool,
}

impl User {
    /// An active user with no password hash yet.
    pub fn new(id: u32, name: String, email: String) -> (u: Self)
        ensures
            u.id == id,
            u.name@ == name@,
            u.email@ == email@,
            u.password_hash@ == Seq::<char>::empty(),
            u.active,
    {
        User { id, name, email, password_hash: String::new(), active: true }
    }
}

/// The answer of an API call: data on success, a message on failure.
#[derive(Debug, PartialEq)]
pub struct ApiResponse<T> {
    pub success: bool,
    pub data: Option<T>,
    pub error: Option<String>,
}

impl<T> ApiResponse<T> {
    /// A successful answer carrying `data`.
    pub fn success(data: T) -> (r: Self)
        ensures
            r.success,
            r.data == Some(data),
            r.error is None,
    {
        ApiResponse { success: true, data: Some(data), error: None }
    }

    /// A failed answer carrying `message`.
    pub fn error(message: String) -> (r: Self)
        ensures
            !r.success,
            r.data is None,
            r.error is Some && r.error->0@ == message@,
    {
        ApiResponse { success: false, data: None, error: Some(message) }
    }
}

} // verus!
