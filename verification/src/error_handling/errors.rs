//! The application's error type.
use vstd::prelude::*;
use crate::text;
use crate::text::decimal;
use vstd::std_specs::convert::FromSpecImpl;

verus! {

#[verifier::external_type_specification]
#[verifier::external_body]
pub struct ExIoError(std::io::Error);

/// What can go wrong while reading, parsing and checking records.
#[derive(Debug)]
pub enum AppError {
    /// Reading or writing a file failed.
    Io(std::io::Error),
    /// A CSV line could not be parsed.
    CsvParse { line: usize, message: String },
    /// A field of a record failed a check.
    Validation { line: usize, field: String, message: String },
    /// The input is not in the expected format.
    InvalidFormat(String),
    /// A text is not a number.
    ParseNumber { value: String },
    /// The input is empty.
    EmptyFile(String),
}

/// A result whose error is an [`AppError`].
pub type AppResult<T> = Result<T, AppError>;

/// The message that an error other than an I/O error displays.
pub open spec fn message_of(e: AppError) -> Seq<char> {
    match e {
        AppError::Io(_) => "IO 错误: "@,
        AppError::CsvParse { line, message } => "CSV 解析错误（第 "@ + decimal(line as nat) + " 行）: "@
            + message@,
        AppError::Validation { line, field, message } => "数据验证失败（第 "@ + decimal(line as nat)
            + " 行，字段 '"@ + field@ + "'）: "@ + message@,
        AppError::InvalidFormat(s) => "文件格式错误: "@ + s@,
        AppError::ParseNumber { value } => "数字解析错误: '"@ + value@ + "' 不是有效的数字"@,
        AppError::EmptyFile(s) => "文件为空: "@ + s@,
    }
}

impl AppError {
    /// A CSV parse error at `line`.
    pub fn csv_parse(line: usize, message: &str) -> (e: Self)
        ensures
            e matches AppError::CsvParse { line: l, message: m } && l == line && m@ == message@,
    {
        AppError::CsvParse { line, message: message.to_owned() }
    }

    /// A failed check of `field` at `line`.
    pub fn validation(line: usize, field: &str, message: &str) -> (e: Self)
        ensures
            e matches AppError::Validation { line: l, field: f, message: m } && l == line && f@
                == field@ && m@ == message@,
    {
        AppError::Validation { line, field: field.to_owned(), message: message.to_owned() }
    }

    /// `value` is not a number.
    pub fn parse_number(value: &str) -> (e: Self)
        ensures
            e matches AppError::ParseNumber { value: v } && v@ == value@,
    {
        AppError::ParseNumber { value: value.to_owned() }
    }

    /// The message the error displays. For an I/O error it is the prefix
    /// followed by the I/O error's own message.
    pub fn to_message(&self) -> (r: String)
        ensures
            !(*self is Io) ==> r@ == message_of(*self),
            *self is Io ==> r@.len() >= message_of(*self).len() && r@.subrange(
                0,
                message_of(*self).len() as int,
            ) == message_of(*self),
    {
        let mut s = String::new();
        match self {
            AppError::Io(e) => {
                text::push_str(&mut s, "IO 错误: ");
                let t = io_error_text(e);
                let ghost p = s@;
                text::push_str(&mut s, t.as_str());
                assert(s@.subrange(0, p.len() as int) =~= p);
            },
            AppError::CsvParse { line, message } => {
                text::push_str(&mut s, "CSV 解析错误（第 ");
                text::push_decimal(&mut s, *line as u64);
                text::push_str(&mut s, " 行）: ");
                text::push_str(&mut s, message.as_str());
            },
            AppError::Validation { line, field, message } => {
                text::push_str(&mut s, "数据验证失败（第 ");
                text::push_decimal(&mut s, *line as u64);
                text::push_str(&mut s, " 行，字段 '");
                text::push_str(&mut s, field.as_str());
                text::push_str(&mut s, "'）: ");
                text::push_str(&mut s, message.as_str());
            },
            AppError::InvalidFormat(t) => {
                text::push_str(&mut s, "文件格式错误: ");
                text::push_str(&mut s, t.as_str());
            },
            AppError::ParseNumber { value } => {
                text::push_str(&mut s, "数字解析错误: '");
                text::push_str(&mut s, value.as_str());
                text::push_str(&mut s, "' 不是有效的数字");
            },
            AppError::EmptyFile(t) => {
                text::push_str(&mut s, "文件为空: ");
                text::push_str(&mut s, t.as_str());
            },
        }
        s
    }
}

impl From<std::io::Error> for AppError {
    fn from(e: std::io::Error) -> (r: Self) {
        AppError::Io(e)
    }
}

impl FromSpecImpl<std::io::Error> for AppError {
    open spec fn obeys_from_spec() -> bool {
        true
    }

    open spec fn from_spec(e: std::io::Error) -> Self {
        AppError::Io(e)
    }
}

/// Calls the `Display` of `std::io::Error`. Nothing is claimed of the text.
#[verifier::external_body]
fn io_error_text(e: &std::io::Error) -> (r: String) {
    e.to_string()
}

} // verus!
