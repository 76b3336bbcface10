//! Choosing a configuration format by file extension.
use vstd::prelude::*;
use crate::text;
use crate::text::ends_with;

verus! {

/// A configuration file format.
#[derive(Debug, Clone, Copy, PartialEq, Eq, Structural)]
pub enum ConfigFormat {
    Json,
    Toml,
    Yaml,
}

/// The message for a path whose extension names no known format.
pub open spec fn unknown_format_message() -> Seq<char> {
    "无法识别的文件格式"@
}

/// The format that `path`'s extension names, if any: `.json`, `.toml`,
/// then `.yaml` or `.yml`, tried in that order.
pub open spec fn format_of(path: Seq<char>) -> Option<ConfigFormat> {
    if ends_with(path, ".json"@) {
        Some(ConfigFormat::Json)
    } else if ends_with(path, ".toml"@) {
        Some(ConfigFormat::Toml)
    } else if ends_with(path, ".yaml"@) || ends_with(path, ".yml"@) {
        Some(ConfigFormat::Yaml)
    } else {
        None
    }
}

/// Reading and writing configurations.
pub struct ConfigParser;

impl ConfigParser {
    /// The format of the file at `path`, by its extension; an error message
    /// when the extension is none of the known ones.
    pub fn detect_format(path: &str) -> (r: Result<ConfigFormat, String>)
        ensures
            match format_of(path@) {
                Some(f) => r == Ok::<ConfigFormat, String>(f),
                None => r is Err && r->Err_0@ == unknown_format_message(),
            },
    {
        if text::str_ends_with(path, ".json") {
            Ok(ConfigFormat::Json)
        } else if text::str_ends_with(path, ".toml") {
            Ok(ConfigFormat::Toml)
        } else if text::str_ends_with(path, ".yaml") || text::str_ends_with(path, ".yml") {
            Ok(ConfigFormat::Yaml)
        } else {
            Err("无法识别的文件格式".to_owned())
        }
    }
}

} // verus!
