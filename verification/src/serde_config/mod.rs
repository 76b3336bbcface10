//! Application configuration: its data types, the choice of file format
//! by extension, and the checks a configuration must pass. Reading and
//! writing the formats themselves is done by the serde crates outside the
//! verified library.
pub mod config;
pub mod parser;
pub mod validator;
