//! Error values of a record-processing application and the messages they
//! display.
pub mod errors;
pub mod records;
