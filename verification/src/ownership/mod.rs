pub mod history;
pub mod calculator;
