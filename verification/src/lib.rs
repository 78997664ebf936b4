//! A compact notation for sets of calendar days.
//!
//! A specification names one day (`2025-01-31`), several days separated by
//! commas, or a first and a last day separated by `..` or `:`. In the month and
//! day fields a `?` stands for any one decimal digit. [`parse_datespec`] reads
//! the notation and [`expand_datespec`] lists the days it selects.

pub mod calendar;
pub mod catalog;
pub mod dateset;
pub mod engine;
pub mod grammar;
pub mod pattern;
pub mod size;
pub mod text;
pub mod token;

pub use calendar::CalendarDate;
pub use catalog::HistEntry;
pub use engine::{dates_between, expand_datespec, resolve_range};
pub use grammar::{parse_datespec, DateSpec, SyntaxError};
pub use pattern::{candidates, expand_pattern};
pub use size::to_human;
pub use text::without_blanks;
pub use token::parse_date;
