//! Weekly schedule grids: a parser from tabular text to class records, and a
//! generator that lays those records out on a grid of cycle days by periods.
pub mod types;
pub mod text;
pub mod path;
pub mod parser;

pub use types::{Class, Day, Msg, Semester, ScheduleInfo};
pub use path::generate_path;
pub use parser::{get_schedule, ParseError, ParseErrorKind};
