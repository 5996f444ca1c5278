use vstd::prelude::*;

verus! {

/// Messages of the input form that drives the pipeline.
#[derive(Clone, Copy, Debug, PartialEq, Eq, Structural)]
pub enum Msg {
    Increment,
    Decrement,
}

/// Which half of the year a class belongs to.
#[derive(Clone, Copy, Debug, PartialEq, Eq, Structural, Hash)]
pub enum Semester {
    S1,
    S2,
}

/// A day of the rotating four-day cycle; `I` stands for every cycle day.
#[derive(Clone, Copy, Debug, PartialEq, Eq, Structural, Hash)]
pub enum Day {
    A,
    B,
    C,
    D,
    I,
}

/// One scheduled class.
#[derive(Clone, Debug)]
pub struct Class {
    pub days: Vec<Day>,
    pub mods: Vec<u8>,
    pub semester: Semester,
    pub short_name: String,
    pub long_name: String,
    pub teacher: String,
    pub room: String,
    pub start: String,
    pub end: String,
}

/// Column-oriented staging of the raw text fields, one entry per class.
#[derive(Clone, Debug)]
pub struct ScheduleInfo {
    pub mods: Vec<String>,
    pub semester: Vec<String>,
    pub short_name: Vec<String>,
    pub long_name: Vec<String>,
    pub teacher: Vec<String>,
    pub room: Vec<String>,
    pub start: Vec<String>,
    pub end: Vec<String>,
}

impl ScheduleInfo {
    /// Every field holds one entry per class.
    pub open spec fn wf(&self) -> bool {
        let n = self.mods@.len();
        &&& self.semester@.len() == n
        &&& self.short_name@.len() == n
        &&& self.long_name@.len() == n
        &&& self.teacher@.len() == n
        &&& self.room@.len() == n
        &&& self.start@.len() == n
        &&& self.end@.len() == n
    }
}

/// Number of grid rows: the cycle days `A, B, C, D, I`.
pub const ROWS: usize = 5;

/// The day that labels grid row `row`.
pub open spec fn day_of_row(row: int) -> Day {
    if row == 0 {
        Day::A
    } else if row == 1 {
        Day::B
    } else if row == 2 {
        Day::C
    } else if row == 3 {
        Day::D
    } else {
        Day::I
    }
}

/// Whether `c` occupies the cell of row `row` and zero-based column `col`:
/// the class runs on that row's day (or on every day, through `I`) and in
/// period `col + 1`.
pub open spec fn occupies(c: Class, row: int, col: int) -> bool {
    &&& (c.days@.contains(Day::I) || c.days@.contains(day_of_row(row)))
    &&& c.mods@.contains((col + 1) as u8)
}

/// A class as the parser produces it: at least one day, no day twice, at
/// least one period, every period in `1..=8` and none twice, and a label.
pub open spec fn class_wf(c: Class) -> bool {
    &&& c.days@.len() > 0
    &&& c.days@.no_duplicates()
    &&& c.mods@.len() > 0
    &&& c.mods@.no_duplicates()
    &&& forall|i: int| 0 <= i < c.mods@.len() ==> 1 <= #[trigger] c.mods@[i] <= 8
    &&& c.short_name@.len() > 0
}

} // verus!
