//! The schedule text format. Each line is one record with nine fields
//! separated by `|`:
//!
//! `days | mods | semester | short_name | long_name | teacher | room | start | end`
//!
//! * `days` holds day letters `A`, `B`, `C`, `D`, `I`, optionally separated by
//!   blanks or commas (`AC`, `A, C`).
//! * `mods` is either a range `lo-hi` or a comma-separated list of periods
//!   (`1-3`, `1, 4, 6`); every period lies in `1..=8`.
//! * `semester` is `S1` or `S2`.
//! * The text fields are taken with their surrounding blanks removed.
//!
//! Blank lines are skipped, and so is a header line: one whose first field
//! is `days`.
use vstd::prelude::*;

use crate::path::has_day;
use crate::text::{
    lemma_split_len,
    all_digits, blank, decimal_value, is_period, is_space, read_period, same_text, split,
    has_char, split_on, trim, trim_text,
};
use crate::types::{class_wf, Class, Day, Semester};

verus! {

/// What went wrong in a record.
#[derive(Clone, Copy, Debug, PartialEq, Eq, Structural)]
pub enum ParseErrorKind {
    MalformedRecord,
    InvalidDayCode,
    EmptyDaySet,
    ModuleOutOfRange,
    EmptyModuleSet,
    InvalidSemester,
    MissingLabel,
}

/// The first failure in a schedule text, with the zero-based index of the
/// line that holds it.
#[derive(Clone, Copy, Debug, PartialEq, Eq, Structural)]
pub struct ParseError {
    pub kind: ParseErrorKind,
    pub line: usize,
}

/// The day that a letter names.
pub open spec fn day_of(c: char) -> Option<Day> {
    if c == 'A' {
        Some(Day::A)
    } else if c == 'B' {
        Some(Day::B)
    } else if c == 'C' {
        Some(Day::C)
    } else if c == 'D' {
        Some(Day::D)
    } else if c == 'I' {
        Some(Day::I)
    } else {
        None
    }
}

/// Characters allowed between day letters.
pub open spec fn is_day_gap(c: char) -> bool {
    is_space(c) || c == ','
}

/// The failure, if any, of a day field.
pub open spec fn days_error(t: Seq<char>) -> Option<ParseErrorKind> {
    if exists|i: int| 0 <= i < t.len() && !is_day_gap(t[i]) && (#[trigger] day_of(t[i])) is None {
        Some(ParseErrorKind::InvalidDayCode)
    } else if forall|i: int| 0 <= i < t.len() ==> is_day_gap(#[trigger] t[i]) {
        Some(ParseErrorKind::EmptyDaySet)
    } else {
        None
    }
}

/// Whether a day field names day `d`.
pub open spec fn names_day(t: Seq<char>, d: Day) -> bool {
    exists|i: int| 0 <= i < t.len() && #[trigger] day_of(t[i]) == Some(d)
}

/// The two ends of a period range field.
pub open spec fn range_ends(t: Seq<char>) -> Seq<Seq<char>> {
    split(t, '-')
}

/// The failure, if any, of a (trimmed) period field.
pub open spec fn mods_error(t: Seq<char>) -> Option<ParseErrorKind> {
    if t.contains('-') {
        let p = range_ends(t);
        if p.len() != 2 || !is_period(trim(p[0])) || !is_period(trim(p[1])) {
            Some(ParseErrorKind::ModuleOutOfRange)
        } else if decimal_value(trim(p[0])) > decimal_value(trim(p[1])) {
            Some(ParseErrorKind::EmptyModuleSet)
        } else {
            None
        }
    } else {
        let items = split(t, ',');
        if exists|i: int|
            0 <= i < items.len() && trim(#[trigger] items[i]).len() > 0 && !is_period(
                trim(items[i]),
            ) {
            Some(ParseErrorKind::ModuleOutOfRange)
        } else if forall|i: int| 0 <= i < items.len() ==> trim(#[trigger] items[i]).len() == 0 {
            Some(ParseErrorKind::EmptyModuleSet)
        } else {
            None
        }
    }
}

/// Whether a (trimmed) period field names period `v`.
pub open spec fn names_period(t: Seq<char>, v: int) -> bool {
    if t.contains('-') {
        let p = range_ends(t);
        decimal_value(trim(p[0])) <= v <= decimal_value(trim(p[1]))
    } else {
        let items = split(t, ',');
        exists|i: int|
            0 <= i < items.len() && trim(#[trigger] items[i]).len() > 0 && decimal_value(
                trim(items[i]),
            ) == v
    }
}

/// The semester that a (trimmed) field names.
pub open spec fn semester_of(t: Seq<char>) -> Option<Semester> {
    if t == seq!['S', '1'] {
        Some(Semester::S1)
    } else if t == seq!['S', '2'] {
        Some(Semester::S2)
    } else {
        None
    }
}

/// The fields of a line.
pub open spec fn fields(line: Seq<char>) -> Seq<Seq<char>> {
    split(line, '|')
}

/// A header line: its first field is `days`.
pub open spec fn is_header(line: Seq<char>) -> bool {
    trim(fields(line)[0]) == seq!['d', 'a', 'y', 's']
}

/// A line that describes a class: neither blank nor a header.
pub open spec fn is_record(line: Seq<char>) -> bool {
    trim(line).len() > 0 && !is_header(line)
}

/// The failure, if any, of a record line; checks run field by field.
pub open spec fn record_error(line: Seq<char>) -> Option<ParseErrorKind> {
    let f = fields(line);
    if f.len() != 9 {
        Some(ParseErrorKind::MalformedRecord)
    } else if days_error(f[0]) is Some {
        days_error(f[0])
    } else if mods_error(trim(f[1])) is Some {
        mods_error(trim(f[1]))
    } else if semester_of(trim(f[2])) is None {
        Some(ParseErrorKind::InvalidSemester)
    } else if trim(f[3]).len() == 0 {
        Some(ParseErrorKind::MissingLabel)
    } else {
        None
    }
}

/// `c` is the class that a valid record line describes.
pub open spec fn class_of_record(c: Class, line: Seq<char>) -> bool {
    let f = fields(line);
    &&& c.days@.no_duplicates()
    &&& forall|d: Day| c.days@.contains(d) <==> names_day(f[0], d)
    &&& c.mods@.no_duplicates()
    &&& forall|v: u8| c.mods@.contains(v) <==> names_period(trim(f[1]), v as int)
    &&& semester_of(trim(f[2])) == Some(c.semester)
    &&& c.short_name@ == trim(f[3])
    &&& c.long_name@ == trim(f[4])
    &&& c.teacher@ == trim(f[5])
    &&& c.room@ == trim(f[6])
    &&& c.start@ == trim(f[7])
    &&& c.end@ == trim(f[8])
}

/// The record lines among `ls`, in order.
pub open spec fn records(ls: Seq<Seq<char>>) -> Seq<Seq<char>>
    decreases ls.len(),
{
    if ls.len() == 0 {
        Seq::empty()
    } else if is_record(ls.last()) {
        records(ls.drop_last()).push(ls.last())
    } else {
        records(ls.drop_last())
    }
}

/// What parsing `text` yields: the classes of all record lines in order when
/// every record is valid, else the failure of the first invalid record.
pub open spec fn parse_post(text: Seq<char>, r: Result<Vec<Class>, ParseError>) -> bool {
    let ls = split(text, '\n');
    match r {
        Ok(cs) => {
            &&& forall|i: int|
                0 <= i < ls.len() && is_record(#[trigger] ls[i]) ==> record_error(ls[i]) is None
            &&& cs@.len() == records(ls).len()
            &&& forall|j: int| 0 <= j < cs@.len() ==> class_of_record(#[trigger] cs@[j], records(ls)[j])
        },
        Err(e) => {
            &&& e.line < ls.len()
            &&& is_record(ls[e.line as int])
            &&& record_error(ls[e.line as int]) == Some(e.kind)
            &&& forall|i: int|
                0 <= i < e.line && is_record(#[trigger] ls[i]) ==> record_error(ls[i]) is None
        },
    }
}

fn day_letter(c: char) -> (r: Option<Day>)
    ensures
        r == day_of(c),
{
    if c == 'A' {
        Some(Day::A)
    } else if c == 'B' {
        Some(Day::B)
    } else if c == 'C' {
        Some(Day::C)
    } else if c == 'D' {
        Some(Day::D)
    } else if c == 'I' {
        Some(Day::I)
    } else {
        None
    }
}

/// Decodes a day field into its days, each once, in order of first mention.
pub fn decode_days(t: &str) -> (r: Result<Vec<Day>, ParseErrorKind>)
    ensures
        match r {
            Ok(ds) => {
                &&& days_error(t@) is None
                &&& ds@.no_duplicates()
                &&& forall|d: Day| ds@.contains(d) <==> names_day(t@, d)
            },
            Err(k) => days_error(t@) == Some(k),
        },
{
    let n = t.unicode_len();
    let mut ds: Vec<Day> = Vec::new();
    let mut i: usize = 0;
    while i < n
        invariant
            n == t@.len(),
            i <= n,
            forall|j: int| 0 <= j < i ==> is_day_gap(t@[j]) || (#[trigger] day_of(t@[j])) is Some,
            ds@.no_duplicates(),
            forall|d: Day|
                ds@.contains(d) <==> exists|j: int| 0 <= j < i && #[trigger] day_of(t@[j]) == Some(d),
        decreases n - i,
    {
        let c = t.get_char(i);
        if blank(c) || c == ',' {
            proof {
                assert forall|d: Day|
                    ds@.contains(d) <==> exists|j: int| 0 <= j < i + 1 && #[trigger] day_of(t@[j]) == Some(d) by {
                    if exists|j: int| 0 <= j < i + 1 && #[trigger] day_of(t@[j]) == Some(d) {
                        let j = choose|j: int| 0 <= j < i + 1 && #[trigger] day_of(t@[j]) == Some(d);
                        assert(j < i);
                    }
                }
            }
        } else {
            match day_letter(c) {
                None => {
                    proof {
                        assert(!is_day_gap(t@[i as int]) && day_of(t@[i as int]) is None);
                    }
                    return Err(ParseErrorKind::InvalidDayCode);
                },
                Some(d) => {
                    let ghost before = ds@;
                    if !has_day(&ds, d) {
                        ds.push(d);
                        proof {
                            assert(ds@[ds@.len() - 1] == d);
                            assert forall|a: int, b: int| 0 <= a < b < ds@.len() implies ds@[a] != ds@[b] by {
                                if b == ds@.len() - 1 {
                                    assert(ds@[a] == before[a]);
                                }
                            }
                        }
                    }
                    proof {
                        assert(ds@.contains(d));
                        assert(ds@ == before || ds@ == before.push(d));
                        assert forall|e: Day|
                            ds@.contains(e) <==> exists|j: int| 0 <= j < i + 1 && #[trigger] day_of(t@[j]) == Some(e) by {
                            if ds@.contains(e) && e != d {
                                let k = choose|k: int| 0 <= k < ds@.len() && ds@[k] == e;
                                assert(before[k] == e);
                                assert(before.contains(e));
                                let j = choose|j: int| 0 <= j < i && #[trigger] day_of(t@[j]) == Some(e);
                                assert(day_of(t@[j]) == Some(e));
                            }
                            if before.contains(e) {
                                let k = choose|k: int| 0 <= k < before.len() && before[k] == e;
                                assert(ds@[k] == e);
                            }
                            if e == d {
                                assert(day_of(t@[i as int]) == Some(e));
                            }
                            if exists|j: int| 0 <= j < i + 1 && #[trigger] day_of(t@[j]) == Some(e) {
                                let j = choose|j: int| 0 <= j < i + 1 && #[trigger] day_of(t@[j]) == Some(e);
                                if j < i {
                                    assert(before.contains(e));
                                }
                            }
                        }
                    }
                },
            }
        }
        i = i + 1;
    }
    if ds.len() == 0 {
        proof {
            assert forall|j: int| 0 <= j < t@.len() implies is_day_gap(#[trigger] t@[j]) by {
                if !is_day_gap(t@[j]) {
                    let d = day_of(t@[j])->0;
                    assert(ds@.contains(d));
                }
            }
        }
        return Err(ParseErrorKind::EmptyDaySet);
    }
    proof {
        assert(ds@.contains(ds@[0]));
        let j = choose|j: int| 0 <= j < n && #[trigger] day_of(t@[j]) == Some(ds@[0]);
        assert(!is_day_gap(t@[j]));
    }
    Ok(ds)
}

/// Adds `v` to `ms` unless it is there already.
fn add_period(ms: &mut Vec<u8>, v: u8)
    requires
        old(ms)@.no_duplicates(),
    ensures
        final(ms)@.no_duplicates(),
        forall|x: u8| final(ms)@.contains(x) <==> (old(ms)@.contains(x) || x == v),
{
    let mut i: usize = 0;
    while i < ms.len()
        invariant
            ms@ == old(ms)@,
            old(ms)@.no_duplicates(),
            i <= ms@.len(),
            forall|j: int| 0 <= j < i ==> ms@[j] != v,
        decreases ms@.len() - i,
    {
        if ms[i] == v {
            return;
        }
        i = i + 1;
    }
    let ghost before = ms@;
    ms.push(v);
    proof {
        assert forall|x: u8| ms@.contains(x) <==> (before.contains(x) || x == v) by {
            if ms@.contains(x) {
                let k = choose|k: int| 0 <= k < ms@.len() && ms@[k] == x;
                if k < before.len() {
                    assert(before[k] == x);
                }
            }
            if before.contains(x) {
                let k = choose|k: int| 0 <= k < before.len() && before[k] == x;
                assert(ms@[k] == x);
            }
            if x == v {
                assert(ms@[before.len() as int] == x);
            }
        }
        assert forall|a: int, b: int| 0 <= a < b < ms@.len() implies ms@[a] != ms@[b] by {
            if b == ms@.len() - 1 {
                assert(ms@[a] == before[a]);
            }
        }
    }
}

/// Decodes a trimmed period field into its periods, each once.
pub fn decode_mods(t: &str) -> (r: Result<Vec<u8>, ParseErrorKind>)
    ensures
        match r {
            Ok(ms) => {
                &&& mods_error(t@) is None
                &&& ms@.no_duplicates()
                &&& forall|v: u8| ms@.contains(v) <==> names_period(t@, v as int)
            },
            Err(k) => mods_error(t@) == Some(k),
        },
{
    if has_char(t, '-') {
        let p = split_on(t, '-');
        if p.len() != 2 {
            return Err(ParseErrorKind::ModuleOutOfRange);
        }
        let a = trim_text(p[0].as_str());
        let b = trim_text(p[1].as_str());
        let lo = match read_period(a.as_str()) {
            None => {
                return Err(ParseErrorKind::ModuleOutOfRange);
            },
            Some(v) => v,
        };
        let hi = match read_period(b.as_str()) {
            None => {
                return Err(ParseErrorKind::ModuleOutOfRange);
            },
            Some(v) => v,
        };
        if lo > hi {
            return Err(ParseErrorKind::EmptyModuleSet);
        }
        let mut ms: Vec<u8> = Vec::new();
        let mut v: u8 = lo;
        while v <= hi
            invariant
                1 <= lo <= v <= hi + 1,
                hi <= 8,
                ms@.len() == v - lo,
                forall|k: int| 0 <= k < ms@.len() ==> #[trigger] ms@[k] == lo + k,
            decreases hi + 1 - v,
        {
            ms.push(v);
            v = v + 1;
        }
        proof {
            assert forall|x: u8| ms@.contains(x) <==> names_period(t@, x as int) by {
                if lo <= x <= hi {
                    assert(ms@[x - lo] == x);
                }
            }
        }
        Ok(ms)
    } else {
        let items = split_on(t, ',');
        let ghost sp = split(t@, ',');
        let mut ms: Vec<u8> = Vec::new();
        let mut i: usize = 0;
        while i < items.len()
            invariant
                !t@.contains('-'),
                sp == split(t@, ','),
                i <= items@.len(),
                items@.len() == sp.len(),
                forall|j: int| 0 <= j < items@.len() ==> #[trigger] items@[j]@ == sp[j],
                forall|j: int|
                    0 <= j < i && trim(#[trigger] sp[j]).len() > 0 ==> is_period(trim(sp[j])),
                ms@.no_duplicates(),
                forall|x: u8|
                    ms@.contains(x) <==> exists|j: int|
                        0 <= j < i && trim(#[trigger] sp[j]).len() > 0 && decimal_value(trim(sp[j]))
                            == x as int,
            decreases items@.len() - i,
        {
            let it = trim_text(items[i].as_str());
            if it.as_str().unicode_len() > 0 {
                match read_period(it.as_str()) {
                    None => {
                        proof {
                            assert(trim(sp[i as int]).len() > 0 && !is_period(trim(sp[i as int])));
                        }
                        return Err(ParseErrorKind::ModuleOutOfRange);
                    },
                    Some(v) => {
                        let ghost before = ms@;
                        add_period(&mut ms, v);
                        proof {
                            assert forall|x: u8|
                                ms@.contains(x) <==> exists|j: int|
                                    0 <= j < i + 1 && trim(#[trigger] sp[j]).len() > 0
                                        && decimal_value(trim(sp[j])) == x as int by {
                                if x == v {
                                    assert(trim(sp[i as int]).len() > 0);
                                }
                                if exists|j: int|
                                    0 <= j < i + 1 && trim(#[trigger] sp[j]).len() > 0
                                        && decimal_value(trim(sp[j])) == x as int {
                                    let j = choose|j: int|
                                        0 <= j < i + 1 && trim(#[trigger] sp[j]).len() > 0
                                            && decimal_value(trim(sp[j])) == x as int;
                                    if j == i {
                                        assert(x == v);
                                    }
                                }
                            }
                        }
                    },
                }
            } else {
                proof {
                    assert forall|x: u8|
                        ms@.contains(x) <==> exists|j: int|
                            0 <= j < i + 1 && trim(#[trigger] sp[j]).len() > 0 && decimal_value(
                                trim(sp[j]),
                            ) == x as int by {
                        if exists|j: int|
                            0 <= j < i + 1 && trim(#[trigger] sp[j]).len() > 0 && decimal_value(
                                trim(sp[j]),
                            ) == x as int {
                            let j = choose|j: int|
                                0 <= j < i + 1 && trim(#[trigger] sp[j]).len() > 0
                                    && decimal_value(trim(sp[j])) == x as int;
                            assert(j < i);
                        }
                    }
                }
            }
            i = i + 1;
        }
        if ms.len() == 0 {
            proof {
                assert forall|j: int| 0 <= j < sp.len() implies trim(#[trigger] sp[j]).len() == 0 by {
                    if trim(sp[j]).len() > 0 {
                        let x = decimal_value(trim(sp[j])) as u8;
                        assert(ms@.contains(x));
                    }
                }
            }
            return Err(ParseErrorKind::EmptyModuleSet);
        }
        proof {
            assert(ms@.contains(ms@[0]));
            let j = choose|j: int|
                0 <= j < i && trim(#[trigger] sp[j]).len() > 0 && decimal_value(trim(sp[j]))
                    == ms@[0] as int;
            assert(trim(sp[j]).len() > 0);
        }
        Ok(ms)
    }
}

/// Decodes a trimmed semester field.
pub fn decode_semester(t: &str) -> (r: Option<Semester>)
    ensures
        r == semester_of(t@),
{
    proof {
        reveal_strlit("S1");
        reveal_strlit("S2");
        assert("S1"@ =~= seq!['S', '1']);
        assert("S2"@ =~= seq!['S', '2']);
    }
    if same_text(t, "S1") {
        Some(Semester::S1)
    } else if same_text(t, "S2") {
        Some(Semester::S2)
    } else {
        None
    }
}

/// Decodes one record line into the class it describes.
pub fn parse_record(line: &str) -> (r: Result<Class, ParseErrorKind>)
    ensures
        match r {
            Ok(c) => record_error(line@) is None && class_of_record(c, line@),
            Err(k) => record_error(line@) == Some(k),
        },
{
    let f = split_on(line, '|');
    if f.len() != 9 {
        return Err(ParseErrorKind::MalformedRecord);
    }
    let days = match decode_days(f[0].as_str()) {
        Err(k) => {
            return Err(k);
        },
        Ok(ds) => ds,
    };
    let mod_text = trim_text(f[1].as_str());
    let mods = match decode_mods(mod_text.as_str()) {
        Err(k) => {
            return Err(k);
        },
        Ok(ms) => ms,
    };
    let sem_text = trim_text(f[2].as_str());
    let semester = match decode_semester(sem_text.as_str()) {
        None => {
            return Err(ParseErrorKind::InvalidSemester);
        },
        Some(s) => s,
    };
    let short_name = trim_text(f[3].as_str());
    if short_name.as_str().unicode_len() == 0 {
        return Err(ParseErrorKind::MissingLabel);
    }
    let long_name = trim_text(f[4].as_str());
    let teacher = trim_text(f[5].as_str());
    let room = trim_text(f[6].as_str());
    let start = trim_text(f[7].as_str());
    let end = trim_text(f[8].as_str());
    Ok(Class { days, mods, semester, short_name, long_name, teacher, room, start, end })
}

/// Whether a line describes a class, being neither blank nor a header.
pub fn is_record_line(line: &str) -> (r: bool)
    ensures
        r == is_record(line@),
{
    let t = trim_text(line);
    if t.as_str().unicode_len() == 0 {
        return false;
    }
    let f = split_on(line, '|');
    proof {
        lemma_split_len(line@, '|');
        reveal_strlit("days");
        assert("days"@ =~= seq!['d', 'a', 'y', 's']);
    }
    let first = trim_text(f[0].as_str());
    !same_text(first.as_str(), "days")
}

/// Parses a whole schedule text: the classes of its record lines, in order,
/// or the failure of its first invalid record.
pub fn get_schedule(input: &str) -> (r: Result<Vec<Class>, ParseError>)
    ensures
        parse_post(input@, r),
        r matches Ok(cs) ==> forall|j: int| 0 <= j < cs@.len() ==> class_wf(#[trigger] cs@[j]),
{
    let lines = split_on(input, '\n');
    let ghost ls = split(input@, '\n');
    let mut out: Vec<Class> = Vec::new();
    let mut i: usize = 0;
    proof {
        assert(ls.take(0) =~= Seq::<Seq<char>>::empty());
    }
    while i < lines.len()
        invariant
            ls == split(input@, '\n'),
            lines@.len() == ls.len(),
            i <= ls.len(),
            forall|j: int| 0 <= j < ls.len() ==> #[trigger] lines@[j]@ == ls[j],
            forall|j: int|
                0 <= j < i && is_record(#[trigger] ls[j]) ==> record_error(ls[j]) is None,
            out@.len() == records(ls.take(i as int)).len(),
            forall|j: int| 0 <= j < out@.len() ==> class_wf(#[trigger] out@[j]),
            forall|j: int|
                0 <= j < out@.len() ==> class_of_record(
                    #[trigger] out@[j],
                    records(ls.take(i as int))[j],
                ),
        decreases ls.len() - i,
    {
        let line = lines[i].as_str();
        proof {
            assert(ls.take(i + 1).drop_last() =~= ls.take(i as int));
            assert(ls.take(i + 1).last() == ls[i as int]);
        }
        if is_record_line(line) {
            match parse_record(line) {
                Err(k) => {
                    return Err(ParseError { kind: k, line: i });
                },
                Ok(c) => {
                    let ghost before = out@;
                    proof {
                        lemma_record_class_wf(c, line@);
                    }
                    out.push(c);
                    proof {
                        assert forall|j: int| 0 <= j < out@.len() implies class_of_record(
                            #[trigger] out@[j],
                            records(ls.take(i + 1))[j],
                        ) by {
                            if j < before.len() {
                                assert(out@[j] == before[j]);
                            }
                        }
                        assert forall|j: int| 0 <= j < out@.len() implies class_wf(
                            #[trigger] out@[j],
                        ) by {
                            if j < before.len() {
                                assert(out@[j] == before[j]);
                            }
                        }
                    }
                },
            }
        }
        i = i + 1;
    }
    proof {
        assert(ls.take(ls.len() as int) =~= ls);
    }
    Ok(out)
}

/// The class of a valid record line is well formed: it has days, periods in
/// `1..=8` and a label.
pub proof fn lemma_record_class_wf(c: Class, line: Seq<char>)
    requires
        record_error(line) is None,
        class_of_record(c, line),
    ensures
        class_wf(c),
{
    let f = fields(line);
    let dt = f[0];
    let j = choose|j: int| 0 <= j < dt.len() && !is_day_gap(#[trigger] dt[j]);
    assert(day_of(dt[j]) is Some);
    let d = day_of(dt[j])->0;
    assert(names_day(dt, d));
    assert(c.days@.contains(d));
    let t = trim(f[1]);
    if t.contains('-') {
        let p = range_ends(t);
        let lo = decimal_value(trim(p[0]));
        assert(names_period(t, (lo as u8) as int));
        assert(c.mods@.contains(lo as u8));
    } else {
        let items = split(t, ',');
        let k = choose|k: int| 0 <= k < items.len() && trim(#[trigger] items[k]).len() > 0;
        let v = decimal_value(trim(items[k]));
        assert(is_period(trim(items[k])));
        assert(names_period(t, (v as u8) as int));
        assert(c.mods@.contains(v as u8));
    }
    assert forall|i: int| 0 <= i < c.mods@.len() implies 1 <= #[trigger] c.mods@[i] <= 8 by {
        let x = c.mods@[i];
        assert(c.mods@.contains(x));
        assert(names_period(t, x as int));
        if !t.contains('-') {
            let items = split(t, ',');
            let k = choose|k: int|
                0 <= k < items.len() && trim(#[trigger] items[k]).len() > 0 && decimal_value(
                    trim(items[k]),
                ) == x as int;
            assert(is_period(trim(items[k])));
        }
    }
}

/// A number written in decimal digits that is no period: outside `1..=8`.
pub open spec fn is_out_of_range_number(s: Seq<char>) -> bool {
    &&& s.len() > 0
    &&& all_digits(s)
    &&& !(1 <= decimal_value(s) <= 8)
}

/// A (trimmed) period field that names a number outside `1..=8`: one end of a
/// two-ended range, or one item of a list.
pub open spec fn names_out_of_range_number(t: Seq<char>) -> bool {
    if t.contains('-') {
        let p = range_ends(t);
        p.len() == 2 && (is_out_of_range_number(trim(p[0])) || is_out_of_range_number(trim(p[1])))
    } else {
        let items = split(t, ',');
        exists|k: int| 0 <= k < items.len() && is_out_of_range_number(trim(#[trigger] items[k]))
    }
}

/// A record whose period field names a number outside `1..=8` makes parsing
/// fail with `ModuleOutOfRange` at that record, so no classes come out.
/// (Earlier records and the record's own day field must be valid, since
/// those are checked first.)
pub proof fn lemma_out_of_range_period_rejected(
    text: Seq<char>,
    i: int,
    r: Result<Vec<Class>, ParseError>,
)
    requires
        parse_post(text, r),
        0 <= i < split(text, '\n').len(),
        is_record(split(text, '\n')[i]),
        forall|j: int|
            0 <= j < i && is_record(#[trigger] split(text, '\n')[j]) ==> record_error(
                split(text, '\n')[j],
            ) is None,
        fields(split(text, '\n')[i]).len() == 9,
        days_error(fields(split(text, '\n')[i])[0]) is None,
        names_out_of_range_number(trim(fields(split(text, '\n')[i])[1])),
    ensures
        r matches Err(e) && e.kind == ParseErrorKind::ModuleOutOfRange && e.line == i,
{
    let ls = split(text, '\n');
    let t = trim(fields(ls[i])[1]);
    if !t.contains('-') {
        let items = split(t, ',');
        let k = choose|k: int| 0 <= k < items.len() && is_out_of_range_number(trim(#[trigger] items[k]));
        assert(trim(items[k]).len() > 0 && !is_period(trim(items[k])));
    }
    assert(mods_error(t) == Some(ParseErrorKind::ModuleOutOfRange));
    assert(record_error(ls[i]) == Some(ParseErrorKind::ModuleOutOfRange));
}

/// What an error kind says to a reader.
pub open spec fn kind_text(k: ParseErrorKind) -> Seq<char> {
    match k {
        ParseErrorKind::MalformedRecord => "malformed record: expected 9 fields"@,
        ParseErrorKind::InvalidDayCode => "invalid day code: expected A, B, C, D or I"@,
        ParseErrorKind::EmptyDaySet => "no days given"@,
        ParseErrorKind::ModuleOutOfRange => "module out of range: expected 1 to 8"@,
        ParseErrorKind::EmptyModuleSet => "no modules given"@,
        ParseErrorKind::InvalidSemester => "invalid semester: expected S1 or S2"@,
        ParseErrorKind::MissingLabel => "missing short name"@,
    }
}

/// The character of a decimal digit.
pub open spec fn digit_char(d: nat) -> char {
    if d == 0 {
        '0'
    } else if d == 1 {
        '1'
    } else if d == 2 {
        '2'
    } else if d == 3 {
        '3'
    } else if d == 4 {
        '4'
    } else if d == 5 {
        '5'
    } else if d == 6 {
        '6'
    } else if d == 7 {
        '7'
    } else if d == 8 {
        '8'
    } else {
        '9'
    }
}

/// The decimal digits of `n`, most significant first.
pub open spec fn decimal_text(n: nat) -> Seq<char>
    decreases n,
{
    if n < 10 {
        seq![digit_char(n)]
    } else {
        decimal_text(n / 10).push(digit_char(n % 10))
    }
}

/// The message of an error: what went wrong, then the one-based line number.
pub open spec fn error_text(e: ParseError) -> Seq<char> {
    kind_text(e.kind) + " on line "@ + decimal_text(e.line as nat + 1)
}

fn digit_str(d: usize) -> (r: &'static str)
    requires
        d < 10,
    ensures
        r@ == seq![digit_char(d as nat)],
{
    proof {
        reveal_strlit("0");
        reveal_strlit("1");
        reveal_strlit("2");
        reveal_strlit("3");
        reveal_strlit("4");
        reveal_strlit("5");
        reveal_strlit("6");
        reveal_strlit("7");
        reveal_strlit("8");
        reveal_strlit("9");
    }
    let r = if d == 0 {
        "0"
    } else if d == 1 {
        "1"
    } else if d == 2 {
        "2"
    } else if d == 3 {
        "3"
    } else if d == 4 {
        "4"
    } else if d == 5 {
        "5"
    } else if d == 6 {
        "6"
    } else if d == 7 {
        "7"
    } else if d == 8 {
        "8"
    } else {
        "9"
    };
    proof {
        assert(r@ =~= seq![digit_char(d as nat)]);
    }
    r
}

/// The decimal digits of `n`.
pub fn decimal(n: usize) -> (r: String)
    ensures
        r@ == decimal_text(n as nat),
    decreases n,
{
    if n < 10 {
        digit_str(n).to_owned()
    } else {
        let mut s = decimal(n / 10);
        s.append(digit_str(n % 10));
        s
    }
}

impl ParseErrorKind {
    /// What this kind of error says to a reader.
    pub fn describe(&self) -> (r: String)
        ensures
            r@ == kind_text(*self),
    {
        match self {
            ParseErrorKind::MalformedRecord => "malformed record: expected 9 fields".to_owned(),
            ParseErrorKind::InvalidDayCode => "invalid day code: expected A, B, C, D or I".to_owned(),
            ParseErrorKind::EmptyDaySet => "no days given".to_owned(),
            ParseErrorKind::ModuleOutOfRange => "module out of range: expected 1 to 8".to_owned(),
            ParseErrorKind::EmptyModuleSet => "no modules given".to_owned(),
            ParseErrorKind::InvalidSemester => "invalid semester: expected S1 or S2".to_owned(),
            ParseErrorKind::MissingLabel => "missing short name".to_owned(),
        }
    }
}

impl ParseError {
    /// The message of this error, naming its line counted from one.
    pub fn to_string(&self) -> (r: String)
        requires
            self.line < usize::MAX,
        ensures
            r@ == error_text(*self),
    {
        let mut s = self.kind.describe();
        s.append(" on line ");
        let num = decimal(self.line + 1);
        s.append(num.as_str());
        s
    }
}

} // verus!
