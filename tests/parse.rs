use schedule_path::parser::{decimal, decode_mods, parse_record};
use schedule_path::text::{read_period, split_on, trim_text};
use schedule_path::{get_schedule, Day, ParseErrorKind, Semester};

fn kind_of(input: &str) -> ParseErrorKind {
    match get_schedule(input) {
        Ok(_) => panic!("expected a parse failure"),
        Err(e) => e.kind,
    }
}

#[test]
fn scenario_two_days_two_modules() {
    let classes = get_schedule("AC | 1-2 | S1 | MATH | Mathematics | Smith | 101 | 8:00 | 9:00").unwrap();
    assert_eq!(classes.len(), 1);
    let c = &classes[0];
    assert_eq!(c.days, vec![Day::A, Day::C]);
    assert_eq!(c.mods, vec![1, 2]);
    assert_eq!(c.semester, Semester::S1);
    assert_eq!(c.short_name, "MATH");
    assert_eq!(c.long_name, "Mathematics");
    assert_eq!(c.teacher, "Smith");
    assert_eq!(c.room, "101");
    assert_eq!(c.start, "8:00");
    assert_eq!(c.end, "9:00");
}

#[test]
fn scenario_unknown_day_code() {
    let r = get_schedule("Z | 1 | S1 | X | x | t | r | s | e");
    let e = r.unwrap_err();
    assert_eq!(e.kind, ParseErrorKind::InvalidDayCode);
    assert_eq!(e.line, 0);
}

#[test]
fn module_nine_is_out_of_range() {
    assert_eq!(kind_of("A | 9 | S1 | X | x | t | r | s | e"), ParseErrorKind::ModuleOutOfRange);
}

#[test]
fn module_zero_and_words_are_out_of_range() {
    assert_eq!(kind_of("A | 0 | S1 | X | x | t | r | s | e"), ParseErrorKind::ModuleOutOfRange);
    assert_eq!(kind_of("A | two | S1 | X | x | t | r | s | e"), ParseErrorKind::ModuleOutOfRange);
    assert_eq!(kind_of("A | 1-9 | S1 | X | x | t | r | s | e"), ParseErrorKind::ModuleOutOfRange);
    assert_eq!(kind_of("A | 1-2-3 | S1 | X | x | t | r | s | e"), ParseErrorKind::ModuleOutOfRange);
    assert_eq!(kind_of("A | 1, 12 | S1 | X | x | t | r | s | e"), ParseErrorKind::ModuleOutOfRange);
}

#[test]
fn malformed_record() {
    assert_eq!(kind_of("A | 1 | S1 | X | x | t | r | s"), ParseErrorKind::MalformedRecord);
    assert_eq!(kind_of("A | 1 | S1 | X | x | t | r | s | e | extra"), ParseErrorKind::MalformedRecord);
}

#[test]
fn empty_day_set() {
    assert_eq!(kind_of(" , | 1 | S1 | X | x | t | r | s | e"), ParseErrorKind::EmptyDaySet);
}

#[test]
fn empty_module_set() {
    assert_eq!(kind_of("A | 3-1 | S1 | X | x | t | r | s | e"), ParseErrorKind::EmptyModuleSet);
    assert_eq!(kind_of("A |  | S1 | X | x | t | r | s | e"), ParseErrorKind::EmptyModuleSet);
    assert_eq!(kind_of("A | , | S1 | X | x | t | r | s | e"), ParseErrorKind::EmptyModuleSet);
}

#[test]
fn invalid_semester() {
    assert_eq!(kind_of("A | 1 | S3 | X | x | t | r | s | e"), ParseErrorKind::InvalidSemester);
}

#[test]
fn missing_label() {
    assert_eq!(kind_of("A | 1 | S2 |   | x | t | r | s | e"), ParseErrorKind::MissingLabel);
}

#[test]
fn day_checked_before_modules() {
    assert_eq!(kind_of("Q | 9 | S3 |  | x | t | r | s | e"), ParseErrorKind::InvalidDayCode);
}

#[test]
fn blank_and_header_lines_are_skipped() {
    let text = "days | mods | semester | short | long | teacher | room | start | end\n\n  \nB | 3 | S2 | ART | Art | Lee | 5 | 10:00 | 11:00\r\nI | 1,8 | S1 | GYM | Gym | Kim | G | 7:00 | 8:00\n";
    let classes = get_schedule(text).unwrap();
    assert_eq!(classes.len(), 2);
    assert_eq!(classes[0].short_name, "ART");
    assert_eq!(classes[0].end, "11:00");
    assert_eq!(classes[0].semester, Semester::S2);
    assert_eq!(classes[1].short_name, "GYM");
    assert_eq!(classes[1].days, vec![Day::I]);
    assert_eq!(classes[1].mods, vec![1, 8]);
}

#[test]
fn empty_text_has_no_classes() {
    assert_eq!(get_schedule("").unwrap().len(), 0);
    assert_eq!(get_schedule("\n \n").unwrap().len(), 0);
}

#[test]
fn first_bad_record_is_reported() {
    let text = "A | 1 | S1 | X | x | t | r | s | e\n\nA | 1 | S9 | Y | y | t | r | s | e\nZ | 1 | S1 | W | w | t | r | s | e";
    let e = get_schedule(text).unwrap_err();
    assert_eq!(e.kind, ParseErrorKind::InvalidSemester);
    assert_eq!(e.line, 2);
    assert_eq!(e.to_string(), "invalid semester: expected S1 or S2 on line 3");
}

#[test]
fn error_message_names_kind_and_line() {
    let e = get_schedule("Z | 1 | S1 | X | x | t | r | s | e").unwrap_err();
    assert_eq!(e.to_string(), "invalid day code: expected A, B, C, D or I on line 1");
}

#[test]
fn repeated_days_and_modules_count_once() {
    let c = parse_record("A, C A C | 2, 2 ,5 | S1 | X | x | t | r | s | e").unwrap();
    assert_eq!(c.days, vec![Day::A, Day::C]);
    assert_eq!(c.mods, vec![2, 5]);
}

#[test]
fn module_list_with_duplicates() {
    assert_eq!(decode_mods("2, 2 ,5").unwrap(), vec![2, 5]);
    assert_eq!(decode_mods("4-6").unwrap(), vec![4, 5, 6]);
    assert_eq!(decode_mods("8").unwrap(), vec![8]);
    assert_eq!(decode_mods("1,").unwrap(), vec![1]);
}

#[test]
fn period_numbers() {
    assert_eq!(read_period("1"), Some(1));
    assert_eq!(read_period("08"), Some(8));
    assert_eq!(read_period("9"), None);
    assert_eq!(read_period("0"), None);
    assert_eq!(read_period(""), None);
    assert_eq!(read_period("99999999999999999999999"), None);
    assert_eq!(read_period("3a"), None);
}

#[test]
fn splitting_and_trimming() {
    assert_eq!(split_on("a|b||c", '|'), vec!["a", "b", "", "c"]);
    assert_eq!(split_on("", '|'), vec![""]);
    assert_eq!(trim_text(" \t x y \r"), "x y");
    assert_eq!(trim_text("   "), "");
}

#[test]
fn decimal_digits() {
    assert_eq!(decimal(0), "0");
    assert_eq!(decimal(7), "7");
    assert_eq!(decimal(120), "120");
}
