use schedule_path::{generate_path, get_schedule, Class, Day, Semester};

fn class(days: Vec<Day>, mods: Vec<u8>, label: &str) -> Class {
    Class {
        days,
        mods,
        semester: Semester::S1,
        short_name: label.to_string(),
        long_name: String::new(),
        teacher: String::new(),
        room: String::new(),
        start: String::new(),
        end: String::new(),
    }
}

#[test]
fn generation_is_deterministic() {
    let cs = vec![class(vec![Day::A, Day::B], vec![1, 2], "X"), class(vec![Day::I], vec![2], "Y")];
    assert_eq!(generate_path(&cs), generate_path(&cs));
}

#[test]
fn empty_input_gives_empty_grid() {
    let g = generate_path(&Vec::new());
    assert_eq!(g.len(), 5);
    for row in g.iter() {
        assert_eq!(row.len(), 8);
        for cell in row.iter() {
            assert_eq!(cell, "");
        }
    }
}

#[test]
fn wildcard_fills_column_of_every_row() {
    let g = generate_path(&vec![class(vec![Day::I], vec![4], "LUNCH")]);
    for r in 0..5 {
        for c in 0..8 {
            if c == 3 {
                assert_eq!(g[r][c], "LUNCH");
            } else {
                assert_eq!(g[r][c], "");
            }
        }
    }
}

#[test]
fn plain_day_leaves_wildcard_row_empty() {
    let g = generate_path(&vec![class(vec![Day::D], vec![8], "LAST")]);
    assert_eq!(g[3][7], "LAST");
    assert_eq!(g[4][7], "");
}

#[test]
fn later_class_wins_a_shared_cell() {
    let a = class(vec![Day::A], vec![3], "FIRST");
    let b = class(vec![Day::A, Day::B], vec![3, 4], "SECOND");
    let g = generate_path(&vec![a, b]);
    assert_eq!(g[0][2], "SECOND");
    assert_eq!(g[1][3], "SECOND");
    assert_eq!(g[0][1], "");
}

#[test]
fn wildcard_then_specific_day() {
    let a = class(vec![Day::I], vec![1], "ALL");
    let b = class(vec![Day::B], vec![1], "B1");
    let g = generate_path(&vec![a, b]);
    assert_eq!(g[0][0], "ALL");
    assert_eq!(g[1][0], "B1");
    assert_eq!(g[4][0], "ALL");
}

#[test]
fn parsed_scenario_grid() {
    let cs = get_schedule("AC | 1-2 | S1 | MATH | Mathematics | Smith | 101 | 8:00 | 9:00").unwrap();
    let g = generate_path(&cs);
    let mut filled = 0;
    for r in 0..5 {
        for c in 0..8 {
            if (r == 0 || r == 2) && c < 2 {
                assert_eq!(g[r][c], "MATH");
                filled += 1;
            } else {
                assert_eq!(g[r][c], "");
            }
        }
    }
    assert_eq!(filled, 4);
}

#[test]
fn failed_parse_gives_no_grid() {
    assert!(get_schedule("A | 9 | S1 | X | x | t | r | s | e").is_err());
    assert!(get_schedule("Z | 1 | S1 | X | x | t | r | s | e").is_err());
}
