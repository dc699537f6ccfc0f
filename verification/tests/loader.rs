use hashlife::cell::Cell;
use hashlife::loader::{
    blank, find_stop, lines_without_cell, parse_coordinate, parse_coordinates, parse_life,
    parse_line,
};

fn coordinate(field: &str) -> Option<i32> {
    parse_coordinate(field.as_bytes(), 0, field.len())
}

fn line(text: &str) -> Option<(i32, i32)> {
    parse_line(text.as_bytes(), 0, text.len()).map(|c| (c.x, c.y))
}

fn life(text: &str) -> Vec<(i32, i32)> {
    parse_life(text.as_bytes()).to_vec().iter().map(|c| (c.x, c.y)).collect()
}

#[test]
fn coordinate_is_a_signed_decimal_number() {
    assert_eq!(coordinate("0"), Some(0));
    assert_eq!(coordinate("7"), Some(7));
    assert_eq!(coordinate("42"), Some(42));
    assert_eq!(coordinate("-42"), Some(-42));
    assert_eq!(coordinate("+42"), Some(42));
    assert_eq!(coordinate("-0"), Some(0));
    assert_eq!(coordinate("007"), Some(7));
    assert_eq!(coordinate("1234567890"), Some(1_234_567_890));
}

#[test]
fn coordinate_must_fit_an_i32() {
    assert_eq!(coordinate("2147483647"), Some(i32::MAX));
    assert_eq!(coordinate("2147483648"), None);
    assert_eq!(coordinate("+2147483647"), Some(i32::MAX));
    assert_eq!(coordinate("+2147483648"), None);
    assert_eq!(coordinate("-2147483648"), Some(i32::MIN));
    assert_eq!(coordinate("-2147483649"), None);
    assert_eq!(coordinate("99999999999999999999999999"), None);
    assert_eq!(coordinate("-99999999999999999999999999"), None);
    assert_eq!(coordinate("00000000000000000000000012"), Some(12));
    assert_eq!(coordinate("21474836470"), None);
}

#[test]
fn coordinate_takes_nothing_but_digits_after_the_sign() {
    assert_eq!(coordinate(""), None);
    assert_eq!(coordinate("-"), None);
    assert_eq!(coordinate("+"), None);
    assert_eq!(coordinate("--1"), None);
    assert_eq!(coordinate("+-1"), None);
    assert_eq!(coordinate("1-"), None);
    assert_eq!(coordinate("12a"), None);
    assert_eq!(coordinate("a12"), None);
    assert_eq!(coordinate("1.5"), None);
    assert_eq!(coordinate(" 1"), None);
    assert_eq!(coordinate("1 "), None);
    assert_eq!(coordinate("1\t"), None);
    assert_eq!(coordinate("0x10"), None);
    assert_eq!(coordinate("99999999999999999999999999x"), None);
}

#[test]
fn coordinate_agrees_with_the_standard_library() {
    let fields = [
        "0", "-1", "+1", "2147483647", "2147483648", "-2147483648", "-2147483649", "", "-", "+",
        "12x", "x12", "000", "-000", "+-3", "3+", "\u{663}", "1_000", "1e3",
    ];
    for field in fields.iter() {
        assert_eq!(coordinate(field), field.parse::<i32>().ok());
    }
}

#[test]
fn coordinate_of_a_part_of_the_text() {
    let text = b"ab-17cd";
    assert_eq!(parse_coordinate(text, 2, 5), Some(-17));
    assert_eq!(parse_coordinate(text, 3, 5), Some(17));
    assert_eq!(parse_coordinate(text, 2, 6), None);
    assert_eq!(parse_coordinate(text, 1, 5), None);
    assert_eq!(parse_coordinate(text, 4, 4), None);
}

#[test]
fn find_stop_finds_the_first_or_the_end() {
    let text = b"ab cd ef";
    assert_eq!(find_stop(text, b' ', 0, 8), 2);
    assert_eq!(find_stop(text, b' ', 2, 8), 2);
    assert_eq!(find_stop(text, b' ', 3, 8), 5);
    assert_eq!(find_stop(text, b' ', 6, 8), 8);
    assert_eq!(find_stop(text, b' ', 0, 2), 2);
    assert_eq!(find_stop(text, b' ', 0, 1), 1);
    assert_eq!(find_stop(text, b'\n', 0, 8), 8);
    assert_eq!(find_stop(text, b' ', 8, 8), 8);
}

#[test]
fn blank_is_ascii_white_space() {
    for b in [b' ', b'\t', b'\n', 0x0b, 0x0c, b'\r'] {
        assert!(blank(b));
    }
    for b in [b'0', b'a', 0u8, 8, 14, 31, 33, 0xa0, 0xff] {
        assert!(!blank(b));
    }
}

#[test]
fn coordinates_leaves_out_what_is_no_number() {
    let found = |text: &str| parse_coordinates(text.as_bytes(), 0, text.len());
    assert_eq!(found("1 2"), vec![1, 2]);
    assert_eq!(found("1 2 3 4"), vec![1, 2, 3, 4]);
    assert_eq!(found("-1 +2"), vec![-1, 2]);
    assert_eq!(found("1  2"), vec![1, 2]);
    assert_eq!(found("x 1 y 2 z"), vec![1, 2]);
    assert_eq!(found("1\t2"), Vec::<i32>::new());
    assert_eq!(found(""), Vec::<i32>::new());
    assert_eq!(found(" "), Vec::<i32>::new());
    assert_eq!(found("5"), vec![5]);
    assert_eq!(found(" 5 "), vec![5]);
    assert_eq!(found("99999999999 5"), vec![5]);
}

#[test]
fn line_gives_the_first_two_coordinates() {
    assert_eq!(line("2 1"), Some((2, 1)));
    assert_eq!(line("-12 34"), Some((-12, 34)));
    assert_eq!(line("  2 1  "), Some((2, 1)));
    assert_eq!(line("2 1\r"), Some((2, 1)));
    assert_eq!(line("\t2 1\n"), Some((2, 1)));
    assert_eq!(line("2   1"), Some((2, 1)));
    assert_eq!(line("2 1 9 9"), Some((2, 1)));
    assert_eq!(line("2 x 1"), Some((2, 1)));
    assert_eq!(line("x 2 1"), Some((2, 1)));
}

#[test]
fn line_with_fewer_than_two_coordinates_gives_no_cell() {
    assert_eq!(line(""), None);
    assert_eq!(line("   "), None);
    assert_eq!(line("2"), None);
    assert_eq!(line("2 x"), None);
    assert_eq!(line("x y"), None);
    assert_eq!(line("2\t1"), None);
    assert_eq!(line("2,1"), None);
    assert_eq!(line("2 99999999999"), None);
    assert_eq!(line("#Life 1.06"), None);
}

#[test]
fn line_of_a_part_of_the_text() {
    let text = b"head\n 3 4 \n5 6";
    assert_eq!(parse_line(text, 5, 10), Some(Cell::new(3, 4)));
    assert_eq!(parse_line(text, 11, 14), Some(Cell::new(5, 6)));
    assert_eq!(parse_line(text, 0, 4), None);
}

#[test]
fn life_passes_over_the_heading() {
    assert_eq!(life("#Life 1.06\n2 1\n2 2\n2 3\n"), vec![(2, 1), (2, 2), (2, 3)]);
    // A heading that reads as a cell is still the heading.
    assert_eq!(life("7 7\n2 1\n"), vec![(2, 1)]);
    assert_eq!(life("\n2 1\n"), vec![(2, 1)]);
}

#[test]
fn life_of_a_text_without_cells() {
    assert_eq!(life(""), Vec::<(i32, i32)>::new());
    assert_eq!(life("#Life 1.06"), Vec::<(i32, i32)>::new());
    assert_eq!(life("#Life 1.06\n"), Vec::<(i32, i32)>::new());
    assert_eq!(life("1 2"), Vec::<(i32, i32)>::new());
    assert_eq!(life("\n\n\n"), Vec::<(i32, i32)>::new());
}

#[test]
fn life_takes_the_last_line_without_a_line_end() {
    assert_eq!(life("#Life 1.06\n2 1\n-3 -4"), vec![(2, 1), (-3, -4)]);
}

#[test]
fn life_passes_over_lines_that_give_no_cell() {
    let text = "#Life 1.06\n2 1\n\nnot a cell\n5\n2 2\r\n  \n-1 -1 trailing\n";
    assert_eq!(life(text), vec![(2, 1), (2, 2), (-1, -1)]);
}

#[test]
fn life_keeps_the_order_and_holds_each_cell_once() {
    assert_eq!(life("h\n3 3\n1 1\n3 3\n2 2\n"), vec![(3, 3), (1, 1), (2, 2)]);
    assert_eq!(life("h\n3 3\n3 3\n3 3\n"), vec![(3, 3)]);
    assert_eq!(life("h\n3 3\n 3 3 \n+3 03\n3 3 9\n"), vec![(3, 3)]);
    let grid = parse_life(b"h\n1 2\n2 1\n1 2\n");
    assert_eq!(grid.len(), 2);
    assert!(grid.contains(Cell::new(1, 2)));
    assert!(grid.contains(Cell::new(2, 1)));
    assert!(!grid.contains(Cell::new(2, 2)));
}

#[test]
fn life_takes_the_first_number_for_the_column() {
    assert_eq!(life("h\n7 -9\n"), vec![(7, -9)]);
    let grid = parse_life(b"h\n7 -9\n");
    assert_eq!(grid.get(0), Cell { x: 7, y: -9 });
}

#[test]
fn lines_without_cell_are_numbered_from_the_heading() {
    let lines = |text: &str| lines_without_cell(text.as_bytes());
    assert_eq!(lines(""), Vec::<usize>::new());
    assert_eq!(lines("heading"), Vec::<usize>::new());
    assert_eq!(lines("not a cell\n1 2\n"), Vec::<usize>::new());
    assert_eq!(lines("h\n1 2\n3 4\n"), Vec::<usize>::new());
    assert_eq!(lines("h\n1 2\nx\n3 4\n\n5\n6 7"), vec![2, 4, 5]);
    assert_eq!(lines("h\n\n\n"), vec![1, 2]);
    assert_eq!(lines("h\n1 2\nlast"), vec![2]);
    // A cell that is given again is a cell all the same.
    assert_eq!(lines("h\n1 2\n1 2\n"), Vec::<usize>::new());
}

#[test]
fn life_takes_carriage_returns_for_white_space() {
    assert_eq!(life("#Life 1.06\r\n0 -1\r\n1 0\r\n"), vec![(0, -1), (1, 0)]);
}

#[test]
fn life_of_bytes_that_are_no_text() {
    let text: &[u8] = &[0xff, 0xfe, b'\n', b'1', b' ', b'2', b'\n', 0xc3, b' ', b'4', b'\n'];
    let cells: Vec<(i32, i32)> = parse_life(text).to_vec().iter().map(|c| (c.x, c.y)).collect();
    assert_eq!(cells, vec![(1, 2)]);
}
