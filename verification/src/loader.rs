//! Cells read from text: a heading line, then a column and a row on each
//! line. A cell that the text gives twice is held once.

use crate::cell::Cell;
use crate::grid::{distinct, distinct_onto, lemma_distinct, Grid};
use vstd::prelude::*;

verus! {

/// The byte that ends a line.
pub const NEWLINE: u8 = 10;

/// The byte that parts the fields of a line.
pub const SPACE: u8 = 32;

/// Whether a byte is an ASCII digit.
pub open spec fn is_digit(b: u8) -> bool {
    48 <= b <= 57
}

/// Whether a byte is ASCII white space: a space, a tab, a line feed, a
/// vertical tab, a form feed or a carriage return.
pub open spec fn is_blank(b: u8) -> bool {
    b == 32 || (9 <= b <= 13)
}

/// The first index from `from` on, below `to`, at which `s` holds `stop`;
/// `to` where it holds none.
pub open spec fn next_stop(s: Seq<u8>, stop: u8, from: int, to: int) -> int
    decreases to - from,
{
    if from >= to {
        to
    } else if s[from] == stop {
        from
    } else {
        next_stop(s, stop, from + 1, to)
    }
}

/// The first index from `from` on, below `to`, at which `s` holds no white
/// space; `to` where it holds nothing else.
pub open spec fn trim_start(s: Seq<u8>, from: int, to: int) -> int
    decreases to - from,
{
    if from >= to {
        to
    } else if !is_blank(s[from]) {
        from
    } else {
        trim_start(s, from + 1, to)
    }
}

/// The end of what is left of `s` between `from` and `to` when the white
/// space before `to` is taken away.
pub open spec fn trim_end(s: Seq<u8>, from: int, to: int) -> int
    decreases to - from,
{
    if to <= from {
        from
    } else if !is_blank(s[to - 1]) {
        to
    } else {
        trim_end(s, from, to - 1)
    }
}

/// Whether `s` holds digits only from `from` up to `to`.
pub open spec fn all_digits(s: Seq<u8>, from: int, to: int) -> bool {
    forall|i: int| from <= i < to ==> is_digit(#[trigger] s[i])
}

/// The number that the digits of `s` from `from` up to `to` write in base
/// ten.
pub open spec fn digits_value(s: Seq<u8>, from: int, to: int) -> int
    decreases to - from,
{
    if to <= from {
        0
    } else {
        10 * digits_value(s, from, to - 1) + (s[to - 1] - 48)
    }
}

/// The number that `s` writes from `from` up to `to`: a sign or none, then
/// one digit or more, and nothing else.
pub open spec fn number(s: Seq<u8>, from: int, to: int) -> Option<int> {
    if from < to && (s[from] == 43 || s[from] == 45) {
        if from + 1 < to && all_digits(s, from + 1, to) {
            if s[from] == 45 {
                Some(-digits_value(s, from + 1, to))
            } else {
                Some(digits_value(s, from + 1, to))
            }
        } else {
            None
        }
    } else if from < to && all_digits(s, from, to) {
        Some(digits_value(s, from, to))
    } else {
        None
    }
}

/// The coordinate that `s` writes from `from` up to `to`: a number that an
/// `i32` holds.
pub open spec fn coordinate(s: Seq<u8>, from: int, to: int) -> Option<i32> {
    match number(s, from, to) {
        Some(v) => if i32::MIN <= v <= i32::MAX {
            Some(v as i32)
        } else {
            None
        },
        None => None,
    }
}

/// The coordinates among the fields of `s` from `from` up to `to`, in their
/// order. Fields are parted by single spaces; a field that writes no
/// coordinate is passed over.
pub open spec fn coordinates(s: Seq<u8>, from: int, to: int) -> Seq<i32>
    decreases to - from + 1,
{
    if from > to {
        Seq::empty()
    } else {
        let end = next_stop(s, SPACE, from, to);
        let rest = if from <= end < to {
            coordinates(s, end + 1, to)
        } else {
            Seq::empty()
        };
        match coordinate(s, from, end) {
            Some(v) => seq![v] + rest,
            None => rest,
        }
    }
}

/// The cell that the line of `s` from `from` up to `to` gives: white space at
/// its ends does not count, and the first two coordinates among its fields
/// are the column and the row. A line with fewer gives no cell.
pub open spec fn line_cell(s: Seq<u8>, from: int, to: int) -> Option<Cell> {
    let a = trim_start(s, from, to);
    let b = trim_end(s, a, to);
    let found = coordinates(s, a, b);
    if found.len() >= 2 {
        Some(Cell { x: found[0], y: found[1] })
    } else {
        None
    }
}

/// The cells that the lines of `s` from `from` on give, in their order.
pub open spec fn cells_from(s: Seq<u8>, from: int) -> Seq<Cell>
    decreases s.len() - from,
{
    if from >= s.len() {
        Seq::empty()
    } else {
        let end = next_stop(s, NEWLINE, from, s.len() as int);
        let rest = if from <= end < s.len() {
            cells_from(s, end + 1)
        } else {
            Seq::empty()
        };
        match line_cell(s, from, end) {
            Some(c) => seq![c] + rest,
            None => rest,
        }
    }
}

/// The cells that a text gives, line by line: its first line is a heading,
/// and each line after it gives a cell or none.
pub open spec fn life_cells(s: Seq<u8>) -> Seq<Cell> {
    cells_from(s, next_stop(s, NEWLINE, 0, s.len() as int) + 1)
}

/// The numbers of the lines of `s` from `from` on that give no cell, where
/// the line at `from` has the number `line`.
pub open spec fn skipped_from(s: Seq<u8>, from: int, line: int) -> Seq<int>
    decreases s.len() - from,
{
    if from >= s.len() {
        Seq::empty()
    } else {
        let end = next_stop(s, NEWLINE, from, s.len() as int);
        let rest = if from <= end < s.len() {
            skipped_from(s, end + 1, line + 1)
        } else {
            Seq::empty()
        };
        match line_cell(s, from, end) {
            Some(_) => rest,
            None => seq![line] + rest,
        }
    }
}

/// The numbers of the lines of a text that give no cell. Lines are counted
/// from nothing: the heading is line 0 and is not among them.
pub open spec fn life_skipped(s: Seq<u8>) -> Seq<int> {
    skipped_from(s, next_stop(s, NEWLINE, 0, s.len() as int) + 1, 1)
}

/// More digits write a number that is no smaller.
pub proof fn lemma_digits_value_grows(s: Seq<u8>, from: int, mid: int, to: int)
    requires
        from <= mid <= to,
        all_digits(s, from, to),
    ensures
        0 <= digits_value(s, from, mid) <= digits_value(s, from, to),
    decreases to - mid,
{
    lemma_digits_value_nonnegative(s, from, mid);
    if mid < to {
        lemma_digits_value_grows(s, from, mid + 1, to);
        assert(is_digit(s[mid]));
    }
}

/// Digits write no negative number.
pub proof fn lemma_digits_value_nonnegative(s: Seq<u8>, from: int, to: int)
    requires
        all_digits(s, from, to),
    ensures
        0 <= digits_value(s, from, to),
    decreases to - from,
{
    if from < to {
        lemma_digits_value_nonnegative(s, from, to - 1);
        assert(is_digit(s[to - 1]));
    }
}

/// The index of the first `stop` in `text` from `from` on, below `to`; `to`
/// where there is none.
pub fn find_stop(text: &[u8], stop: u8, from: usize, to: usize) -> (end: usize)
    requires
        from <= to <= text.len(),
    ensures
        end == next_stop(text@, stop, from as int, to as int),
        from <= end <= to,
{
    let mut end = from;
    while end < to && text[end] != stop
        invariant
            from <= end <= to <= text.len(),
            next_stop(text@, stop, end as int, to as int) == next_stop(
                text@,
                stop,
                from as int,
                to as int,
            ),
        decreases to - end,
    {
        end = end + 1;
    }
    end
}

/// Whether a byte is ASCII white space.
pub fn blank(b: u8) -> (r: bool)
    ensures
        r == is_blank(b),
{
    b == 32 || (9 <= b && b <= 13)
}

/// The coordinate that `text` writes from `from` up to `to`, if it writes
/// one.
pub fn parse_coordinate(text: &[u8], from: usize, to: usize) -> (r: Option<i32>)
    requires
        from <= to <= text.len(),
    ensures
        r == coordinate(text@, from as int, to as int),
{
    if from == to {
        return None;
    }
    let negative = text[from] == 45;
    let first = if negative || text[from] == 43 {
        from + 1
    } else {
        from
    };
    if first == to {
        return None;
    }
    let limit: i64 = 0x8000_0000;
    let mut value: i64 = 0;
    let mut i = first;
    while i < to
        invariant
            from < to,
            first == from || first == from + 1,
            (first == from + 1) == (text@[from as int] == 43 || text@[from as int] == 45),
            first <= i <= to <= text.len(),
            all_digits(text@, first as int, i as int),
            value == digits_value(text@, first as int, i as int),
            0 <= value <= limit,
            limit == 0x8000_0000,
        decreases to - i,
    {
        let b = text[i];
        if b < 48 || b > 57 {
            proof {
                assert(!is_digit(text@[i as int]));
                assert(!all_digits(text@, first as int, to as int));
            }
            return None;
        }
        value = value * 10 + (b - 48) as i64;
        i = i + 1;
        if value > limit {
            proof {
                if all_digits(text@, first as int, to as int) {
                    lemma_digits_value_grows(text@, first as int, i as int, to as int);
                    assert(digits_value(text@, first as int, to as int) > 0x8000_0000);
                }
                if first == from && all_digits(text@, from as int, to as int) {
                    assert(digits_value(text@, from as int, to as int) > 0x8000_0000);
                }
            }
            return None;
        }
    }
    if negative {
        Some((-value) as i32)
    } else if value == limit {
        None
    } else {
        Some(value as i32)
    }
}

/// The coordinates among the fields of `text` from `from` up to `to`.
pub fn parse_coordinates(text: &[u8], from: usize, to: usize) -> (found: Vec<i32>)
    requires
        from <= to <= text.len(),
    ensures
        found@ == coordinates(text@, from as int, to as int),
{
    let mut found: Vec<i32> = Vec::new();
    let mut at = from;
    loop
        invariant_except_break
            from <= at <= to <= text.len(),
            found@ + coordinates(text@, at as int, to as int) == coordinates(
                text@,
                from as int,
                to as int,
            ),
        ensures
            found@ == coordinates(text@, from as int, to as int),
        decreases to - at,
    {
        let end = find_stop(text, SPACE, at, to);
        let ghost before = found@;
        match parse_coordinate(text, at, end) {
            Some(v) => {
                found.push(v);
            },
            None => {},
        }
        if end < to {
            proof {
                let rest = coordinates(text@, end + 1, to as int);
                assert(found@ + rest =~= before + coordinates(text@, at as int, to as int));
            }
            at = end + 1;
        } else {
            proof {
                assert(found@ =~= before + coordinates(text@, at as int, to as int));
            }
            break ;
        }
    }
    found
}

/// The cell that the line of `text` from `from` up to `to` gives, if it gives
/// one.
pub fn parse_line(text: &[u8], from: usize, to: usize) -> (r: Option<Cell>)
    requires
        from <= to <= text.len(),
    ensures
        r == line_cell(text@, from as int, to as int),
{
    let mut a = from;
    while a < to && blank(text[a])
        invariant
            from <= a <= to <= text.len(),
            trim_start(text@, a as int, to as int) == trim_start(text@, from as int, to as int),
        decreases to - a,
    {
        a = a + 1;
    }
    let mut b = to;
    while a < b && blank(text[b - 1])
        invariant
            a <= b <= to <= text.len(),
            trim_end(text@, a as int, b as int) == trim_end(text@, a as int, to as int),
        decreases b - a,
    {
        b = b - 1;
    }
    let found = parse_coordinates(text, a, b);
    if found.len() >= 2 {
        Some(Cell { x: found[0], y: found[1] })
    } else {
        None
    }
}

/// The cells that a text gives, each once and where it stands first: the
/// first line is a heading, and each line after it gives a cell or none.
pub fn parse_life(text: &[u8]) -> (grid: Grid)
    ensures
        grid.wf(),
        grid.spec_seq() == distinct(life_cells(text@)),
        grid@ == life_cells(text@).to_set(),
        grid.spec_seq().len() == life_cells(text@).to_set().len(),
{
    let mut grid = Grid::new();
    proof {
        lemma_distinct(life_cells(text@));
    }
    let heading = find_stop(text, NEWLINE, 0, text.len());
    if heading == text.len() {
        return grid;
    }
    let mut at = heading + 1;
    while at < text.len()
        invariant
            at <= text.len(),
            grid.wf(),
            distinct_onto(grid.spec_seq(), cells_from(text@, at as int)) == distinct(
                life_cells(text@),
            ),
        decreases text.len() - at,
    {
        let end = find_stop(text, NEWLINE, at, text.len());
        let ghost rest = cells_from(
            text@,
            if end < text.len() {
                end + 1
            } else {
                end as int
            },
        );
        match parse_line(text, at, end) {
            Some(c) => {
                proof {
                    assert(cells_from(text@, at as int) == seq![c] + rest);
                    assert((seq![c] + rest).drop_first() =~= rest);
                }
                grid.insert(c);
            },
            None => {},
        }
        if end < text.len() {
            at = end + 1;
        } else {
            at = end;
        }
    }
    grid
}

/// The numbers of the lines that give no cell, in their order. Lines are
/// counted from nothing: the heading is line 0 and is not among them.
pub fn lines_without_cell(text: &[u8]) -> (lines: Vec<usize>)
    ensures
        lines@.map_values(|n: usize| n as int) == life_skipped(text@),
{
    let mut lines: Vec<usize> = Vec::new();
    let heading = find_stop(text, NEWLINE, 0, text.len());
    if heading == text.len() {
        assert(lines@.map_values(|n: usize| n as int) =~= life_skipped(text@));
        return lines;
    }
    let mut at = heading + 1;
    let mut line: usize = 1;
    proof {
        assert(lines@.map_values(|n: usize| n as int) + skipped_from(text@, at as int, 1)
            =~= life_skipped(text@));
    }
    while at < text.len()
        invariant
            at <= text.len(),
            1 <= line <= at,
            lines@.map_values(|n: usize| n as int) + skipped_from(text@, at as int, line as int)
                == life_skipped(text@),
        decreases text.len() - at,
    {
        let end = find_stop(text, NEWLINE, at, text.len());
        let ghost before = lines@.map_values(|n: usize| n as int);
        match parse_line(text, at, end) {
            Some(_) => {},
            None => {
                lines.push(line);
                proof {
                    assert(lines@.map_values(|n: usize| n as int) =~= before + seq![line as int]);
                }
            },
        }
        if end < text.len() {
            proof {
                assert(lines@.map_values(|n: usize| n as int) + skipped_from(
                    text@,
                    end + 1,
                    line + 1,
                ) =~= before + skipped_from(text@, at as int, line as int));
            }
            at = end + 1;
            line = line + 1;
        } else {
            proof {
                assert(lines@.map_values(|n: usize| n as int) + skipped_from(
                    text@,
                    end as int,
                    line as int,
                ) =~= before + skipped_from(text@, at as int, line as int));
            }
            at = end;
        }
    }
    proof {
        assert(lines@.map_values(|n: usize| n as int) + Seq::<int>::empty()
            =~= lines@.map_values(|n: usize| n as int));
    }
    lines
}

} // verus!
