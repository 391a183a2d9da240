//! Annotating a minefield: each cell that holds no mine gets the number of
//! mines next to it.

use vstd::prelude::*;
use crate::chars::{
    char_is_numeric, chars_of, digit_char, digit_value, is_ascii_digit, lemma_texts_push, string_of,
    texts_of,
};

verus! {

/// The cell holds a count: it is blank or numeric.
pub open spec fn holds_count(c: char) -> bool {
    c == ' ' || char_is_numeric(c)
}

/// The count that the cell holds: its digit, or nothing for a blank.
pub open spec fn count_of(c: char) -> int {
    if char_is_numeric(c) {
        digit_value(c)
    } else {
        0
    }
}

/// One if `line` has a mine at position `i`, else zero.
pub open spec fn mine_at(line: Seq<char>, i: int) -> int {
    if 0 <= i < line.len() && line[i] == '*' {
        1
    } else {
        0
    }
}

/// What the cell at position `i` of `line` becomes when `extra` mines are
/// counted in: a counting cell shows its count raised by `extra`, a mine
/// stays, and any other cell is left out.
pub open spec fn cell_out(line: Seq<char>, i: int, extra: int) -> Seq<char> {
    if holds_count(line[i]) {
        seq![digit_char(count_of(line[i]) + extra)]
    } else if line[i] == '*' {
        seq!['*']
    } else {
        Seq::empty()
    }
}

/// The cell at position `i` of `line` can be raised by `extra`: its count
/// is a decimal digit and stays one.
pub open spec fn cell_fits(line: Seq<char>, i: int, extra: int) -> bool {
    holds_count(line[i]) ==> {
        &&& char_is_numeric(line[i]) ==> is_ascii_digit(line[i])
        &&& count_of(line[i]) + extra < 10
    }
}

/// The number of mines right beside position `i` in `line`.
pub open spec fn mines_beside(line: Seq<char>, i: int) -> int {
    mine_at(line, i - 1) + mine_at(line, i + 1)
}

/// The number of mines that `other` holds at positions `i - 1` to `i + 1`.
pub open spec fn mines_across(other: Seq<char>, i: int) -> int {
    mine_at(other, i) + mine_at(other, i - 1) + mine_at(other, i + 1)
}

/// The first `n` cells of `line`, each with the mines beside it counted in.
pub open spec fn same_line_upto(line: Seq<char>, n: int) -> Seq<char>
    decreases n,
{
    if n <= 0 {
        Seq::empty()
    } else {
        same_line_upto(line, n - 1) + cell_out(line, n - 1, mines_beside(line, n - 1))
    }
}

/// `line` with the mines beside each cell counted in.
pub open spec fn same_line(line: Seq<char>) -> Seq<char> {
    same_line_upto(line, line.len() as int)
}

/// Every count of `line` stays a decimal digit when the mines beside it are
/// counted in.
pub open spec fn same_line_fits(line: Seq<char>) -> bool {
    forall|i: int| 0 <= i < line.len() ==> cell_fits(line, i, #[trigger] mines_beside(line, i))
}

/// The first `n` cells of `current`, each with the mines of `other` at the
/// same position and right beside it counted in.
pub open spec fn across_upto(current: Seq<char>, other: Seq<char>, n: int) -> Seq<char>
    decreases n,
{
    if n <= 0 {
        Seq::empty()
    } else {
        across_upto(current, other, n - 1) + cell_out(
            current,
            n - 1,
            mines_across(other, n - 1),
        )
    }
}

/// `current` with the mines of the neighbouring line `other` counted in.
pub open spec fn across(current: Seq<char>, other: Seq<char>) -> Seq<char> {
    across_upto(current, other, current.len() as int)
}

/// `other` reaches as far as the counts of `current`, and every count of
/// `current` stays a decimal digit when the mines of `other` are counted in.
pub open spec fn across_fits(current: Seq<char>, other: Seq<char>) -> bool {
    forall|i: int|
        0 <= i < current.len() ==> {
            &&& cell_fits(current, i, #[trigger] mines_across(other, i))
            &&& holds_count(current[i]) ==> i < other.len()
        }
}

/// Every character of every row is `ch`.
pub open spec fn all_cells_are(rows: Seq<Seq<char>>, ch: char) -> bool {
    forall|i: int, j: int| 0 <= i < rows.len() && 0 <= j < rows[i].len() ==> rows[i][j] == ch
}

/// Some row is empty.
pub open spec fn some_row_empty(rows: Seq<Seq<char>>) -> bool {
    exists|i: int| 0 <= i < rows.len() && (#[trigger] rows[i]).len() == 0
}

/// The field needs no counting: a row is empty, or all cells are mines, or
/// all cells are blank.
pub open spec fn is_plain(rows: Seq<Seq<char>>) -> bool {
    some_row_empty(rows) || all_cells_are(rows, '*') || all_cells_are(rows, ' ')
}

/// Row `i` with the mines of its own line counted in.
pub open spec fn row_first(rows: Seq<Seq<char>>, i: int) -> Seq<char> {
    same_line(rows[i])
}

/// Row `i` with the mines of its own line and of the row above counted in.
pub open spec fn row_second(rows: Seq<Seq<char>>, i: int) -> Seq<char> {
    if i > 0 {
        across(row_first(rows, i), rows[i - 1])
    } else {
        row_first(rows, i)
    }
}

/// Row `i` with the mines of its own line and of the rows above and below counted in.
pub open spec fn annotated_row(rows: Seq<Seq<char>>, i: int) -> Seq<char> {
    if i < rows.len() - 1 {
        across(row_second(rows, i), rows[i + 1])
    } else {
        row_second(rows, i)
    }
}

/// Every count of the field stays a decimal digit at each step of the counting.
pub open spec fn field_fits(rows: Seq<Seq<char>>) -> bool {
    forall|i: int|
        0 <= i < rows.len() ==> {
            &&& #[trigger] same_line_fits(rows[i])
            &&& i > 0 ==> across_fits(row_first(rows, i), rows[i - 1])
            &&& i < rows.len() - 1 ==> across_fits(row_second(rows, i), rows[i + 1])
        }
}

/// The characters of each row.
pub open spec fn rows_of(minefield: Seq<&str>) -> Seq<Seq<char>> {
    Seq::new(minefield.len(), |i: int| minefield[i]@)
}

/// What `annotate` makes of the field: the rows as they are if the field is
/// plain, and then every row with the mines around each cell counted in.
pub open spec fn annotated(rows: Seq<Seq<char>>) -> Seq<Seq<char>> {
    let counted = Seq::new(rows.len(), |i: int| annotated_row(rows, i));
    if rows.len() > 0 && is_plain(rows) {
        rows + counted
    } else {
        counted
    }
}

/// Annotates the field row by row. A plain field (one with an empty row, or
/// of mines only, or of blanks only) is given back first as it is.
pub fn annotate(minefield: &[&str]) -> (r: Vec<String>)
    requires
        field_fits(rows_of(minefield@)),
    ensures
        texts_of(r@) == annotated(rows_of(minefield@)),
{
    let ghost rows = rows_of(minefield@);
    let mut new_mf: Vec<String> = Vec::new();
    let n = minefield.len();
    if n == 0 {
        assert(texts_of(new_mf@) =~= annotated(rows));
        return new_mf;
    }
    let plain = has_empty_row(minefield) || match_all_characters(minefield, '*')
        || match_all_characters(minefield, ' ');
    if plain {
        let mut i: usize = 0;
        while i < n
            invariant
                i <= n,
                n == minefield@.len(),
                rows == rows_of(minefield@),
                texts_of(new_mf@) == rows.take(i as int),
            decreases n - i,
        {
            let row = minefield[i].to_owned();
            proof {
                lemma_texts_push(new_mf@, row);
            }
            new_mf.push(row);
            assert(texts_of(new_mf@) =~= rows.take(i as int + 1));
            i += 1;
        }
        assert(rows.take(n as int) =~= rows);
    }
    let ghost head = texts_of(new_mf@);
    let mut i: usize = 0;
    while i < n
        invariant
            i <= n,
            n == minefield@.len(),
            rows == rows_of(minefield@),
            field_fits(rows),
            texts_of(new_mf@) == head + Seq::new(i as nat, |k: int| annotated_row(rows, k)),
        decreases n - i,
    {
        assert(same_line_fits(rows[i as int]));
        let here = chars_of(minefield[i]);
        let mut ann_line = lookup_same_line(&here);
        if i > 0 {
            let above = chars_of(minefield[i - 1]);
            ann_line = lookup_above_bottom(&ann_line, &above);
        }
        if i < n - 1 {
            let below = chars_of(minefield[i + 1]);
            ann_line = lookup_above_bottom(&ann_line, &below);
        }
        let row = string_of(&ann_line);
        proof {
            lemma_texts_push(new_mf@, row);
            assert(row@ == annotated_row(rows, i as int));
        }
        new_mf.push(row);
        assert(texts_of(new_mf@) =~= head + Seq::new(
            (i + 1) as nat,
            |k: int| annotated_row(rows, k),
        ));
        i += 1;
    }
    assert(texts_of(new_mf@) =~= annotated(rows));
    new_mf
}

/// Whether some row of the field is empty.
pub fn has_empty_row(minefield: &[&str]) -> (found: bool)
    ensures
        found == some_row_empty(rows_of(minefield@)),
{
    let mut i: usize = 0;
    while i < minefield.len()
        invariant
            i <= minefield.len(),
            forall|k: int| 0 <= k < i ==> (#[trigger] rows_of(minefield@)[k]).len() != 0,
        decreases minefield.len() - i,
    {
        if minefield[i].is_empty() {
            assert(rows_of(minefield@)[i as int].len() == 0);
            return true;
        }
        i += 1;
    }
    false
}

/// Whether every character of every row is `ch`.
pub fn match_all_characters(minefield: &[&str], ch: char) -> (all: bool)
    ensures
        all == all_cells_are(rows_of(minefield@), ch),
{
    let ghost rows = rows_of(minefield@);
    let mut i: usize = 0;
    while i < minefield.len()
        invariant
            i <= minefield.len(),
            rows == rows_of(minefield@),
            forall|a: int, b: int| 0 <= a < i && 0 <= b < rows[a].len() ==> rows[a][b] == ch,
        decreases minefield.len() - i,
    {
        let row = chars_of(minefield[i]);
        let mut j: usize = 0;
        while j < row.len()
            invariant
                j <= row.len(),
                i < minefield.len(),
                rows == rows_of(minefield@),
                row@ == rows[i as int],
                forall|b: int| 0 <= b < j ==> row@[b] == ch,
            decreases row.len() - j,
        {
            if row[j] != ch {
                assert(rows[i as int][j as int] != ch);
                return false;
            }
            j += 1;
        }
        i += 1;
    }
    true
}

/// The line with the mines beside each cell counted in.
pub fn lookup_same_line(line: &Vec<char>) -> (r: Vec<char>)
    requires
        same_line_fits(line@),
    ensures
        r@ == same_line(line@),
{
    let mut ann_line: Vec<char> = Vec::new();
    let mut i: usize = 0;
    while i < line.len()
        invariant
            i <= line.len(),
            same_line_fits(line@),
            ann_line@ == same_line_upto(line@, i as int),
        decreases line.len() - i,
    {
        let ghost extra = mines_beside(line@, i as int);
        assert(cell_fits(line@, i as int, extra));
        if line[i] == ' ' || line[i].is_numeric() {
            let mut count: u32 = 0;
            if line[i].is_numeric() {
                count = line[i].to_digit(10).unwrap();
            }
            if i > 0 && line[i - 1] == '*' {
                count += 1;
            }
            if i < line.len() - 1 && line[i + 1] == '*' {
                count += 1;
            }
            assert(count == count_of(line@[i as int]) + extra);
            ann_line.push(char::from_digit(count, 10).unwrap());
        } else if line[i] == '*' {
            ann_line.push(line[i]);
        }
        assert(ann_line@ =~= same_line_upto(line@, i as int) + cell_out(line@, i as int, extra));
        i += 1;
    }
    ann_line
}

/// The line `current` with the mines of the neighbouring line `other` counted in.
pub fn lookup_above_bottom(current: &Vec<char>, other: &Vec<char>) -> (r: Vec<char>)
    requires
        across_fits(current@, other@),
    ensures
        r@ == across(current@, other@),
{
    let mut ann_line: Vec<char> = Vec::new();
    let mut i: usize = 0;
    while i < current.len()
        invariant
            i <= current.len(),
            across_fits(current@, other@),
            ann_line@ == across_upto(current@, other@, i as int),
        decreases current.len() - i,
    {
        let ghost extra = mines_across(other@, i as int);
        assert(cell_fits(current@, i as int, extra));
        if current[i] == ' ' || current[i].is_numeric() {
            let mut count: u32 = 0;
            if current[i].is_numeric() {
                count = current[i].to_digit(10).unwrap();
            }
            if other[i] == '*' {
                count += 1;
            }
            if i > 0 && other[i - 1] == '*' {
                count += 1;
            }
            if i < other.len() - 1 && other[i + 1] == '*' {
                count += 1;
            }
            assert(count == count_of(current@[i as int]) + extra);
            ann_line.push(char::from_digit(count, 10).unwrap());
        } else if current[i] == '*' {
            ann_line.push(current[i]);
        }
        assert(ann_line@ =~= across_upto(current@, other@, i as int) + cell_out(
            current@,
            i as int,
            extra,
        ));
        i += 1;
    }
    ann_line
}

/// One if `line` has a mine at position `i`, else zero.
fn mine_count(line: &Vec<char>, i: usize) -> (n: u32)
    ensures
        n == mine_at(line@, i as int),
{
    if i < line.len() && line[i] == '*' {
        1
    } else {
        0
    }
}

/// Whether the cell at position `i` of `line` can be raised by `extra`.
fn fits_cell(line: &Vec<char>, i: usize, extra: u32) -> (r: bool)
    requires
        i < line@.len(),
        extra <= 3,
    ensures
        r == cell_fits(line@, i as int, extra as int),
{
    let c = line[i];
    if c.is_numeric() {
        if '0' <= c && c <= '9' {
            c.to_digit(10).unwrap() + extra < 10
        } else {
            false
        }
    } else {
        true
    }
}

/// Whether every count of `line` stays a decimal digit when the mines
/// beside it are counted in.
pub fn fits_same_line(line: &Vec<char>) -> (r: bool)
    ensures
        r == same_line_fits(line@),
{
    let mut i: usize = 0;
    while i < line.len()
        invariant
            i <= line.len(),
            forall|j: int| 0 <= j < i ==> cell_fits(line@, j, #[trigger] mines_beside(line@, j)),
        decreases line.len() - i,
    {
        let left = if i > 0 {
            mine_count(line, i - 1)
        } else {
            0
        };
        let right = if i < usize::MAX {
            mine_count(line, i + 1)
        } else {
            0
        };
        if !fits_cell(line, i, left + right) {
            assert(!cell_fits(line@, i as int, mines_beside(line@, i as int)));
            return false;
        }
        i += 1;
    }
    true
}

/// Whether `other` reaches as far as the counts of `current`, and every
/// count of `current` stays a decimal digit when the mines of `other` are
/// counted in.
pub fn fits_across(current: &Vec<char>, other: &Vec<char>) -> (r: bool)
    ensures
        r == across_fits(current@, other@),
{
    let mut i: usize = 0;
    while i < current.len()
        invariant
            i <= current.len(),
            forall|j: int|
                0 <= j < i ==> cell_fits(current@, j, #[trigger] mines_across(other@, j)),
            forall|j: int| 0 <= j < i && holds_count(#[trigger] current@[j]) ==> j < other@.len(),
        decreases current.len() - i,
    {
        let left = if i > 0 {
            mine_count(other, i - 1)
        } else {
            0
        };
        let right = if i < usize::MAX {
            mine_count(other, i + 1)
        } else {
            0
        };
        let extra = mine_count(other, i) + left + right;
        let c = current[i];
        assert(extra == mines_across(other@, i as int));
        if !fits_cell(current, i, extra) {
            assert(!cell_fits(current@, i as int, mines_across(other@, i as int)));
            return false;
        }
        if i >= other.len() && (c == ' ' || c.is_numeric()) {
            assert(holds_count(current@[i as int]) && i >= other@.len());
            assert(cell_fits(current@, i as int, mines_across(other@, i as int)));
            return false;
        }
        assert(cell_fits(current@, i as int, mines_across(other@, i as int)));
        assert(holds_count(current@[i as int]) ==> i < other@.len());
        i += 1;
    }
    true
}

/// The line with the mines beside each cell counted in, or `None` where a
/// count would not stay a decimal digit.
pub fn checked_same_line(line: &Vec<char>) -> (r: Option<Vec<char>>)
    ensures
        match r {
            Some(out) => same_line_fits(line@) && out@ == same_line(line@),
            None => !same_line_fits(line@),
        },
{
    if fits_same_line(line) {
        Some(lookup_same_line(line))
    } else {
        None
    }
}

/// The line `current` with the mines of the neighbouring line `other`
/// counted in, or `None` where `other` is too short or a count would not
/// stay a decimal digit.
pub fn checked_above_bottom(current: &Vec<char>, other: &Vec<char>) -> (r: Option<Vec<char>>)
    ensures
        match r {
            Some(out) => across_fits(current@, other@) && out@ == across(current@, other@),
            None => !across_fits(current@, other@),
        },
{
    if fits_across(current, other) {
        Some(lookup_above_bottom(current, other))
    } else {
        None
    }
}

/// Whether every count of the field stays a decimal digit at each step of
/// the counting.
pub fn fits_field(minefield: &[&str]) -> (r: bool)
    ensures
        r == field_fits(rows_of(minefield@)),
{
    let ghost rows = rows_of(minefield@);
    let n = minefield.len();
    let mut i: usize = 0;
    while i < n
        invariant
            i <= n,
            n == minefield@.len(),
            rows == rows_of(minefield@),
            forall|k: int| 0 <= k < i ==> #[trigger] same_line_fits(rows[k]),
            forall|k: int|
                0 < k < i ==> across_fits(#[trigger] row_first(rows, k), rows[k - 1]),
            forall|k: int|
                0 <= k < i && k < rows.len() - 1 ==> across_fits(
                    #[trigger] row_second(rows, k),
                    rows[k + 1],
                ),
        decreases n - i,
    {
        let here = chars_of(minefield[i]);
        assert(here@ == rows[i as int]);
        let mut line = match checked_same_line(&here) {
            Some(line) => line,
            None => {
                assert(!same_line_fits(rows[i as int]));
                return false;
            },
        };
        assert(line@ == row_first(rows, i as int));
        if i > 0 {
            let above = chars_of(minefield[i - 1]);
            assert(above@ == rows[i as int - 1]);
            line = match checked_above_bottom(&line, &above) {
                Some(line) => line,
                None => {
                    assert(same_line_fits(rows[i as int]));
                    assert(!across_fits(row_first(rows, i as int), rows[i as int - 1]));
                    return false;
                },
            };
        }
        assert(line@ == row_second(rows, i as int));
        if i < n - 1 {
            let below = chars_of(minefield[i + 1]);
            assert(below@ == rows[i as int + 1]);
            if !fits_across(&line, &below) {
                assert(same_line_fits(rows[i as int]));
                assert(!across_fits(row_second(rows, i as int), rows[i as int + 1]));
                return false;
            }
        }
        assert(same_line_fits(rows[i as int]));
        i += 1;
    }
    true
}

/// Annotates the field, or returns `None` where a count would not stay a
/// decimal digit at some step of the counting.
pub fn checked_annotate(minefield: &[&str]) -> (r: Option<Vec<String>>)
    ensures
        match r {
            Some(lines) => field_fits(rows_of(minefield@)) && texts_of(lines@) == annotated(
                rows_of(minefield@),
            ),
            None => !field_fits(rows_of(minefield@)),
        },
{
    if fits_field(minefield) {
        Some(annotate(minefield))
    } else {
        None
    }
}

} // verus!
