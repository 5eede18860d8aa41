//! The run-length-encoded pattern format.
//!
//! A text in this format is: any number of comment lines, each a `#` with at least one
//! more character; a header line, which may say anything but must not be empty; again
//! any number of comment lines; and at least one row. A row is one or more runs, then
//! perhaps a number, then `$` or `!`. A run is perhaps a number, the count, and `o` for
//! live cells or `b` for dead ones; white space may stand before and after it. The
//! number before the `$` or `!` adds that many dead cells to the row. One line feed may
//! follow the last row, and nothing else. The pattern is as wide as the longest row; a
//! shorter row is filled up with dead cells.
//!
//! Every part is read as far as it goes and is never given up again: where what
//! follows does not fit, the text is not in the format.

use crate::pattern::{
    extend, grid, lemma_longest, pattern_of, reads_as, BoardAsset, Pattern, PatternError,
};
use crate::text::{decode, lemma_line_end, line_end};
use vstd::prelude::*;
use vstd::utf8::{decode_utf8, valid_utf8};

verus! {

/// The length of the white space that starts at `at`: one for a blank, a tab or a line
/// feed, two for a carriage return with a line feed, nought where no white space starts.
pub open spec fn blank_len(text: Seq<char>, at: int) -> int {
    if at < 0 || at >= text.len() {
        0
    } else if text[at] == ' ' || text[at] == '\t' || text[at] == '\n' {
        1
    } else if text[at] == '\r' && at + 1 < text.len() && text[at + 1] == '\n' {
        2
    } else {
        0
    }
}

/// The place after all the white space that starts at `at`.
pub open spec fn skip_blanks(text: Seq<char>, at: int) -> int
    decreases text.len() - at,
{
    if blank_len(text, at) > 0 {
        skip_blanks(text, at + blank_len(text, at))
    } else {
        at
    }
}

/// Whether a character is a decimal digit.
pub open spec fn is_digit(c: char) -> bool {
    '0' <= c <= '9'
}

/// The number that a digit stands for.
pub open spec fn digit_of(c: char) -> nat {
    if is_digit(c) {
        (c as u32 - '0' as u32) as nat
    } else {
        0
    }
}

/// The place after all the digits that start at `at`.
pub open spec fn digits_end(text: Seq<char>, at: int) -> int
    decreases text.len() - at,
{
    if 0 <= at < text.len() && is_digit(text[at]) {
        digits_end(text, at + 1)
    } else {
        at
    }
}

/// The number that the digits from `from` up to `to` spell.
pub open spec fn digits_value(text: Seq<char>, from: int, to: int) -> nat
    decreases to - from,
{
    if to <= from {
        0
    } else {
        digits_value(text, from, to - 1) * 10 + digit_of(text[to - 1])
    }
}

/// The number that starts at `at` and the place after it, if digits start there and the
/// number they spell fits the machine's word.
pub open spec fn number(text: Seq<char>, at: int) -> Option<(nat, int)> {
    let end = digits_end(text, at);
    if end > at && digits_value(text, at, end) <= usize::MAX {
        Some((digits_value(text, at, end), end))
    } else {
        None
    }
}

/// A run of cells: how many, and whether they are alive.
pub struct Run {
    pub count: nat,
    pub alive: bool,
}

impl Run {
    /// The cells of the run.
    pub open spec fn cells(self) -> Seq<bool> {
        Seq::new(self.count, |i: int| self.alive)
    }
}

/// The run that starts at `at` and the place after it, if one starts there: white
/// space, perhaps a count, `o` or `b`, and white space again. Without a count the run is
/// one cell long.
pub open spec fn statement(text: Seq<char>, at: int) -> Option<(Run, int)> {
    let begin = skip_blanks(text, at);
    let (count, tag) = match number(text, begin) {
        Some((count, tag)) => (count, tag),
        None => (1nat, begin),
    };
    if 0 <= tag < text.len() && (text[tag] == 'o' || text[tag] == 'b') {
        Some((Run { count, alive: text[tag] == 'o' }, skip_blanks(text, tag + 1)))
    } else {
        None
    }
}

/// The cells of all the runs that start at `at`, one after another, the place after
/// them, and how many runs there are.
pub open spec fn statements(text: Seq<char>, at: int) -> (Seq<bool>, int, nat)
    decreases text.len() - at,
    via statements_advance
{
    if 0 <= at <= text.len() {
        match statement(text, at) {
            Some((run, next)) => {
                let (cells, end, runs) = statements(text, next);
                (run.cells() + cells, end, runs + 1)
            },
            None => (seq![], at, 0),
        }
    } else {
        (seq![], at, 0)
    }
}

#[via_fn]
proof fn statements_advance(text: Seq<char>, at: int) {
    if 0 <= at <= text.len() {
        lemma_statement_advances(text, at);
    }
}

/// A run is at least one character long and ends inside the text.
pub proof fn lemma_statement_advances(text: Seq<char>, at: int)
    requires
        0 <= at <= text.len(),
    ensures
        match statement(text, at) {
            Some((run, next)) => at < next <= text.len(),
            None => true,
        },
{
    let begin = skip_blanks(text, at);
    lemma_skip_blanks_bounds(text, at);
    lemma_digits_end_bounds(text, begin);
    if statement(text, at).is_some() {
        let tag = match number(text, begin) {
            Some((count, tag)) => tag,
            None => begin,
        };
        lemma_skip_blanks_bounds(text, tag + 1);
    }
}

/// The row that starts at `at` and the place after it, if one starts there: one or
/// more runs, perhaps a number of dead cells to add, and `$` or `!`.
pub open spec fn row(text: Seq<char>, at: int) -> Option<(Seq<bool>, int)> {
    let (cells, after, runs) = statements(text, at);
    let (pad, mark) = match number(text, after) {
        Some((pad, mark)) => (pad, mark),
        None => (0nat, after),
    };
    if runs > 0 && 0 <= mark < text.len() && (text[mark] == '$' || text[mark] == '!') {
        Some((cells + Seq::new(pad, |i: int| false), mark + 1))
    } else {
        None
    }
}

/// The runs that start at `at` end at or after `at`, inside the text.
pub proof fn lemma_statements_bounds(text: Seq<char>, at: int)
    requires
        0 <= at <= text.len(),
    ensures
        at <= statements(text, at).1 <= text.len(),
    decreases text.len() - at,
{
    lemma_statement_advances(text, at);
    match statement(text, at) {
        Some((run, next)) => {
            lemma_statements_bounds(text, next);
        },
        None => {},
    }
}

/// A row is at least one character long and ends inside the text.
pub proof fn lemma_row_advances(text: Seq<char>, at: int)
    requires
        0 <= at <= text.len(),
    ensures
        match row(text, at) {
            Some((cells, next)) => at < next <= text.len(),
            None => true,
        },
{
    lemma_statements_bounds(text, at);
    lemma_digits_end_bounds(text, statements(text, at).1);
}

/// All the rows that start at `at`, one after another, and the place after them.
pub open spec fn rows(text: Seq<char>, at: int) -> (Seq<Seq<bool>>, int)
    decreases text.len() - at,
    via rows_advance
{
    if 0 <= at <= text.len() {
        match row(text, at) {
            Some((cells, next)) => {
                let (more, end) = rows(text, next);
                (seq![cells] + more, end)
            },
            None => (seq![], at),
        }
    } else {
        (seq![], at)
    }
}

#[via_fn]
proof fn rows_advance(text: Seq<char>, at: int) {
    if 0 <= at <= text.len() {
        lemma_row_advances(text, at);
    }
}

/// The place after the line that starts at `at`, if that line is not empty and ends
/// with a line feed.
pub open spec fn full_line(text: Seq<char>, at: int) -> Option<int> {
    let end = at + line_end(text.skip(at));
    if 0 <= at < end < text.len() {
        Some(end + 1)
    } else {
        None
    }
}

/// The place after the comment line that starts at `at`, if one starts there.
pub open spec fn comment(text: Seq<char>, at: int) -> Option<int> {
    if 0 <= at < text.len() && text[at] == '#' {
        full_line(text, at + 1)
    } else {
        None
    }
}

/// The place after all the comment lines that start at `at`.
pub open spec fn comments(text: Seq<char>, at: int) -> int
    decreases text.len() - at,
{
    match comment(text, at) {
        Some(next) => comments(text, next),
        None => at,
    }
}

/// The rows of a text in the format, if it is in the format.
pub open spec fn rle_rows(text: Seq<char>) -> Option<Seq<Seq<bool>>> {
    match full_line(text, comments(text, 0)) {
        Some(body) => {
            let (rows, after) = rows(text, comments(text, body));
            let end = if 0 <= after < text.len() && text[after] == '\n' {
                after + 1
            } else {
                after
            };
            if rows.len() > 0 && end == text.len() {
                Some(rows)
            } else {
                None
            }
        },
        None => None,
    }
}

/// What bytes in the run-length-encoded format read as: the rectangle that the rows of
/// the text make.
pub open spec fn rle_pattern(bytes: Seq<u8>) -> Result<Pattern, PatternError> {
    if !valid_utf8(bytes) {
        Err(PatternError::Encoding)
    } else {
        match rle_rows(decode_utf8(bytes)) {
            Some(rows) => pattern_of(rows),
            None => Err(PatternError::Syntax),
        }
    }
}

/// All white space that starts at `at` ends at or after `at`, inside the text.
pub proof fn lemma_skip_blanks_bounds(text: Seq<char>, at: int)
    requires
        0 <= at <= text.len(),
    ensures
        at <= skip_blanks(text, at) <= text.len(),
    decreases text.len() - at,
{
    if blank_len(text, at) > 0 {
        lemma_skip_blanks_bounds(text, at + blank_len(text, at));
    }
}

/// All digits that start at `at` end at or after `at`, inside the text.
pub proof fn lemma_digits_end_bounds(text: Seq<char>, at: int)
    requires
        0 <= at <= text.len(),
    ensures
        at <= digits_end(text, at) <= text.len(),
    decreases text.len() - at,
{
    if at < text.len() && is_digit(text[at]) {
        lemma_digits_end_bounds(text, at + 1);
    }
}

/// More digits spell no smaller a number.
pub proof fn lemma_digits_value_grows(text: Seq<char>, from: int, mid: int, to: int)
    requires
        from <= mid <= to,
    ensures
        digits_value(text, from, mid) <= digits_value(text, from, to),
    decreases to - mid,
{
    if mid < to {
        lemma_digits_value_grows(text, from, mid, to - 1);
    }
}

/// Skips the white space that starts at `at`.
fn pass_blanks(chars: &Vec<char>, at: usize) -> (next: usize)
    requires
        at <= chars.len(),
    ensures
        next == skip_blanks(chars@, at as int),
        at <= next <= chars.len(),
{
    let mut i: usize = at;
    loop
        invariant
            at <= i <= chars.len(),
            skip_blanks(chars@, at as int) == skip_blanks(chars@, i as int),
        decreases chars.len() - i,
    {
        if i < chars.len() && (chars[i] == ' ' || chars[i] == '\t' || chars[i] == '\n') {
            i = i + 1;
        } else if i < chars.len() && chars[i] == '\r' && i + 1 < chars.len() && chars[i + 1]
            == '\n' {
            i = i + 2;
        } else {
            return i;
        }
    }
}

/// Reads the number that starts at `at`.
fn read_number(chars: &Vec<char>, at: usize) -> (read: Option<(usize, usize)>)
    requires
        at <= chars.len(),
    ensures
        match read {
            Some((value, next)) => number(chars@, at as int) == Some((value as nat, next as int))
                && at < next <= chars.len(),
            None => number(chars@, at as int).is_none(),
        },
{
    let mut i: usize = at;
    let mut value: usize = 0;
    proof {
        lemma_digits_end_bounds(chars@, at as int);
    }
    while i < chars.len() && '0' <= chars[i] && chars[i] <= '9'
        invariant
            at <= i <= chars.len(),
            digits_end(chars@, at as int) == digits_end(chars@, i as int),
            value == digits_value(chars@, at as int, i as int),
        decreases chars.len() - i,
    {
        let digit: usize = (chars[i] as u32 - '0' as u32) as usize;
        proof {
            lemma_digits_end_bounds(chars@, i + 1);
            lemma_digits_value_grows(chars@, at as int, i + 1, digits_end(chars@, at as int));
        }
        if value > (usize::MAX - digit) / 10 {
            return None;
        }
        value = value * 10 + digit;
        i = i + 1;
    }
    if i > at {
        Some((value, i))
    } else {
        None
    }
}

/// Reads the run that starts at `at`.
fn read_statement(chars: &Vec<char>, at: usize) -> (read: Option<(usize, bool, usize)>)
    requires
        at <= chars.len(),
    ensures
        match read {
            Some((count, alive, next)) => statement(chars@, at as int) == Some(
                (Run { count: count as nat, alive }, next as int),
            ) && at < next <= chars.len(),
            None => statement(chars@, at as int).is_none(),
        },
{
    let begin = pass_blanks(chars, at);
    let (count, tag) = match read_number(chars, begin) {
        Some((count, tag)) => (count, tag),
        None => (1, begin),
    };
    if tag < chars.len() && (chars[tag] == 'o' || chars[tag] == 'b') {
        let alive = chars[tag] == 'o';
        let next = pass_blanks(chars, tag + 1);
        Some((count, alive, next))
    } else {
        None
    }
}

/// Whether a row is longer than a pattern's width can say.
pub open spec fn too_long(row: Seq<bool>) -> bool {
    row.len() > u32::MAX
}

/// Reads the row that starts at `at`. A row that is too long is passed over: its place
/// is read and its cells are not.
fn read_row(chars: &Vec<char>, at: usize) -> (read: Option<(Vec<bool>, bool, usize)>)
    requires
        at <= chars.len(),
    ensures
        match read {
            Some((cells, over, next)) => {
                &&& row(chars@, at as int).is_some()
                &&& row(chars@, at as int).unwrap().1 == next
                &&& over == too_long(row(chars@, at as int).unwrap().0)
                &&& !over ==> cells@ == row(chars@, at as int).unwrap().0
                &&& at < next <= chars.len()
            },
            None => row(chars@, at as int).is_none(),
        },
{
    let mut cells: Vec<bool> = Vec::new();
    let mut over = false;
    let mut i: usize = at;
    let mut any = false;
    let ghost mut runs: nat = 0;
    let ghost mut read: Seq<bool> = seq![];
    loop
        invariant
            at <= i <= chars.len(),
            any == (runs > 0),
            over == too_long(read),
            !over ==> cells@ == read,
            statements(chars@, at as int) == (
                read + statements(chars@, i as int).0,
                statements(chars@, i as int).1,
                runs + statements(chars@, i as int).2,
            ),
        ensures
            statement(chars@, i as int).is_none(),
        decreases chars.len() - i,
    {
        match read_statement(chars, i) {
            Some((count, alive, next)) => {
                proof {
                    let run = Run { count: count as nat, alive };
                    assert(read + (run.cells() + statements(chars@, next as int).0) =~= (read
                        + run.cells()) + statements(chars@, next as int).0);
                    read = read + run.cells();
                    runs = runs + 1;
                }
                if !over {
                    over = !extend(&mut cells, count, alive);
                }
                any = true;
                i = next;
            },
            None => {
                break ;
            },
        }
    }
    proof {
        assert(read + Seq::<bool>::empty() =~= read);
    }
    let (pad, mark) = match read_number(chars, i) {
        Some((pad, mark)) => (pad, mark),
        None => (0, i),
    };
    if any && mark < chars.len() && (chars[mark] == '$' || chars[mark] == '!') {
        if !over {
            over = !extend(&mut cells, pad, false);
        }
        Some((cells, over, mark + 1))
    } else {
        None
    }
}

/// Reads all the rows that start at `at`, and says whether one of them is too long.
fn read_rows(chars: &Vec<char>, at: usize) -> (read: (Vec<Vec<bool>>, bool, usize))
    requires
        at <= chars.len(),
    ensures
        rows(chars@, at as int).1 == read.2,
        rows(chars@, at as int).0.len() == read.0.len(),
        read.1 == (exists|y: int|
            0 <= y < rows(chars@, at as int).0.len() && too_long(
                #[trigger] rows(chars@, at as int).0[y],
            )),
        !read.1 ==> grid(read.0@) == rows(chars@, at as int).0,
        at <= read.2 <= chars.len(),
{
    let mut data: Vec<Vec<bool>> = Vec::new();
    let mut over = false;
    let mut i: usize = at;
    let ghost mut done: Seq<Seq<bool>> = seq![];
    loop
        invariant
            at <= i <= chars.len(),
            rows(chars@, at as int) == (done + rows(chars@, i as int).0, rows(chars@, i as int).1),
            data.len() == done.len(),
            over == (exists|y: int| 0 <= y < done.len() && too_long(#[trigger] done[y])),
            !over ==> grid(data@) == done,
        ensures
            row(chars@, i as int).is_none(),
        decreases chars.len() - i,
    {
        match read_row(chars, i) {
            Some((cells, long, next)) => {
                proof {
                    let cells_read = row(chars@, i as int).unwrap().0;
                    let more = done.push(cells_read);
                    assert(done + (seq![cells_read] + rows(chars@, next as int).0) =~= more + rows(
                        chars@,
                        next as int,
                    ).0);
                    assert(more[done.len() as int] == cells_read);
                    assert forall|y: int| 0 <= y < done.len() implies more[y] == done[y] by {}
                    if over {
                        let y = choose|y: int| 0 <= y < done.len() && too_long(#[trigger] done[y]);
                        assert(too_long(more[y]));
                    }
                    if !over && !long {
                        assert(grid(data@.push(cells)) =~= more);
                    }
                    done = more;
                }
                data.push(cells);
                over = over || long;
                i = next;
            },
            None => {
                break ;
            },
        }
    }
    proof {
        assert(done + Seq::<Seq<bool>>::empty() =~= done);
    }
    (data, over, i)
}

/// Passes over the line that starts at `at`, if it is not empty and ends with a line
/// feed.
fn pass_full_line(chars: &Vec<char>, at: usize) -> (next: Option<usize>)
    requires
        at <= chars.len(),
    ensures
        match next {
            Some(next) => full_line(chars@, at as int) == Some(next as int) && at < next
                <= chars.len(),
            None => full_line(chars@, at as int).is_none(),
        },
{
    let mut end: usize = at;
    while end < chars.len() && chars[end] != '\n'
        invariant
            at <= end <= chars.len(),
            forall|i: int| at <= i < end ==> chars[i] != '\n',
        decreases chars.len() - end,
    {
        end = end + 1;
    }
    proof {
        lemma_line_end(chars@.skip(at as int), end - at);
    }
    if end > at && end < chars.len() {
        Some(end + 1)
    } else {
        None
    }
}

/// Passes over all the comment lines that start at `at`.
fn pass_comments(chars: &Vec<char>, at: usize) -> (next: usize)
    requires
        at <= chars.len(),
    ensures
        next == comments(chars@, at as int),
        at <= next <= chars.len(),
{
    let mut i: usize = at;
    loop
        invariant
            at <= i <= chars.len(),
            comments(chars@, at as int) == comments(chars@, i as int),
        ensures
            i == comments(chars@, at as int),
        decreases chars.len() - i,
    {
        if i < chars.len() && chars[i] == '#' {
            match pass_full_line(chars, i + 1) {
                Some(next) => {
                    i = next;
                },
                None => {
                    break ;
                },
            }
        } else {
            break ;
        }
    }
    i
}

/// Reads a pattern in the run-length-encoded format. What is read is a rectangle: a
/// row that ends before the longest does is filled up with dead cells.
pub fn parse(bytes: &[u8]) -> (parsed: Result<BoardAsset, PatternError>)
    ensures
        reads_as(parsed, rle_pattern(bytes@)),
        match parsed {
            Ok(asset) => asset.is_rectangular(),
            Err(_) => true,
        },
{
    let chars = match decode(bytes) {
        Some(chars) => chars,
        None => {
            return Err(PatternError::Encoding);
        },
    };
    let head = pass_comments(&chars, 0);
    let body = match pass_full_line(&chars, head) {
        Some(body) => body,
        None => {
            return Err(PatternError::Syntax);
        },
    };
    let first = pass_comments(&chars, body);
    let (data, over, after) = read_rows(&chars, first);
    let end = if after < chars.len() && chars[after] == '\n' {
        after + 1
    } else {
        after
    };
    if data.len() == 0 || end != chars.len() {
        return Err(PatternError::Syntax);
    }
    proof {
        lemma_longest(rows(chars@, first as int).0);
    }
    if over {
        return Err(PatternError::TooLarge);
    }
    BoardAsset::from_rows(data)
}

} // verus!
