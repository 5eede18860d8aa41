//! The plain-text pattern format: one line of text for each row of cells.
//!
//! A capital `O` or a black square stands for a live cell and any other character for
//! a dead one. A line that begins with `!` is a comment and gives no row. The pattern
//! is as wide as the longest row; a shorter row is filled up with dead cells.

use crate::pattern::{grid, pattern_of, reads_as, BoardAsset, Pattern, PatternError};
use crate::text::{after_first_line, decode, first_line, lemma_line_end, lines};
use vstd::prelude::*;
use vstd::utf8::{decode_utf8, valid_utf8};

verus! {

/// Whether a line is a comment.
pub open spec fn is_comment(line: Seq<char>) -> bool {
    line.len() > 0 && line[0] == '!'
}

/// Whether a character stands for a live cell.
pub open spec fn is_live(c: char) -> bool {
    c == 'O' || c == '\u{25A0}'
}

/// The row of cells that a line stands for.
pub open spec fn row_of(line: Seq<char>) -> Seq<bool> {
    Seq::new(line.len(), |i: int| is_live(line[i]))
}

/// The rows of cells that the lines stand for: one for each line that is no comment.
pub open spec fn rows_of(lines: Seq<Seq<char>>) -> Seq<Seq<bool>>
    decreases lines.len(),
{
    if lines.len() == 0 {
        seq![]
    } else if is_comment(lines.last()) {
        rows_of(lines.drop_last())
    } else {
        rows_of(lines.drop_last()).push(row_of(lines.last()))
    }
}

/// What bytes in the plain-text format read as: the rectangle that the rows of the
/// text make.
pub open spec fn cells_pattern(bytes: Seq<u8>) -> Result<Pattern, PatternError> {
    if !valid_utf8(bytes) {
        Err(PatternError::Encoding)
    } else {
        pattern_of(rows_of(lines(decode_utf8(bytes))))
    }
}

/// The row of cells that the characters from `from` up to `to` stand for.
fn cells_row(chars: &Vec<char>, from: usize, to: usize) -> (row: Vec<bool>)
    requires
        from <= to <= chars.len(),
    ensures
        row@ == row_of(chars@.subrange(from as int, to as int)),
{
    let mut row: Vec<bool> = Vec::new();
    let mut i: usize = from;
    while i < to
        invariant
            from <= i <= to <= chars.len(),
            row.len() == i - from,
            forall|k: int| 0 <= k < row.len() ==> (#[trigger] row[k]) == is_live(chars[from + k]),
        decreases to - i,
    {
        let c = chars[i];
        row.push(c == 'O' || c == '\u{25A0}');
        i = i + 1;
    }
    assert(row@ =~= row_of(chars@.subrange(from as int, to as int)));
    row
}

/// Reads a pattern in the plain-text format. What is read is a rectangle: a line that
/// ends before the longest does is filled up with dead cells.
pub fn parse_cells(bytes: &[u8]) -> (parsed: Result<BoardAsset, PatternError>)
    ensures
        reads_as(parsed, cells_pattern(bytes@)),
        match parsed {
            Ok(asset) => asset.is_rectangular(),
            Err(_) => true,
        },
{
    let chars = match decode(bytes) {
        Some(chars) => chars,
        None => {
            return Err(PatternError::Encoding);
        },
    };
    let n = chars.len();
    let mut data: Vec<Vec<bool>> = Vec::new();
    let mut start: usize = 0;
    let ghost mut done: Seq<Seq<char>> = seq![];
    proof {
        assert(chars@.skip(0) =~= chars@);
        assert(grid(data@) =~= rows_of(done));
    }
    while start < n
        invariant
            n == chars.len(),
            start <= n,
            lines(chars@) == done + lines(chars@.skip(start as int)),
            grid(data@) == rows_of(done),
        decreases n - start,
    {
        let mut end: usize = start;
        while end < n && chars[end] != '\n'
            invariant
                n == chars.len(),
                start <= end <= n,
                forall|i: int| start <= i < end ==> chars[i] != '\n',
            decreases n - end,
        {
            end = end + 1;
        }
        let stop: usize = if end < n && end > start && chars[end - 1] == '\r' {
            end - 1
        } else {
            end
        };
        let next: usize = if end < n {
            end + 1
        } else {
            end
        };
        let ghost rest = chars@.skip(start as int);
        let ghost line = chars@.subrange(start as int, stop as int);
        proof {
            lemma_line_end(rest, end - start);
            assert(first_line(rest) =~= line);
            assert(after_first_line(rest) =~= chars@.skip(next as int));
            assert(done + (seq![line] + lines(chars@.skip(next as int))) =~= done.push(line)
                + lines(chars@.skip(next as int)));
            assert(done.push(line).drop_last() =~= done);
        }
        if !(stop > start && chars[start] == '!') {
            let row = cells_row(&chars, start, stop);
            proof {
                assert(grid(data@.push(row)) =~= rows_of(done).push(row_of(line)));
            }
            data.push(row);
        }
        proof {
            done = done.push(line);
        }
        start = next;
    }
    BoardAsset::from_rows(data)
}

} // verus!
