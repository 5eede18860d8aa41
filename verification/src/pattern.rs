//! Seed patterns: a matrix of cells, and how one is laid on the lattice.

use crate::board::{BoardPosition, BoardSize};
use crate::engine::{
    born, lemma_settles_push, lemma_verdict_of_agreeing, raises, settles, verdict,
};
use crate::lattice::representable;
use crate::life::Life;
use vstd::prelude::*;

verus! {

/// A seed pattern: rows of cells, the first row uppermost, and the pattern's width and
/// height.
#[derive(Debug)]
pub struct BoardAsset {
    pub data: Vec<Vec<bool>>,
    pub size: (u32, u32),
}

/// Why bytes could not be read as a seed pattern.
#[derive(Debug, Clone, Copy, PartialEq, Eq, Structural)]
pub enum PatternError {
    /// The bytes are not valid UTF-8.
    Encoding,
    /// The text does not follow the format's grammar.
    Syntax,
    /// The pattern is wider or higher than a pattern's size can say.
    TooLarge,
}

/// What a seed pattern holds.
pub struct Pattern {
    /// The rows of cells, the first row uppermost.
    pub rows: Seq<Seq<bool>>,
    /// The width of the pattern.
    pub width: int,
    /// The height of the pattern.
    pub height: int,
}

/// Rows of cells as sequences.
pub open spec fn grid(data: Seq<Vec<bool>>) -> Seq<Seq<bool>> {
    Seq::new(data.len(), |y: int| data[y]@)
}

impl View for BoardAsset {
    type V = Pattern;

    open spec fn view(&self) -> Pattern {
        Pattern {
            rows: grid(self.data@),
            width: self.size.0 as int,
            height: self.size.1 as int,
        }
    }
}

/// The length of the longest of some rows.
pub open spec fn longest<T>(rows: Seq<Seq<T>>) -> nat
    decreases rows.len(),
{
    if rows.len() == 0 {
        0
    } else if rows.last().len() > longest(rows.drop_last()) {
        rows.last().len()
    } else {
        longest(rows.drop_last())
    }
}

/// No row is longer than the longest, and where there are rows one is as long.
pub proof fn lemma_longest<T>(rows: Seq<Seq<T>>)
    ensures
        forall|y: int| 0 <= y < rows.len() ==> (#[trigger] rows[y]).len() <= longest(rows),
        rows.len() > 0 ==> exists|y: int|
            0 <= y < rows.len() && (#[trigger] rows[y]).len() == longest(rows),
    decreases rows.len(),
{
    if rows.len() > 0 {
        let front = rows.drop_last();
        lemma_longest(front);
        assert forall|y: int| 0 <= y < rows.len() implies (#[trigger] rows[y]).len() <= longest(
            rows,
        ) by {
            if y < front.len() {
                assert(front[y] == rows[y]);
            }
        }
        if rows.last().len() > longest(front) || front.len() == 0 {
            assert(rows[rows.len() - 1].len() == longest(rows));
        } else {
            let y = choose|y: int| 0 <= y < front.len() && (#[trigger] front[y]).len() == longest(
                front,
            );
            assert(rows[y] == front[y]);
        }
    }
}

/// A row made `width` long by dead cells at its end.
pub open spec fn padded(row: Seq<bool>, width: int) -> Seq<bool> {
    row + Seq::new((width - row.len()) as nat, |i: int| false)
}

/// The rectangle that rows of cells make: every row made as long as the longest.
pub open spec fn rectangle_of(rows: Seq<Seq<bool>>) -> Seq<Seq<bool>> {
    Seq::new(rows.len(), |y: int| padded(rows[y], longest(rows) as int))
}

/// The pattern that rows of cells make, unless it is wider or higher than a pattern's
/// size can say.
pub open spec fn pattern_of(rows: Seq<Seq<bool>>) -> Result<Pattern, PatternError> {
    if longest(rows) > u32::MAX || rows.len() > u32::MAX {
        Err(PatternError::TooLarge)
    } else {
        Ok(
            Pattern {
                rows: rectangle_of(rows),
                width: longest(rows) as int,
                height: rows.len() as int,
            },
        )
    }
}

/// Adds `count` cells, all alive or all dead, to the end of a row, unless the row would
/// grow longer than a pattern's width can say.
pub(crate) fn extend(cells: &mut Vec<bool>, count: usize, alive: bool) -> (fits: bool)
    requires
        old(cells).len() <= u32::MAX,
    ensures
        fits == (old(cells).len() + count <= u32::MAX),
        fits ==> final(cells)@ == old(cells)@ + Seq::new(count as nat, |i: int| alive),
        !fits ==> final(cells)@ == old(cells)@,
{
    if count > u32::MAX as usize - cells.len() {
        return false;
    }
    let mut added: usize = 0;
    while added < count
        invariant
            added <= count,
            old(cells).len() + count <= u32::MAX,
            cells@ == old(cells)@ + Seq::new(added as nat, |i: int| alive),
        decreases count - added,
    {
        cells.push(alive);
        added = added + 1;
        assert(cells@ =~= old(cells)@ + Seq::new(added as nat, |i: int| alive));
    }
    true
}

/// The length of the longest row.
fn longest_row(data: &Vec<Vec<bool>>) -> (width: usize)
    ensures
        width == longest(grid(data@)),
{
    let mut width: usize = 0;
    let mut y: usize = 0;
    proof {
        assert(grid(data@).take(0) =~= Seq::<Seq<bool>>::empty());
    }
    while y < data.len()
        invariant
            y <= data.len(),
            width == longest(grid(data@).take(y as int)),
        decreases data.len() - y,
    {
        proof {
            let upto = grid(data@).take(y + 1);
            assert(upto.drop_last() =~= grid(data@).take(y as int));
            assert(upto.last() == data@[y as int]@);
        }
        if data[y].len() > width {
            width = data[y].len();
        }
        y = y + 1;
    }
    proof {
        assert(grid(data@).take(data.len() as int) =~= grid(data@));
    }
    width
}

/// Whether what was read is the pattern, or the error, that was to be read.
pub open spec fn reads_as(
    parsed: Result<BoardAsset, PatternError>,
    expected: Result<Pattern, PatternError>,
) -> bool {
    match (parsed, expected) {
        (Ok(asset), Ok(pattern)) => asset@ == pattern,
        (Err(error), Err(reason)) => error == reason,
        _ => false,
    }
}

impl BoardAsset {
    /// Whether the pattern has a live cell in column `x` of row `y`.
    pub open spec fn lit(&self, x: int, y: int) -> bool {
        &&& 0 <= y < self.data@.len()
        &&& 0 <= x < self.data@[y]@.len()
        &&& self.data@[y]@[x]
    }

    /// The point on which the pattern's column `x` of row `y` comes to lie when the
    /// pattern is laid at `offset`. Columns run with the lattice's `x`; rows run against
    /// its `y`, the first row lying one whole height above the offset.
    pub open spec fn placed(&self, offset: (int, int), x: int, y: int) -> (int, int) {
        (x + offset.0, (self.size.1 - y) + offset.1)
    }

    /// The machine coordinates on which the pattern, laid at `offset`, puts a live cell.
    pub open spec fn footprint(&self, offset: (int, int)) -> Set<(int, int)> {
        Set::new(
            |c: (int, int)|
                representable(c) && self.lit(c.0 - offset.0, self.size.1 + offset.1 - c.1),
        )
    }

    /// The footprint is where the live cells of the pattern come to lie.
    pub proof fn lemma_footprint(&self, offset: (int, int), x: int, y: int)
        ensures
            self.footprint(offset).contains(self.placed(offset, x, y)) <==> self.lit(x, y)
                && representable(self.placed(offset, x, y)),
    {
    }

    /// Whether the pattern has as many rows as its height says, each as long as its
    /// width says.
    pub open spec fn is_rectangular(&self) -> bool {
        &&& self.data@.len() == self.size.1
        &&& forall|y: int|
            0 <= y < self.data@.len() ==> (#[trigger] self.data@[y])@.len() == self.size.0
    }

    /// Makes a pattern of rows of cells, the first row uppermost. The pattern is as
    /// wide as the longest row and as high as there are rows; a shorter row is filled
    /// up with dead cells.
    pub fn from_rows(data: Vec<Vec<bool>>) -> (made: Result<BoardAsset, PatternError>)
        ensures
            reads_as(made, pattern_of(grid(data@))),
            match made {
                Ok(asset) => asset.is_rectangular(),
                Err(_) => true,
            },
    {
        let ghost rows = grid(data@);
        let mut data = data;
        let width = longest_row(&data);
        let height = data.len();
        if width > u32::MAX as usize || height > u32::MAX as usize {
            return Err(PatternError::TooLarge);
        }
        proof {
            lemma_longest(rows);
        }
        let mut y: usize = 0;
        while y < data.len()
            invariant
                y <= data.len(),
                data.len() == rows.len(),
                width == longest(rows),
                width <= u32::MAX,
                forall|r: int| 0 <= r < rows.len() ==> (#[trigger] rows[r]).len() <= width,
                forall|r: int|
                    0 <= r < y ==> (#[trigger] data[r])@ == padded(rows[r], width as int),
                forall|r: int| y <= r < data.len() ==> (#[trigger] data[r])@ == rows[r],
            decreases data.len() - y,
        {
            let missing = width - data[y].len();
            let row = &mut data[y];
            extend(row, missing, false);
            y = y + 1;
        }
        let asset = BoardAsset { data, size: (width as u32, height as u32) };
        proof {
            assert(asset@.rows =~= rectangle_of(rows));
            assert forall|r: int| 0 <= r < asset.data@.len() implies (
            #[trigger] asset.data@[r])@.len() == asset.size.0 by {
                assert(asset.data@[r]@ == padded(rows[r], width as int));
            }
        }
        Ok(asset)
    }

    /// Checks that the pattern is a full rectangle of the size it gives.
    pub fn rectangular(&self) -> (ok: bool)
        ensures
            ok == self.is_rectangular(),
    {
        if self.data.len() != self.size.1 as usize {
            return false;
        }
        let mut y: usize = 0;
        while y < self.data.len()
            invariant
                y <= self.data.len(),
                forall|r: int| 0 <= r < y ==> (#[trigger] self.data@[r])@.len() == self.size.0,
            decreases self.data.len() - y,
        {
            if self.data[y].len() != self.size.0 as usize {
                return false;
            }
            y = y + 1;
        }
        true
    }
}

/// Half of `d`, rounded towards zero.
pub open spec fn half(d: int) -> int {
    if d >= 0 {
        d / 2
    } else {
        -((-d) / 2)
    }
}

/// The offset that centres a pattern of size `pattern` on a board of size `board`.
pub fn centered_offset(board: BoardSize, pattern: (u32, u32)) -> (offset: BoardPosition)
    ensures
        offset@ == (half(board.x - pattern.0), half(board.y - pattern.1)),
{
    let x: i32 = if board.x >= pattern.0 {
        ((board.x - pattern.0) / 2) as i32
    } else {
        -(((pattern.0 - board.x) / 2) as i32)
    };
    let y: i32 = if board.y >= pattern.1 {
        ((board.y - pattern.1) / 2) as i32
    } else {
        -(((pattern.1 - board.y) / 2) as i32)
    };
    BoardPosition { x, y }
}

impl Life {
    /// What laying live cells on the points of `print` makes of a colony: every point
    /// of `print` is alive and on record, nothing else changes state, and the bounding
    /// rectangle grows just far enough to cover the cells that came onto the record.
    pub open spec fn lays_to(self, next: Life, print: Set<(int, int)>) -> bool {
        &&& self.carries_to(next)
        &&& next.alive() == self.alive().union(print)
        &&& next.cells().dom() == self.cells().dom().union(print)
        &&& self.stretches_to(next, print.difference(self.cells().dom()))
    }

    /// Lays a rectangular pattern on the lattice at `offset`: every machine coordinate
    /// on which it puts a live cell is alive afterwards.
    pub fn seed(&mut self, pattern: &BoardAsset, offset: BoardPosition)
        requires
            old(self).wf(),
            pattern.is_rectangular(),
        ensures
            old(self).lays_to(*final(self), pattern.footprint(offset@)),
    {
        let ghost print = pattern.footprint(offset@);
        let mut outcomes: Vec<(BoardPosition, bool)> = Vec::new();
        let mut y: usize = 0;
        while y < pattern.data.len()
            invariant
                y <= pattern.data.len(),
                print == pattern.footprint(offset@),
                forall|e: int|
                    0 <= e < outcomes.len() ==> (#[trigger] outcomes[e]).1 && print.contains(
                        outcomes[e].0@,
                    ),
                forall|c: (int, int)|
                    #![trigger settles(outcomes@, c)]
                    print.contains(c) && pattern.size.1 + offset@.1 - c.1 < y ==> settles(
                        outcomes@,
                        c,
                    ),
            decreases pattern.data.len() - y,
        {
            let row = &pattern.data[y];
            let mut x: usize = 0;
            while x < row.len()
                invariant
                    y < pattern.data.len(),
                    row == pattern.data@[y as int],
                    x <= row.len(),
                    print == pattern.footprint(offset@),
                    forall|e: int|
                        0 <= e < outcomes.len() ==> (#[trigger] outcomes[e]).1 && print.contains(
                            outcomes[e].0@,
                        ),
                    forall|c: (int, int)|
                        #![trigger settles(outcomes@, c)]
                        print.contains(c) && (pattern.size.1 + offset@.1 - c.1 < y || (
                        pattern.size.1 + offset@.1 - c.1 == y && c.0 - offset@.0 < x))
                            ==> settles(outcomes@, c),
                decreases row.len() - x,
            {
                if row[x] {
                    let px: i128 = x as i128 + offset.x as i128;
                    let py: i128 = (pattern.size.1 as i128 - y as i128) + offset.y as i128;
                    if i32::MIN as i128 <= px && px <= i32::MAX as i128 && i32::MIN as i128 <= py
                        && py <= i32::MAX as i128 {
                        let pos = BoardPosition { x: px as i32, y: py as i32 };
                        proof {
                            assert(pattern.lit(x as int, y as int));
                            assert(pos@ == pattern.placed(offset@, x as int, y as int));
                            lemma_settles_push(outcomes@, (pos, true));
                        }
                        outcomes.push((pos, true));
                    }
                }
                x = x + 1;
            }
            y = y + 1;
        }
        self.apply(&outcomes);
        proof {
            assert forall|c: (int, int)| settles(outcomes@, c) implies print.contains(c) by {
                let e = choose|e: int| 0 <= e < outcomes.len() && (#[trigger] outcomes[e]).0@ == c;
            }
            assert forall|c: (int, int)| settles(outcomes@, c) implies verdict(outcomes@, c)
                && raises(outcomes@, c) by {
                lemma_verdict_of_agreeing(outcomes@, c, true);
            }
            assert forall|c: (int, int)| raises(outcomes@, c) implies settles(outcomes@, c) by {
                let e = choose|e: int|
                    0 <= e < outcomes.len() && (#[trigger] outcomes[e]).0@ == c && outcomes[e].1;
            }
            assert(self.alive() =~= old(self).alive().union(print));
            assert(self.cells().dom() =~= old(self).cells().dom().union(print));
            assert(born(outcomes@, old(self).cells().dom()) =~= print.difference(
                old(self).cells().dom(),
            ));
        }
    }
}

} // verus!
