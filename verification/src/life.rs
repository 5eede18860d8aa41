//! The colony: the board, the record of which cells are alive, and the rules it runs under.

use crate::board::{Board, BoardPosition, BoardSize};
use crate::lattice::{lemma_listed, live_neighbours, next_alive, representable, Rectangle};
use vstd::set_lib::lemma_len_subset;
use crate::rules::GameRules;
use vstd::prelude::*;

verus! {

/// A colony of cells on the lattice.
///
/// Every cell on record has a handle and a coordinate on the board; a recorded cell
/// is alive or dead, and a coordinate without a cell is dead.
pub struct Life {
    board: Board,
    /// `flags[h]` says whether the cell with handle `h` is alive.
    flags: Vec<bool>,
    /// The handles below `flags.len()` that name no cell, each once.
    spare: Vec<u64>,
    rules: GameRules,
}

impl Life {
    /// The handle of the cell recorded at each coordinate.
    pub closed spec fn cells(&self) -> Map<(int, int), u64> {
        self.board@
    }

    /// The handles of the cells that are alive.
    pub closed spec fn alive_handles(&self) -> Set<u64> {
        Set::new(|h: u64| h < self.flags.len() && self.flags[h as int])
    }

    /// The coordinates of the cells that are alive.
    pub open spec fn alive(&self) -> Set<(int, int)> {
        Set::new(
            |c: (int, int)|
                self.cells().contains_key(c) && self.alive_handles().contains(self.cells()[c]),
        )
    }

    /// The board's bounding rectangle.
    pub closed spec fn rectangle(&self) -> Rectangle {
        self.board.rectangle()
    }

    /// The rules the colony runs under.
    pub closed spec fn rules(&self) -> GameRules {
        self.rules
    }

    /// The colony's invariant: the board is well-formed, the cells on it are the cells
    /// with a flag, and only they can be alive.
    pub closed spec fn wf(&self) -> bool {
        &&& self.board.wf()
        &&& forall|h: u64| #[trigger]
            self.board.positions().contains_key(h) ==> h < self.flags.len()
        &&& forall|i: int|
            0 <= i < self.spare.len() ==> (#[trigger] self.spare[i]) < self.flags.len()
                && !self.board.positions().contains_key(self.spare[i])
        &&& forall|i: int, j: int|
            0 <= i < j < self.spare.len() ==> self.spare[i] != self.spare[j]
        &&& forall|h: int|
            0 <= h < self.flags.len() && #[trigger] self.flags[h]
                ==> self.board.positions().contains_key(h as u64)
    }

    /// In a well-formed colony every recorded coordinate is a machine coordinate inside
    /// the bounding rectangle, no two cells share a handle, every live cell is on record,
    /// and the record is finite.
    pub proof fn lemma_cells(&self)
        requires
            self.wf(),
        ensures
            forall|c: (int, int)| #[trigger]
                self.cells().contains_key(c) ==> representable(c) && self.rectangle().covers(c),
            forall|c: (int, int), d: (int, int)|
                #![trigger self.cells()[c], self.cells()[d]]
                self.cells().contains_key(c) && self.cells().contains_key(d)
                    && self.cells()[c] == self.cells()[d] ==> c == d,
            forall|c: (int, int)| #[trigger]
                self.alive().contains(c) ==> self.cells().contains_key(c) && representable(c),
            self.rectangle().low.0 <= self.rectangle().high.0,
            self.rectangle().low.1 <= self.rectangle().high.1,
            representable(self.rectangle().low),
            representable(self.rectangle().high),
            self.cells().dom().finite(),
            self.alive().finite(),
            self.alive().len() <= self.cells().dom().len(),
    {
        self.board.lemma_bijection();
        self.board.lemma_bounds();
        self.board.lemma_finite();
        lemma_len_subset(self.alive(), self.cells().dom());
    }

    /// A colony without cells.
    pub fn new(size: BoardSize, rules: GameRules) -> (life: Life)
        requires
            size.x <= i32::MAX,
            size.y <= i32::MAX,
        ensures
            life.wf(),
            life.cells() == (Map::<(int, int), u64>::empty()),
            life.alive() == (Set::<(int, int)>::empty()),
            life.rectangle() == (Rectangle { low: (0, 0), high: size@ }),
            life.rules() == rules,
    {
        let life = Life { board: Board::new(size), flags: Vec::new(), spare: Vec::new(), rules };
        assert(life.alive() =~= Set::<(int, int)>::empty());
        life
    }

    /// The board, to look at.
    pub fn board(&self) -> (board: &Board)
        requires
            self.wf(),
        ensures
            board.wf(),
            board@ == self.cells(),
            board.rectangle() == self.rectangle(),
    {
        &self.board
    }

    /// The handle of the cell recorded at `pos`, if there is one.
    pub fn lookup(&self, pos: BoardPosition) -> (found: Option<u64>)
        ensures
            found == self.cells().get(pos@),
    {
        self.board.get(pos)
    }

    /// Whether `handle` names a cell that is alive.
    pub fn is_alive(&self, handle: u64) -> (alive: bool)
        ensures
            alive == self.alive_handles().contains(handle),
    {
        if handle < self.flags.len() as u64 {
            self.flags[handle as usize]
        } else {
            false
        }
    }

    /// What every change to a colony keeps. The colony stays well-formed under the same
    /// rules; a cell that stays on record keeps its handle; and a cell that comes onto
    /// the record gets a handle that no cell had.
    pub open spec fn carries_to(self, next: Life) -> bool {
        &&& next.wf()
        &&& next.rules() == self.rules()
        &&& forall|c: (int, int)|
            #![trigger next.cells()[c]]
            self.cells().contains_key(c) && next.cells().contains_key(c) ==> next.cells()[c]
                == self.cells()[c]
        &&& forall|c: (int, int), d: (int, int)|
            #![trigger next.cells()[c], self.cells()[d]]
            self.cells().contains_key(d) && next.cells().contains_key(c)
                && !self.cells().contains_key(c) ==> next.cells()[c] != self.cells()[d]
    }

    /// Whether the bounding rectangle of `next` is that of `self`, grown just far
    /// enough to cover the points of `born`.
    pub open spec fn stretches_to(self, next: Life, born: Set<(int, int)>) -> bool {
        next.rectangle().spans(self.rectangle(), born)
    }

    /// Changes that take no cell off the record chain.
    pub proof fn lemma_carries_on(self, mid: Life, next: Life)
        requires
            self.carries_to(mid),
            mid.carries_to(next),
            self.cells().dom().subset_of(mid.cells().dom()),
            mid.cells().dom().subset_of(next.cells().dom()),
        ensures
            self.carries_to(next),
    {
        assert forall|c: (int, int)|
            #![trigger next.cells()[c]]
            self.cells().contains_key(c) && next.cells().contains_key(c) implies next.cells()[c]
            == self.cells()[c] by {
            assert(mid.cells().dom().contains(c));
            assert(mid.cells()[c] == self.cells()[c]);
        }
        assert forall|c: (int, int), d: (int, int)|
            #![trigger next.cells()[c], self.cells()[d]]
            self.cells().contains_key(d) && next.cells().contains_key(c)
                && !self.cells().contains_key(c) implies next.cells()[c] != self.cells()[d] by {
            assert(mid.cells().dom().contains(d));
            assert(mid.cells()[d] == self.cells()[d]);
            if mid.cells().contains_key(c) {
                assert(mid.cells()[c] != self.cells()[d]);
                assert(next.cells()[c] == mid.cells()[c]);
            } else {
                assert(next.cells()[c] != mid.cells()[d]);
            }
        }
    }

    /// What making the cell at `pos` alive or dead makes of a colony: only that cell
    /// changes state. A coordinate without a cell gets one when it is made alive, and
    /// the bounding rectangle is stretched over it; a cell that dies stays on record.
    pub open spec fn sets_to(self, next: Life, pos: (int, int), alive: bool) -> bool {
        &&& self.carries_to(next)
        &&& next.alive() == if alive {
            self.alive().insert(pos)
        } else {
            self.alive().remove(pos)
        }
        &&& next.cells().dom() == if alive {
            self.cells().dom().insert(pos)
        } else {
            self.cells().dom()
        }
        &&& next.rectangle() == if alive && !self.cells().contains_key(pos) {
            self.rectangle().grown(pos)
        } else {
            self.rectangle()
        }
    }

    /// Makes the cell at `pos` alive or dead.
    pub fn set_alive(&mut self, pos: BoardPosition, alive: bool)
        requires
            old(self).wf(),
        ensures
            old(self).sets_to(*final(self), pos@, alive),
    {
        proof {
            self.board.lemma_bijection();
        }
        match self.board.get(pos) {
            Some(handle) => {
                self.flags[handle as usize] = alive;
                proof {
                    assert(self.alive() =~= if alive {
                        old(self).alive().insert(pos@)
                    } else {
                        old(self).alive().remove(pos@)
                    });
                    assert(self.cells().dom() =~= old(self).cells().dom().insert(pos@));
                }
            },
            None => {
                if alive {
                    let handle = match self.spare.pop() {
                        Some(handle) => handle,
                        None => {
                            let handle = self.flags.len() as u64;
                            self.flags.push(false);
                            handle
                        },
                    };
                    self.board.insert(pos, handle);
                    self.flags[handle as usize] = true;
                    proof {
                        assert(self.board@ =~= old(self).board@.insert(pos@, handle));
                        assert(self.board.positions() =~= old(self).board.positions().insert(
                            handle,
                            pos@,
                        ));
                        assert(self.alive() =~= old(self).alive().insert(pos@));
                        assert(self.cells().dom() =~= old(self).cells().dom().insert(pos@));
                    }
                } else {
                    assert(self.alive() =~= old(self).alive().remove(pos@));
                }
            },
        }
    }

    /// Makes the cell at `pos` alive if it is dead, and dead if it is alive.
    pub fn toggle(&mut self, pos: BoardPosition)
        requires
            old(self).wf(),
        ensures
            old(self).sets_to(*final(self), pos@, !old(self).alive().contains(pos@)),
    {
        let alive = self.is_alive_at(pos);
        self.set_alive(pos, !alive);
    }

    /// The coordinates of the cells that are alive, each once, in the order of their
    /// handles.
    pub fn alive_coordinates(&self) -> (coordinates: Vec<BoardPosition>)
        requires
            self.wf(),
        ensures
            forall|i: int|
                0 <= i < coordinates.len() ==> self.alive().contains(#[trigger] coordinates[i]@),
            forall|c: (int, int)|
                self.alive().contains(c) ==> exists|i: int|
                    0 <= i < coordinates.len() && #[trigger] coordinates[i]@ == c,
            forall|i: int, j: int|
                0 <= i < j < coordinates.len() ==> self.cells()[coordinates[i]@]
                    < self.cells()[coordinates[j]@],
            self.alive().finite(),
            coordinates.len() == self.alive().len(),
    {
        let mut coordinates: Vec<BoardPosition> = Vec::new();
        let mut handle: usize = 0;
        proof {
            self.board.lemma_bijection();
        }
        while handle < self.flags.len()
            invariant
                self.wf(),
                handle <= self.flags.len(),
                forall|i: int|
                    0 <= i < coordinates.len() ==> self.alive().contains(
                        #[trigger] coordinates[i]@,
                    ) && self.cells()[coordinates[i]@] < handle,
                forall|c: (int, int)|
                    self.alive().contains(c) && self.cells()[c] < handle ==> exists|i: int|
                        0 <= i < coordinates.len() && #[trigger] coordinates[i]@ == c,
                forall|i: int, j: int|
                    0 <= i < j < coordinates.len() ==> self.cells()[coordinates[i]@]
                        < self.cells()[coordinates[j]@],
            decreases self.flags.len() - handle,
        {
            if self.flags[handle] {
                match self.board.position(handle as u64) {
                    Some(pos) => {
                        proof {
                            self.board.lemma_bijection();
                            let before = coordinates@;
                            assert forall|c: (int, int)|
                                self.alive().contains(c) && self.cells()[c] < handle
                                    + 1 implies exists|i: int|
                                0 <= i < before.push(pos).len() && #[trigger] before.push(
                                    pos,
                                )[i]@ == c by {
                                if self.cells()[c] < handle {
                                    let i = choose|i: int|
                                        0 <= i < before.len() && #[trigger] before[i]@ == c;
                                    assert(before.push(pos)[i]@ == c);
                                } else {
                                    assert(before.push(pos)[before.len() as int]@ == c);
                                }
                            }
                        }
                        coordinates.push(pos);
                    },
                    None => {},
                }
            }
            handle = handle + 1;
        }
        proof {
            let listed = Seq::new(coordinates.len() as nat, |i: int| coordinates[i]@);
            assert forall|c: (int, int)| self.alive().contains(c) implies exists|i: int|
                0 <= i < listed.len() && #[trigger] listed[i] == c by {
                let i = choose|i: int|
                    0 <= i < coordinates.len() && #[trigger] coordinates[i]@ == c;
                assert(listed[i] == c);
            }
            lemma_listed(listed, self.alive());
        }
        coordinates
    }

    /// Whether the cell at `pos` is on record, dead, and touched by no live cell.
    pub open spec fn idle_at(self, pos: (int, int)) -> bool {
        &&& self.cells().contains_key(pos)
        &&& !self.alive().contains(pos)
        &&& live_neighbours(self.alive(), pos) == 0
    }

    /// Takes the cell at `pos` off the record if it is dead and no live cell touches it.
    pub fn prune(&mut self, pos: BoardPosition)
        requires
            old(self).wf(),
        ensures
            final(self).wf(),
            final(self).rules() == old(self).rules(),
            final(self).alive() == old(self).alive(),
            final(self).rectangle() == old(self).rectangle(),
            final(self).cells() == (if old(self).idle_at(pos@) {
                old(self).cells().remove(pos@)
            } else {
                old(self).cells()
            }),
    {
        match self.board.get(pos) {
            Some(handle) => {
                if !self.is_alive(handle) && self.count_alive_neighbours(pos) == 0 {
                    proof {
                        self.board.lemma_bijection();
                    }
                    self.board.remove(pos);
                    self.spare.push(handle);
                    assert(self.alive() =~= old(self).alive());
                }
            },
            None => {},
        }
    }

    /// Whether the point `(x, y)` is alive.
    fn lit_at(&self, x: i64, y: i64) -> (alive: bool)
        requires
            self.wf(),
        ensures
            alive == self.alive().contains((x as int, y as int)),
    {
        if i32::MIN as i64 <= x && x <= i32::MAX as i64 && i32::MIN as i64 <= y && y
            <= i32::MAX as i64 {
            self.is_alive_at(BoardPosition { x: x as i32, y: y as i32 })
        } else {
            proof {
                self.lemma_cells();
            }
            false
        }
    }

    /// How many of the eight cells that touch `pos` are alive.
    pub fn count_alive_neighbours(&self, pos: BoardPosition) -> (count: usize)
        requires
            self.wf(),
        ensures
            count == live_neighbours(self.alive(), pos@),
    {
        let x = pos.x as i64;
        let y = pos.y as i64;
        let mut count: usize = 0;
        if self.lit_at(x - 1, y - 1) {
            count = count + 1;
        }
        if self.lit_at(x - 1, y) {
            count = count + 1;
        }
        if self.lit_at(x - 1, y + 1) {
            count = count + 1;
        }
        if self.lit_at(x, y - 1) {
            count = count + 1;
        }
        if self.lit_at(x, y + 1) {
            count = count + 1;
        }
        if self.lit_at(x + 1, y - 1) {
            count = count + 1;
        }
        if self.lit_at(x + 1, y) {
            count = count + 1;
        }
        if self.lit_at(x + 1, y + 1) {
            count = count + 1;
        }
        count
    }

    /// Whether the cell at `pos` is alive in the next generation.
    pub fn next_state_at(&self, pos: BoardPosition) -> (next: bool)
        requires
            self.wf(),
        ensures
            next == next_alive(self.rules(), self.alive(), pos@),
    {
        let alive = self.is_alive_at(pos);
        let neighbours = self.count_alive_neighbours(pos);
        self.rules.compute_state(alive, neighbours)
    }

    /// Whether the cell at `pos` is alive.
    pub fn is_alive_at(&self, pos: BoardPosition) -> (alive: bool)
        ensures
            alive == self.alive().contains(pos@),
    {
        match self.board.get(pos) {
            Some(handle) => self.is_alive(handle),
            None => false,
        }
    }
}

} // verus!
