//! The sparse board: a two-way index between lattice coordinates and cell handles, with a
//! bounding rectangle that grows to hold every coordinate inserted.

use crate::index::{coord_entries, handle_entries, CoordIndex, HandleIndex};
use crate::lattice::{representable, Rectangle};
use vstd::prelude::*;

verus! {

/// A lattice coordinate.
#[derive(Debug, Clone, Copy, PartialEq, Eq, Hash, Structural)]
pub struct BoardPosition {
    pub x: i32,
    pub y: i32,
}

impl View for BoardPosition {
    type V = (int, int);

    open spec fn view(&self) -> (int, int) {
        (self.x as int, self.y as int)
    }
}

/// The width and height of a rectangle of the lattice.
#[derive(Debug, Clone, Copy, PartialEq, Eq, Hash, Structural)]
pub struct BoardSize {
    pub x: u32,
    pub y: u32,
}

impl View for BoardSize {
    type V = (int, int);

    open spec fn view(&self) -> (int, int) {
        (self.x as int, self.y as int)
    }
}

/// A map with `key` set to `value` and every other key that held `value` dropped: what
/// keeps a one-to-one map one-to-one when an entry is added or moved.
pub open spec fn relocated<K, V>(entries: Map<K, V>, key: K, value: V) -> Map<K, V> {
    Map::new(
        |k: K| k == key || (entries.contains_key(k) && entries[k] != value),
        |k: K|
            if k == key {
                value
            } else {
                entries[k]
            },
    )
}

/// The sparse board.
pub struct Board {
    forward: CoordIndex,
    backward: HandleIndex,
    size: BoardSize,
    start: BoardPosition,
}

impl View for Board {
    type V = Map<(int, int), u64>;

    /// The cell handle at each occupied coordinate.
    closed spec fn view(&self) -> Map<(int, int), u64> {
        coord_entries(self.forward)
    }
}

impl Board {
    /// The coordinate of each cell handle on the board.
    pub closed spec fn positions(&self) -> Map<u64, (int, int)> {
        handle_entries(self.backward)
    }

    /// The corner of the bounding rectangle with the least coordinates.
    pub closed spec fn origin(&self) -> (int, int) {
        self.start@
    }

    /// The width and height of the bounding rectangle.
    pub closed spec fn extent(&self) -> (int, int) {
        self.size@
    }

    /// The corner of the bounding rectangle with the greatest coordinates.
    pub open spec fn far(&self) -> (int, int) {
        (self.origin().0 + self.extent().0, self.origin().1 + self.extent().1)
    }

    /// The bounding rectangle.
    pub open spec fn rectangle(&self) -> Rectangle {
        Rectangle { low: self.origin(), high: self.far() }
    }

    /// Whether the bounding rectangle, corners included, holds the point.
    pub open spec fn covers(&self, c: (int, int)) -> bool {
        self.rectangle().covers(c)
    }

    /// The board's invariant: the two maps are inverse to each other and hold finitely
    /// many cells, and the bounding rectangle lies on the machine's lattice and covers
    /// every occupied coordinate.
    pub closed spec fn wf(&self) -> bool {
        &&& forall|c: (int, int)|
            #![trigger self@.contains_key(c)]
            self@.contains_key(c) ==> self.positions().contains_key(self@[c])
                && self.positions()[self@[c]] == c
        &&& forall|h: u64|
            #![trigger self.positions().contains_key(h)]
            self.positions().contains_key(h) ==> self@.contains_key(self.positions()[h])
                && self@[self.positions()[h]] == h
        &&& forall|c: (int, int)|
            #![trigger self@.contains_key(c)]
            self@.contains_key(c) ==> self.covers(c)
        &&& self@.dom().finite()
        &&& self.positions().dom().finite()
        &&& representable(self.origin())
        &&& representable(self.far())
        &&& self.extent().0 >= 0
        &&& self.extent().1 >= 0
    }

    /// On a well-formed board the coordinate index and the handle index are inverse to
    /// each other: looking up a coordinate's handle leads back to the coordinate, and
    /// looking up a handle's coordinate leads back to the handle.
    pub proof fn lemma_bijection(&self)
        requires
            self.wf(),
        ensures
            forall|c: (int, int)|
                #![trigger self@.contains_key(c)]
                self@.contains_key(c) ==> self.positions().contains_key(self@[c])
                    && self.positions()[self@[c]] == c,
            forall|h: u64|
                #![trigger self.positions().contains_key(h)]
                self.positions().contains_key(h) ==> self@.contains_key(self.positions()[h])
                    && self@[self.positions()[h]] == h,
    {
    }

    /// A well-formed board holds finitely many cells: as many coordinates as handles.
    pub proof fn lemma_finite(&self)
        requires
            self.wf(),
        ensures
            self@.dom().finite(),
            self.positions().dom().finite(),
    {
    }

    /// On a well-formed board the bounding rectangle lies on the machine's lattice and
    /// covers every occupied coordinate.
    pub proof fn lemma_bounds(&self)
        requires
            self.wf(),
        ensures
            representable(self.origin()),
            representable(self.far()),
            self.extent().0 >= 0,
            self.extent().1 >= 0,
            forall|c: (int, int)|
                #![trigger self@.contains_key(c)]
                self@.contains_key(c) ==> self.covers(c) && representable(c),
    {
    }

    /// An empty board whose bounding rectangle starts at the lattice's zero point.
    pub fn new(size: BoardSize) -> (board: Board)
        requires
            size.x <= i32::MAX,
            size.y <= i32::MAX,
        ensures
            board.wf(),
            board@ == (Map::<(int, int), u64>::empty()),
            board.positions() == (Map::<u64, (int, int)>::empty()),
            board.origin() == (0int, 0int),
            board.extent() == size@,
    {
        Board {
            forward: CoordIndex::new(),
            backward: HandleIndex::new(),
            size,
            start: BoardPosition { x: 0, y: 0 },
        }
    }

    /// Grows the bounding rectangle, each axis by itself, just far enough to cover `pos`.
    fn grow(&mut self, pos: BoardPosition)
        requires
            old(self).wf(),
        ensures
            final(self).wf(),
            final(self)@ == old(self)@,
            final(self).positions() == old(self).positions(),
            final(self).rectangle() == old(self).rectangle().grown(pos@),
    {
        if pos.x < self.start.x {
            let diff: u32 = (self.start.x as i64 - pos.x as i64) as u32;
            self.size.x = self.size.x + diff;
            self.start.x = pos.x;
        } else if pos.x as i64 > self.start.x as i64 + self.size.x as i64 {
            self.size.x = (pos.x as i64 - self.start.x as i64) as u32;
        }
        if pos.y < self.start.y {
            let diff: u32 = (self.start.y as i64 - pos.y as i64) as u32;
            self.size.y = self.size.y + diff;
            self.start.y = pos.y;
        } else if pos.y as i64 > self.start.y as i64 + self.size.y as i64 {
            self.size.y = (pos.y as i64 - self.start.y as i64) as u32;
        }
        assert(self@ == old(self)@);
        assert(self.positions() == old(self).positions());
    }

    /// Records the cell `entity` at `pos`, and grows the bounding rectangle to cover `pos`.
    ///
    /// A cell that stood elsewhere is moved: its old coordinate is vacated and the handle
    /// found there is returned. A different cell that stood at `pos` leaves the board.
    pub fn insert(&mut self, pos: BoardPosition, entity: u64) -> (moved: Option<u64>)
        requires
            old(self).wf(),
        ensures
            final(self).wf(),
            final(self)@ == relocated(old(self)@, pos@, entity),
            final(self).positions() == relocated(old(self).positions(), entity, pos@),
            moved == (if old(self).positions().contains_key(entity)
                && old(self).positions()[entity] != pos@ {
                Some(entity)
            } else {
                None
            }),
            final(self).rectangle() == old(self).rectangle().grown(pos@),
    {
        self.grow(pos);
        let old_position = self.backward.get(entity);
        match old_position {
            Some(p) => {
                if p.0 == pos.x && p.1 == pos.y {
                    assert(self@ =~= relocated(self@, pos@, entity));
                    assert(self.positions() =~= relocated(self.positions(), entity, pos@));
                    return None;
                }
            },
            None => {},
        }
        let evicted = self.forward.insert(pos.x, pos.y, entity);
        match evicted {
            Some(other) => {
                self.backward.remove(other);
            },
            None => {},
        }
        let stale = self.backward.insert(entity, pos.x, pos.y);
        let moved = match stale {
            Some(p) => self.forward.remove(p.0, p.1),
            None => None,
        };
        assert(self@ =~= relocated(old(self)@, pos@, entity));
        assert(self.positions() =~= relocated(old(self).positions(), entity, pos@));
        moved
    }

    /// Takes the cell at `pos` off the board and returns its handle, if there is one.
    pub fn remove(&mut self, pos: BoardPosition) -> (removed: Option<u64>)
        requires
            old(self).wf(),
        ensures
            final(self).wf(),
            removed == old(self)@.get(pos@),
            final(self)@ == old(self)@.remove(pos@),
            final(self).positions() == (match removed {
                Some(e) => old(self).positions().remove(e),
                None => old(self).positions(),
            }),
            final(self).origin() == old(self).origin(),
            final(self).extent() == old(self).extent(),
    {
        let entity = self.forward.remove(pos.x, pos.y);
        if let Some(e) = entity {
            self.backward.remove(e);
        }
        proof {
            assert forall|c: (int, int)| #[trigger] self@.contains_key(c) implies {
                &&& self.positions().contains_key(self@[c])
                &&& self.positions()[self@[c]] == c
                &&& self.covers(c)
            } by {
                assert(old(self)@.contains_key(c));
            }
            assert forall|h: u64| #[trigger] self.positions().contains_key(h) implies {
                &&& self@.contains_key(self.positions()[h])
                &&& self@[self.positions()[h]] == h
            } by {
                assert(old(self).positions().contains_key(h));
            }
        }
        entity
    }

    /// Takes the cell `entity` off the board and returns its coordinate, if it is there.
    pub fn remove_entity(&mut self, entity: u64) -> (removed: Option<BoardPosition>)
        requires
            old(self).wf(),
        ensures
            final(self).wf(),
            match removed {
                Some(p) => old(self).positions().get(entity) == Some(p@),
                None => old(self).positions().get(entity).is_none(),
            },
            final(self).positions() == old(self).positions().remove(entity),
            final(self)@ == (match removed {
                Some(p) => old(self)@.remove(p@),
                None => old(self)@,
            }),
            final(self).origin() == old(self).origin(),
            final(self).extent() == old(self).extent(),
    {
        let pos = self.backward.remove(entity);
        let removed = match pos {
            Some(p) => {
                self.forward.remove(p.0, p.1);
                Some(BoardPosition { x: p.0, y: p.1 })
            },
            None => None,
        };
        proof {
            assert forall|c: (int, int)| #[trigger] self@.contains_key(c) implies {
                &&& self.positions().contains_key(self@[c])
                &&& self.positions()[self@[c]] == c
                &&& self.covers(c)
            } by {
                assert(old(self)@.contains_key(c));
            }
            assert forall|h: u64| #[trigger] self.positions().contains_key(h) implies {
                &&& self@.contains_key(self.positions()[h])
                &&& self@[self.positions()[h]] == h
            } by {
                assert(old(self).positions().contains_key(h));
            }
        }
        removed
    }

    /// The handle of the cell at `pos`, if there is one.
    pub fn get(&self, pos: BoardPosition) -> (found: Option<u64>)
        ensures
            found == self@.get(pos@),
    {
        self.forward.get(pos.x, pos.y)
    }

    /// The coordinate of the cell `entity`, if it is on the board.
    pub fn position(&self, entity: u64) -> (found: Option<BoardPosition>)
        ensures
            match found {
                Some(p) => self.positions().get(entity) == Some(p@),
                None => self.positions().get(entity).is_none(),
            },
    {
        match self.backward.get(entity) {
            Some(p) => Some(BoardPosition { x: p.0, y: p.1 }),
            None => None,
        }
    }

    /// The width and height of the bounding rectangle.
    pub fn size(&self) -> (size: BoardSize)
        ensures
            size@ == self.extent(),
    {
        self.size
    }

    /// The two corners of the bounding rectangle: least coordinates first.
    pub fn dimensions(&self) -> (corners: (BoardPosition, BoardPosition))
        requires
            self.wf(),
        ensures
            corners.0@ == self.origin(),
            corners.1@ == self.far(),
    {
        (
            self.start,
            BoardPosition {
                x: (self.start.x as i64 + self.size.x as i64) as i32,
                y: (self.start.y as i64 + self.size.y as i64) as i32,
            },
        )
    }

    /// The bounding rectangle as its origin and its extent.
    pub fn bounds(&self) -> (bounds: (BoardPosition, BoardSize))
        ensures
            bounds.0@ == self.origin(),
            bounds.1@ == self.extent(),
    {
        (self.start, self.size)
    }
}

} // verus!
