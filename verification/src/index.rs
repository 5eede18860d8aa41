//! The two hash maps behind the board.
//!
//! They are `bevy::utils::HashMap`s, that is hashbrown's hash map under bevy's hasher.
//! The map type has a bound on a trait that hashbrown keeps to itself, so it cannot be
//! declared to the verifier; each map is held in a struct that the verifier does not
//! look into. What a map holds is known to the verifier only through the contracts in
//! this file, and none of them is proved: they say what hashbrown's documentation says.

use vstd::prelude::*;

verus! {

/// A `bevy::utils::HashMap` from lattice coordinates to cell handles.
#[verifier::external_body]
pub struct CoordIndex {
    map: bevy::utils::HashMap<(i32, i32), u64>,
}

/// A `bevy::utils::HashMap` from cell handles to lattice coordinates.
#[verifier::external_body]
pub struct HandleIndex {
    map: bevy::utils::HashMap<u64, (i32, i32)>,
}

/// The entries of a coordinate index, each coordinate as a pair of integers.
pub uninterp spec fn coord_entries(index: CoordIndex) -> Map<(int, int), u64>;

/// The entries of a handle index, each coordinate as a pair of integers.
pub uninterp spec fn handle_entries(index: HandleIndex) -> Map<u64, (int, int)>;

impl CoordIndex {
    /// `bevy::utils::HashMap::new`: the map it returns has no entries.
    #[verifier::external_body]
    pub(crate) fn new() -> (fresh: CoordIndex)
        ensures
            coord_entries(fresh) == (Map::<(int, int), u64>::empty()),
    {
        CoordIndex { map: bevy::utils::HashMap::new() }
    }

    /// `bevy::utils::HashMap::get`: the value stored under the key, if there is one.
    #[verifier::external_body]
    pub(crate) fn get(&self, x: i32, y: i32) -> (found: Option<u64>)
        ensures
            found == coord_entries(*self).get((x as int, y as int)),
    {
        self.map.get(&(x, y)).copied()
    }

    /// `bevy::utils::HashMap::insert`: afterwards the key maps to the value and every other
    /// entry is as before; the value that the key had before is returned.
    #[verifier::external_body]
    pub(crate) fn insert(&mut self, x: i32, y: i32, handle: u64) -> (previous: Option<u64>)
        ensures
            coord_entries(*final(self)) == coord_entries(*old(self)).insert(
                (x as int, y as int),
                handle,
            ),
            previous == coord_entries(*old(self)).get((x as int, y as int)),
    {
        self.map.insert((x, y), handle)
    }

    /// `bevy::utils::HashMap::remove`: afterwards the key has no entry and every other entry
    /// is as before; the value that the key had before is returned.
    #[verifier::external_body]
    pub(crate) fn remove(&mut self, x: i32, y: i32) -> (previous: Option<u64>)
        ensures
            coord_entries(*final(self)) == coord_entries(*old(self)).remove((x as int, y as int)),
            previous == coord_entries(*old(self)).get((x as int, y as int)),
    {
        self.map.remove(&(x, y))
    }
}

impl HandleIndex {
    /// `bevy::utils::HashMap::new`: the map it returns has no entries.
    #[verifier::external_body]
    pub(crate) fn new() -> (fresh: HandleIndex)
        ensures
            handle_entries(fresh) == (Map::<u64, (int, int)>::empty()),
    {
        HandleIndex { map: bevy::utils::HashMap::new() }
    }

    /// `bevy::utils::HashMap::get`: the value stored under the key, if there is one.
    #[verifier::external_body]
    pub(crate) fn get(&self, handle: u64) -> (found: Option<(i32, i32)>)
        ensures
            match found {
                Some(c) => handle_entries(*self).get(handle) == Some((c.0 as int, c.1 as int)),
                None => handle_entries(*self).get(handle).is_none(),
            },
    {
        self.map.get(&handle).copied()
    }

    /// `bevy::utils::HashMap::insert`: afterwards the key maps to the value and every other
    /// entry is as before; the value that the key had before is returned.
    #[verifier::external_body]
    pub(crate) fn insert(&mut self, handle: u64, x: i32, y: i32) -> (previous: Option<(i32, i32)>)
        ensures
            handle_entries(*final(self)) == handle_entries(*old(self)).insert(
                handle,
                (x as int, y as int),
            ),
            match previous {
                Some(c) => handle_entries(*old(self)).get(handle) == Some(
                    (c.0 as int, c.1 as int),
                ),
                None => handle_entries(*old(self)).get(handle).is_none(),
            },
    {
        self.map.insert(handle, (x, y))
    }

    /// `bevy::utils::HashMap::remove`: afterwards the key has no entry and every other entry
    /// is as before; the value that the key had before is returned.
    #[verifier::external_body]
    pub(crate) fn remove(&mut self, handle: u64) -> (previous: Option<(i32, i32)>)
        ensures
            handle_entries(*final(self)) == handle_entries(*old(self)).remove(handle),
            match previous {
                Some(c) => handle_entries(*old(self)).get(handle) == Some(
                    (c.0 as int, c.1 as int),
                ),
                None => handle_entries(*old(self)).get(handle).is_none(),
            },
    {
        self.map.remove(&handle)
    }
}

} // verus!
