//! Three classic patterns under Conway's rules, wherever on the lattice they lie.

use crate::lattice::{live_neighbours, next_alive, step};
use crate::rules::GameRules;
use vstd::prelude::*;

verus! {

/// The two-by-two block with `c` in its lower left corner.
pub open spec fn block(c: (int, int)) -> Set<(int, int)> {
    set![c, (c.0 + 1, c.1), (c.0, c.1 + 1), (c.0 + 1, c.1 + 1)]
}

/// The row of three cells with `c` in its middle.
pub open spec fn blinker_flat(c: (int, int)) -> Set<(int, int)> {
    set![(c.0 - 1, c.1), c, (c.0 + 1, c.1)]
}

/// The column of three cells with `c` in its middle.
pub open spec fn blinker_upright(c: (int, int)) -> Set<(int, int)> {
    set![(c.0, c.1 - 1), c, (c.0, c.1 + 1)]
}

/// A live cell alone dies: the generation after it is empty.
pub proof fn lemma_lone_cell_dies(c: (int, int))
    ensures
        step(GameRules::Conway, set![c]) == Set::<(int, int)>::empty(),
{
    let alive = set![c];
    assert forall|d: (int, int)| !next_alive(GameRules::Conway, alive, d) by {
        assert(live_neighbours(alive, c) == 0);
    }
    assert(step(GameRules::Conway, alive) =~= Set::<(int, int)>::empty());
}

/// A block stays as it is.
pub proof fn lemma_block_is_stable(c: (int, int))
    ensures
        step(GameRules::Conway, block(c)) == block(c),
{
    let alive = block(c);
    assert forall|d: (int, int)| next_alive(GameRules::Conway, alive, d) == alive.contains(d) by {
    }
    assert(step(GameRules::Conway, alive) =~= alive);
}

/// A blinker turns from flat to upright and back: it has period two.
pub proof fn lemma_blinker_turns(c: (int, int))
    ensures
        step(GameRules::Conway, blinker_flat(c)) == blinker_upright(c),
        step(GameRules::Conway, blinker_upright(c)) == blinker_flat(c),
        step(GameRules::Conway, step(GameRules::Conway, blinker_flat(c))) == blinker_flat(c),
{
    let flat = blinker_flat(c);
    let upright = blinker_upright(c);
    assert forall|d: (int, int)| next_alive(GameRules::Conway, flat, d) == upright.contains(d) by {
    }
    assert forall|d: (int, int)| next_alive(GameRules::Conway, upright, d) == flat.contains(d) by {
    }
    assert(step(GameRules::Conway, flat) =~= upright);
    assert(step(GameRules::Conway, upright) =~= flat);
}

} // verus!
