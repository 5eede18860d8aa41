//! Rule evaluation: from a cell's state and its live-neighbour count to its next state.

use vstd::prelude::*;

verus! {

/// The rule sets the automaton can run under.
#[derive(Debug, Clone, Copy, PartialEq, Eq, Structural)]
pub enum GameRules {
    /// A live cell survives with two or three live neighbours; a dead cell is born with three.
    Conway,
}

impl GameRules {
    /// The next state of a cell, as a function of its state and its live-neighbour count.
    pub open spec fn next_state(self, alive: bool, alive_neighbours: nat) -> bool {
        match self {
            GameRules::Conway => if alive {
                alive_neighbours == 2 || alive_neighbours == 3
            } else {
                alive_neighbours == 3
            },
        }
    }

    /// Under every rule set a dead cell without a live neighbour stays dead. It is what
    /// lets a generation step look at the live cells and their neighbours only.
    pub proof fn lemma_nothing_comes_of_nothing(self)
        ensures
            !self.next_state(false, 0),
    {
    }

    /// Evaluates the rule for one cell.
    pub fn compute_state(&self, alive: bool, alive_neighbours: usize) -> (next: bool)
        ensures
            next == self.next_state(alive, alive_neighbours as nat),
    {
        match self {
            GameRules::Conway => if alive {
                alive_neighbours == 2 || alive_neighbours == 3
            } else {
                alive_neighbours == 3
            },
        }
    }
}

} // verus!
