//! The game: a colony under a playback controller.

use crate::board::{BoardPosition, BoardSize};
use crate::lattice::Rectangle;
use crate::life::Life;
use crate::pattern::BoardAsset;
use crate::playback::{GamePlaying, Playback, PlaybackView};
use crate::rules::GameRules;
use vstd::prelude::*;

verus! {

/// A colony and the controller that says when its generations run.
pub struct Game {
    life: Life,
    playback: Playback,
}

impl Game {
    /// The colony.
    pub closed spec fn colony(&self) -> Life {
        self.life
    }

    /// What the playback controller holds.
    pub closed spec fn controls(&self) -> PlaybackView {
        self.playback@
    }

    /// A paused game on an empty colony.
    pub fn new(size: BoardSize, rules: GameRules, period: u64, debounce: u64) -> (game: Game)
        requires
            size.x <= i32::MAX,
            size.y <= i32::MAX,
        ensures
            game.colony().wf(),
            game.colony().alive() == (Set::<(int, int)>::empty()),
            game.colony().cells() == (Map::<(int, int), u64>::empty()),
            game.colony().rectangle() == (Rectangle { low: (0, 0), high: size@ }),
            game.colony().rules() == rules,
            game.controls() == PlaybackView::paused(period as int, debounce as int),
    {
        Game { life: Life::new(size, rules), playback: Playback::new(period, debounce) }
    }

    /// The colony, to look at.
    pub fn life(&self) -> (life: &Life)
        ensures
            *life == self.colony(),
    {
        &self.life
    }

    /// Whether generations are running.
    pub fn state(&self) -> (state: GamePlaying)
        ensures
            state == self.controls().state,
    {
        self.playback.state()
    }

    /// One update of the controller alone: hands it the toggle command and the time that
    /// passed, and says whether a generation is due. The colony is left as it is; whoever
    /// calls classifies it and commits the outcomes.
    pub fn advance(&mut self, delta: u64, toggle: bool) -> (due: bool)
        ensures
            due == old(self).controls().due(delta as int, toggle),
            final(self).controls() == old(self).controls().after(delta as int, toggle),
            final(self).colony() == old(self).colony(),
    {
        self.playback.update(delta, toggle)
    }

    /// Commits a buffer of outcomes to the colony. The command is taken only while
    /// playing.
    pub fn commit(&mut self, outcomes: &Vec<(BoardPosition, bool)>) -> (taken: bool)
        requires
            old(self).colony().wf(),
        ensures
            taken == (old(self).controls().state == GamePlaying::Playing),
            final(self).controls() == old(self).controls(),
            final(self).colony().wf(),
            taken ==> old(self).colony().commits_to(final(self).colony(), outcomes@),
            !taken ==> final(self).colony() == old(self).colony(),
    {
        match self.playback.state() {
            GamePlaying::Playing => {
                self.life.commit(outcomes);
                true
            },
            GamePlaying::Paused => false,
        }
    }

    /// One update: hands the toggle command and the time that passed to the controller
    /// and runs one generation if one is due. While paused the colony is left as it is.
    pub fn update(&mut self, delta: u64, toggle: bool) -> (ticked: bool)
        requires
            old(self).colony().wf(),
        ensures
            ticked == old(self).controls().due(delta as int, toggle),
            final(self).controls() == old(self).controls().after(delta as int, toggle),
            final(self).colony().wf(),
            ticked ==> old(self).colony().ticks_to(final(self).colony()),
            !ticked ==> final(self).colony() == old(self).colony(),
    {
        let due = self.playback.update(delta, toggle);
        if due {
            self.life.tick();
        }
        due
    }

    /// Toggles the cell at `pos` by hand. The command is taken only while paused.
    pub fn toggle_cell(&mut self, pos: BoardPosition) -> (taken: bool)
        requires
            old(self).colony().wf(),
        ensures
            taken == (old(self).controls().state == GamePlaying::Paused),
            final(self).controls() == old(self).controls(),
            final(self).colony().wf(),
            taken ==> old(self).colony().sets_to(
                final(self).colony(),
                pos@,
                !old(self).colony().alive().contains(pos@),
            ),
            !taken ==> final(self).colony() == old(self).colony(),
    {
        match self.playback.state() {
            GamePlaying::Paused => {
                self.life.toggle(pos);
                true
            },
            GamePlaying::Playing => false,
        }
    }

    /// Lays a rectangular seed pattern on the lattice at `offset`. The command is taken
    /// only while paused.
    pub fn seed(&mut self, pattern: &BoardAsset, offset: BoardPosition) -> (taken: bool)
        requires
            old(self).colony().wf(),
            pattern.is_rectangular(),
        ensures
            taken == (old(self).controls().state == GamePlaying::Paused),
            final(self).controls() == old(self).controls(),
            final(self).colony().wf(),
            taken ==> old(self).colony().lays_to(final(self).colony(), pattern.footprint(offset@)),
            !taken ==> final(self).colony() == old(self).colony(),
    {
        match self.playback.state() {
            GamePlaying::Paused => {
                self.life.seed(pattern, offset);
                true
            },
            GamePlaying::Playing => false,
        }
    }
}

/// While paused, the update may be called any number of times without a toggle
/// command and the colony stays as it was: `states` holds a game before and after each
/// of a run of such updates, `deltas` the time that passed in each.
pub proof fn lemma_paused_updates_change_nothing(states: Seq<Game>, deltas: Seq<u64>)
    requires
        states.len() == deltas.len() + 1,
        states[0].controls().state == GamePlaying::Paused,
        forall|i: int|
            #![trigger deltas[i]]
            0 <= i < deltas.len() ==> {
                &&& states[i + 1].controls() == states[i].controls().after(deltas[i] as int, false)
                &&& !states[i].controls().due(deltas[i] as int, false) ==> states[i + 1].colony()
                    == states[i].colony()
            },
    ensures
        forall|i: int|
            #![trigger states[i]]
            0 <= i < states.len() ==> states[i].colony() == states[0].colony()
                && states[i].controls().state == GamePlaying::Paused,
{
    assert forall|i: int| #![trigger states[i]] 0 <= i < states.len() implies states[i].colony()
        == states[0].colony() && states[i].controls().state == GamePlaying::Paused by {
        lemma_paused_prefix(states, deltas, i);
    }
}

/// The induction behind `lemma_paused_updates_change_nothing`.
proof fn lemma_paused_prefix(states: Seq<Game>, deltas: Seq<u64>, upto: int)
    requires
        states.len() == deltas.len() + 1,
        states[0].controls().state == GamePlaying::Paused,
        forall|i: int|
            #![trigger deltas[i]]
            0 <= i < deltas.len() ==> {
                &&& states[i + 1].controls() == states[i].controls().after(deltas[i] as int, false)
                &&& !states[i].controls().due(deltas[i] as int, false) ==> states[i + 1].colony()
                    == states[i].colony()
            },
        0 <= upto < states.len(),
    ensures
        states[upto].colony() == states[0].colony(),
        states[upto].controls().state == GamePlaying::Paused,
    decreases upto,
{
    if upto > 0 {
        lemma_paused_prefix(states, deltas, upto - 1);
        let delta = deltas[upto - 1];
        assert(states[upto - 1 + 1] == states[upto]);
    }
}

} // verus!
