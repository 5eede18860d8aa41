//! The playback controller: whether the colony is running, and when a generation is due.
//!
//! Time is counted in whole units of the caller's choosing; every duration in this file
//! is a number of those units.

use vstd::prelude::*;

verus! {

/// Whether generations are running.
#[derive(Debug, Clone, Copy, PartialEq, Eq, Hash, Structural)]
pub enum GamePlaying {
    Playing,
    Paused,
}

impl GamePlaying {
    /// The other state.
    pub open spec fn flipped(self) -> GamePlaying {
        match self {
            GamePlaying::Playing => GamePlaying::Paused,
            GamePlaying::Paused => GamePlaying::Playing,
        }
    }

    /// The other state.
    pub fn toggled(self) -> (other: GamePlaying)
        ensures
            other == self.flipped(),
    {
        match self {
            GamePlaying::Playing => GamePlaying::Paused,
            GamePlaying::Paused => GamePlaying::Playing,
        }
    }
}

/// A timer that runs out once in every period, over and over.
#[derive(Debug, Clone, Copy)]
pub struct Interval {
    period: u64,
    elapsed: u64,
}

/// What an interval timer holds.
pub struct IntervalView {
    /// The time between two times the timer runs out.
    pub period: int,
    /// The time gathered since the timer last ran out.
    pub elapsed: int,
}

impl IntervalView {
    /// Whether the timer runs out when `delta` more has passed.
    pub open spec fn finishes(self, delta: int) -> bool {
        self.elapsed + delta >= self.period
    }

    /// The timer when `delta` more has passed. A timer that runs out starts again from
    /// nothing: the time beyond the period is dropped.
    pub open spec fn after(self, delta: int) -> IntervalView {
        IntervalView {
            period: self.period,
            elapsed: if self.finishes(delta) {
                0
            } else {
                self.elapsed + delta
            },
        }
    }
}

impl View for Interval {
    type V = IntervalView;

    closed spec fn view(&self) -> IntervalView {
        IntervalView { period: self.period as int, elapsed: self.elapsed as int }
    }
}

impl Interval {
    /// A timer with the given period that has gathered no time.
    pub fn new(period: u64) -> (timer: Interval)
        ensures
            timer@ == (IntervalView { period: period as int, elapsed: 0 }),
    {
        Interval { period, elapsed: 0 }
    }

    /// Lets `delta` pass, and says whether the timer ran out.
    pub fn tick(&mut self, delta: u64) -> (finished: bool)
        ensures
            finished == old(self)@.finishes(delta as int),
            final(self)@ == old(self)@.after(delta as int),
    {
        if self.elapsed >= self.period || delta >= self.period - self.elapsed {
            self.elapsed = 0;
            true
        } else {
            self.elapsed = self.elapsed + delta;
            false
        }
    }
}

/// The playback controller.
///
/// A toggle command flips between paused and playing. After one is taken, further
/// toggle commands are passed over until the debounce time has passed, so that one key
/// press cannot count twice. While playing, a generation is due once in every period.
#[derive(Debug, Clone, Copy)]
pub struct Playback {
    state: GamePlaying,
    cadence: Interval,
    debounce: Interval,
    held: bool,
}

/// What a playback controller holds.
pub struct PlaybackView {
    /// Whether generations are running.
    pub state: GamePlaying,
    /// The timer that says when a generation is due.
    pub cadence: IntervalView,
    /// The timer that says when toggle commands are taken again.
    pub debounce: IntervalView,
    /// Whether toggle commands are being passed over.
    pub held: bool,
}

impl PlaybackView {
    /// A paused controller that has gathered no time.
    pub open spec fn paused(period: int, debounce: int) -> PlaybackView {
        PlaybackView {
            state: GamePlaying::Paused,
            cadence: IntervalView { period, elapsed: 0 },
            debounce: IntervalView { period: debounce, elapsed: 0 },
            held: false,
        }
    }

    /// Whether a toggle command that comes with this update is taken.
    pub open spec fn takes(self, toggle: bool) -> bool {
        !self.held && toggle
    }

    /// The state after an update.
    pub open spec fn next_state(self, toggle: bool) -> GamePlaying {
        if self.takes(toggle) {
            self.state.flipped()
        } else {
            self.state
        }
    }

    /// Whether an update in which `delta` passes makes a generation due.
    pub open spec fn due(self, delta: int, toggle: bool) -> bool {
        self.next_state(toggle) == GamePlaying::Playing && self.cadence.finishes(delta)
    }

    /// The controller after an update in which `delta` passes.
    ///
    /// A toggle command is taken unless commands are being passed over; the update
    /// that takes one starts the debounce time, and the later ones let it pass. The
    /// cadence gathers time only while playing.
    pub open spec fn after(self, delta: int, toggle: bool) -> PlaybackView {
        PlaybackView {
            state: self.next_state(toggle),
            cadence: if self.next_state(toggle) == GamePlaying::Playing {
                self.cadence.after(delta)
            } else {
                self.cadence
            },
            debounce: if self.held {
                self.debounce.after(delta)
            } else {
                self.debounce
            },
            held: if self.held {
                !self.debounce.finishes(delta)
            } else {
                toggle
            },
        }
    }

    /// The controller after a run of updates without a toggle command, one for each
    /// entry of `deltas`.
    pub open spec fn after_all(self, deltas: Seq<int>) -> PlaybackView
        decreases deltas.len(),
    {
        if deltas.len() == 0 {
            self
        } else {
            self.after_all(deltas.drop_last()).after(deltas.last(), false)
        }
    }
}

/// While paused, updates without a toggle command never make a generation due and
/// leave the controller paused, however many there are and however much time passes.
pub proof fn lemma_paused_stays_paused(start: PlaybackView, deltas: Seq<int>)
    requires
        start.state == GamePlaying::Paused,
    ensures
        start.after_all(deltas).state == GamePlaying::Paused,
        start.after_all(deltas).cadence == start.cadence,
        forall|delta: int| !start.after_all(deltas).due(delta, false),
    decreases deltas.len(),
{
    if deltas.len() > 0 {
        lemma_paused_stays_paused(start, deltas.drop_last());
    }
}

impl View for Playback {
    type V = PlaybackView;

    closed spec fn view(&self) -> PlaybackView {
        PlaybackView {
            state: self.state,
            cadence: self.cadence@,
            debounce: self.debounce@,
            held: self.held,
        }
    }
}

impl Playback {
    /// A paused controller with the given period between generations and the given
    /// debounce time.
    pub fn new(period: u64, debounce: u64) -> (playback: Playback)
        ensures
            playback@ == PlaybackView::paused(period as int, debounce as int),
    {
        Playback {
            state: GamePlaying::Paused,
            cadence: Interval::new(period),
            debounce: Interval::new(debounce),
            held: false,
        }
    }

    /// Whether generations are running.
    pub fn state(&self) -> (state: GamePlaying)
        ensures
            state == self@.state,
    {
        self.state
    }

    /// One update: takes or passes over the toggle command, lets `delta` pass, and
    /// says whether a generation is due.
    pub fn update(&mut self, delta: u64, toggle: bool) -> (due: bool)
        ensures
            due == old(self)@.due(delta as int, toggle),
            final(self)@ == old(self)@.after(delta as int, toggle),
    {
        if !self.held {
            if toggle {
                self.state = self.state.toggled();
                self.held = true;
            }
        } else if self.debounce.tick(delta) {
            self.held = false;
        }
        match self.state {
            GamePlaying::Playing => self.cadence.tick(delta),
            GamePlaying::Paused => false,
        }
    }
}

} // verus!
