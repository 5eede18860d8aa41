//! The transition engine: one generation step in two phases.
//!
//! The first phase classifies: it works out the next state of every candidate against
//! the colony as it stands, and changes nothing. It can be run here, one candidate after
//! another, or by many workers at once: `candidate_coordinates` says what to look at,
//! each point once, and `next_state_at` looks at one cell. The second phase commits a
//! buffer of such outcomes. A buffer that classifies every candidate commits to the next
//! generation, in whatever order its entries stand and however often one occurs.

use crate::board::BoardPosition;
use crate::index::{coord_entries, CoordIndex};
use crate::lattice::{
    candidates, lemma_candidates_suffice, lemma_spans_grown, live_neighbours, near, next_alive,
    next_generation, representable,
};
use crate::life::Life;
use crate::rules::GameRules;
use vstd::prelude::*;

verus! {

/// Whether a list of coordinates names the point.
pub open spec fn names(points: Seq<BoardPosition>, c: (int, int)) -> bool {
    exists|e: int| 0 <= e < points.len() && (#[trigger] points[e])@ == c
}

/// What a coordinate more does to a list.
proof fn lemma_names_push(points: Seq<BoardPosition>, pos: BoardPosition)
    ensures
        forall|c: (int, int)|
            #![trigger names(points.push(pos), c)]
            names(points.push(pos), c) <==> names(points, c) || c == pos@,
{
    let longer = points.push(pos);
    assert(longer[points.len() as int] == pos);
    assert forall|c: (int, int)|
        #![trigger names(longer, c)]
        names(longer, c) <==> names(points, c) || c == pos@ by {
        if names(points, c) {
            let e = choose|e: int| 0 <= e < points.len() && (#[trigger] points[e])@ == c;
            assert(longer[e]@ == c);
        }
        if names(longer, c) {
            let e = choose|e: int| 0 <= e < longer.len() && (#[trigger] longer[e])@ == c;
            if e < points.len() {
                assert(points[e]@ == c);
            }
        }
    }
}

/// Whether a buffer of outcomes has an entry for the point.
pub open spec fn settles(outcomes: Seq<(BoardPosition, bool)>, c: (int, int)) -> bool {
    exists|e: int| 0 <= e < outcomes.len() && (#[trigger] outcomes[e]).0@ == c
}

/// Whether a buffer of outcomes has an entry that makes the point alive.
pub open spec fn raises(outcomes: Seq<(BoardPosition, bool)>, c: (int, int)) -> bool {
    exists|e: int| 0 <= e < outcomes.len() && (#[trigger] outcomes[e]).0@ == c && outcomes[e].1
}

/// The state that the last entry for the point gives it.
pub open spec fn verdict(outcomes: Seq<(BoardPosition, bool)>, c: (int, int)) -> bool
    decreases outcomes.len(),
{
    if outcomes.len() == 0 {
        false
    } else if outcomes.last().0@ == c {
        outcomes.last().1
    } else {
        verdict(outcomes.drop_last(), c)
    }
}

/// The points that a buffer of outcomes brings onto a record: those that it makes alive
/// and that were not on the record.
pub open spec fn born(
    outcomes: Seq<(BoardPosition, bool)>,
    recorded: Set<(int, int)>,
) -> Set<(int, int)> {
    Set::new(|c: (int, int)| raises(outcomes, c) && !recorded.contains(c))
}

/// Whether a buffer of outcomes classifies a live set: each entry gives its point the
/// state that the point has in the next generation, and every machine coordinate among
/// the candidates, and no other point, has an entry.
pub open spec fn classifies(
    outcomes: Seq<(BoardPosition, bool)>,
    rules: GameRules,
    alive: Set<(int, int)>,
) -> bool {
    &&& forall|e: int|
        0 <= e < outcomes.len() ==> (#[trigger] outcomes[e]).1 == next_alive(
            rules,
            alive,
            outcomes[e].0@,
        )
    &&& forall|c: (int, int)|
        #![trigger settles(outcomes, c)]
        settles(outcomes, c) <==> candidates(alive).contains(c) && representable(c)
}

/// The point in place `k` of the three-by-three block around `c`, counted column by
/// column; place 4 is `c` itself.
pub open spec fn around(c: (int, int), k: int) -> (int, int) {
    (c.0 + k / 3 - 1, c.1 + k % 3 - 1)
}

/// The cells on record after a generation step: the live ones, and of the dead ones on
/// record before those that the step did not look at or that still touch a live cell.
pub open spec fn kept_after(
    recorded: Set<(int, int)>,
    before: Set<(int, int)>,
    after: Set<(int, int)>,
) -> Set<(int, int)> {
    Set::new(
        |c: (int, int)|
            after.contains(c) || (recorded.contains(c) && !(candidates(before).contains(c)
                && live_neighbours(after, c) == 0)),
    )
}

/// What an entry more does to a buffer of outcomes.
pub(crate) proof fn lemma_settles_push(
    outcomes: Seq<(BoardPosition, bool)>,
    entry: (BoardPosition, bool),
)
    ensures
        forall|c: (int, int)|
            #![trigger settles(outcomes.push(entry), c)]
            settles(outcomes.push(entry), c) <==> settles(outcomes, c) || c == entry.0@,
        forall|c: (int, int)|
            #![trigger raises(outcomes.push(entry), c)]
            raises(outcomes.push(entry), c) <==> raises(outcomes, c) || (c == entry.0@
                && entry.1),
        forall|c: (int, int)|
            #![trigger verdict(outcomes.push(entry), c)]
            verdict(outcomes.push(entry), c) == (if c == entry.0@ {
                entry.1
            } else {
                verdict(outcomes, c)
            }),
{
    let longer = outcomes.push(entry);
    assert(longer.drop_last() =~= outcomes);
    assert(longer[outcomes.len() as int] == entry);
    assert forall|c: (int, int)|
        #![trigger settles(longer, c)]
        settles(longer, c) <==> settles(outcomes, c) || c == entry.0@ by {
        if settles(outcomes, c) {
            let e = choose|e: int| 0 <= e < outcomes.len() && (#[trigger] outcomes[e]).0@ == c;
            assert(longer[e].0@ == c);
        }
        if settles(longer, c) {
            let e = choose|e: int| 0 <= e < longer.len() && (#[trigger] longer[e]).0@ == c;
            if e < outcomes.len() {
                assert(outcomes[e].0@ == c);
            }
        }
    }
    assert forall|c: (int, int)|
        #![trigger raises(longer, c)]
        raises(longer, c) <==> raises(outcomes, c) || (c == entry.0@ && entry.1) by {
        if raises(outcomes, c) {
            let e = choose|e: int|
                0 <= e < outcomes.len() && (#[trigger] outcomes[e]).0@ == c && outcomes[e].1;
            assert(longer[e].0@ == c && longer[e].1);
        }
        if raises(longer, c) {
            let e = choose|e: int|
                0 <= e < longer.len() && (#[trigger] longer[e]).0@ == c && longer[e].1;
            if e < outcomes.len() {
                assert(outcomes[e].0@ == c && outcomes[e].1);
            }
        }
    }
}

/// Where every entry for a point gives it the same state, that state is the verdict,
/// and the point is raised just when that state is alive.
pub(crate) proof fn lemma_verdict_of_agreeing(
    outcomes: Seq<(BoardPosition, bool)>,
    c: (int, int),
    state: bool,
)
    requires
        settles(outcomes, c),
        forall|e: int|
            0 <= e < outcomes.len() && (#[trigger] outcomes[e]).0@ == c ==> outcomes[e].1
                == state,
    ensures
        verdict(outcomes, c) == state,
        raises(outcomes, c) == state,
    decreases outcomes.len(),
{
    let e = choose|e: int| 0 <= e < outcomes.len() && (#[trigger] outcomes[e]).0@ == c;
    if outcomes.last().0@ != c {
        let front = outcomes.drop_last();
        assert(front[e].0@ == c);
        assert forall|f: int|
            0 <= f < front.len() && (#[trigger] front[f]).0@ == c implies front[f].1
            == state by {
            assert(outcomes[f].0@ == c);
        }
        lemma_verdict_of_agreeing(front, c, state);
    }
    if state {
        assert(outcomes[e].0@ == c && outcomes[e].1);
    }
}

/// Every point near `a` has a place in the block around `a`.
proof fn lemma_near_is_around(a: (int, int), c: (int, int))
    requires
        near(a, c),
    ensures
        exists|k: int| 0 <= k < 9 && #[trigger] around(a, k) == c,
{
    let k = (c.0 - a.0 + 1) * 3 + (c.1 - a.1 + 1);
    assert(around(a, k) == c);
}

impl Life {
    /// What committing a buffer of outcomes makes of a colony. Every point with an
    /// entry has the state that its last entry gives it, and no other point changes
    /// state. A cell comes onto the record where an entry makes a point without one
    /// alive, and the bounding rectangle grows just far enough to cover it. A cell with
    /// an entry that is dead in the end leaves the record unless a live cell touches
    /// it.
    pub open spec fn commits_to(self, next: Life, outcomes: Seq<(BoardPosition, bool)>) -> bool {
        &&& self.carries_to(next)
        &&& self.stretches_to(next, born(outcomes, self.cells().dom()))
        &&& forall|c: (int, int)|
            #![trigger next.alive().contains(c)]
            next.alive().contains(c) == (if settles(outcomes, c) {
                verdict(outcomes, c)
            } else {
                self.alive().contains(c)
            })
        &&& forall|c: (int, int)|
            #![trigger next.cells().contains_key(c)]
            next.cells().contains_key(c) == ((self.cells().contains_key(c) || raises(outcomes, c))
                && !(settles(outcomes, c) && !next.alive().contains(c) && live_neighbours(
                next.alive(),
                c,
            ) == 0))
    }

    /// What one generation step makes of a colony. The live cells of `next` are the
    /// next generation of the live cells of `self`; a cell that is born off the record
    /// comes onto it, and the bounding rectangle grows just far enough to cover it; and
    /// a dead cell among the candidates leaves the record unless a live cell still
    /// touches it.
    pub open spec fn ticks_to(self, next: Life) -> bool {
        &&& self.carries_to(next)
        &&& self.stretches_to(next, next.cells().dom().difference(self.cells().dom()))
        &&& next.alive() == next_generation(self.rules(), self.alive())
        &&& next.cells().dom() == kept_after(self.cells().dom(), self.alive(), next.alive())
    }

    /// Committing a buffer that classifies the colony is one generation step, in
    /// whatever order the entries stand and however often a point has one: it does not
    /// matter who classified, one worker or many.
    pub proof fn lemma_commit_of_classified(
        self,
        next: Life,
        outcomes: Seq<(BoardPosition, bool)>,
    )
        requires
            self.wf(),
            classifies(outcomes, self.rules(), self.alive()),
            self.commits_to(next, outcomes),
        ensures
            self.ticks_to(next),
    {
        let rules = self.rules();
        let before = self.alive();
        self.lemma_cells();
        assert forall|c: (int, int)| settles(outcomes, c) implies verdict(outcomes, c)
            == next_alive(rules, before, c) && raises(outcomes, c) == next_alive(
            rules,
            before,
            c,
        ) by {
            lemma_verdict_of_agreeing(outcomes, c, next_alive(rules, before, c));
        }
        assert forall|c: (int, int)| raises(outcomes, c) implies settles(outcomes, c) by {
            let e = choose|e: int|
                0 <= e < outcomes.len() && (#[trigger] outcomes[e]).0@ == c && outcomes[e].1;
        }
        assert forall|c: (int, int)|
            next.alive().contains(c) == next_generation(rules, before).contains(c) by {
            if !settles(outcomes, c) && representable(c) {
                lemma_candidates_suffice(rules, before, c);
            }
        }
        assert(next.alive() =~= next_generation(rules, before));
        assert forall|c: (int, int)|
            next.cells().dom().contains(c) == kept_after(
                self.cells().dom(),
                before,
                next.alive(),
            ).contains(c) by {
            assert(next.cells().contains_key(c) == ((self.cells().contains_key(c) || raises(
                outcomes,
                c,
            )) && !(settles(outcomes, c) && !next.alive().contains(c) && live_neighbours(
                next.alive(),
                c,
            ) == 0)));
        }
        assert(next.cells().dom() =~= kept_after(self.cells().dom(), before, next.alive()));
        assert(next.cells().dom().difference(self.cells().dom()) =~= born(
            outcomes,
            self.cells().dom(),
        )) by {
            assert forall|c: (int, int)|
                next.cells().dom().difference(self.cells().dom()).contains(c) == born(
                    outcomes,
                    self.cells().dom(),
                ).contains(c) by {
                assert(next.cells().contains_key(c) == ((self.cells().contains_key(c) || raises(
                    outcomes,
                    c,
                )) && !(settles(outcomes, c) && !next.alive().contains(c) && live_neighbours(
                    next.alive(),
                    c,
                ) == 0)));
            }
        }
    }

    /// The live cells after a generation step depend on the rules and the live cells
    /// before it and on nothing else: two colonies that agree in these agree in their
    /// live cells after the step, whatever their handles, their dead cells on record
    /// and their rectangles are, and however often the step is tried.
    pub proof fn lemma_ticks_agree(self, next: Life, other: Life, other_next: Life)
        requires
            self.ticks_to(next),
            other.ticks_to(other_next),
            self.rules() == other.rules(),
            self.alive() == other.alive(),
        ensures
            next.alive() == other_next.alive(),
    {
    }

    /// The points to classify: every machine coordinate among the candidates, each
    /// once. There are at most nine for each live cell.
    pub fn candidate_coordinates(&self) -> (points: Vec<BoardPosition>)
        requires
            self.wf(),
        ensures
            forall|i: int|
                0 <= i < points.len() ==> candidates(self.alive()).contains(#[trigger] points[i]@),
            forall|c: (int, int)|
                candidates(self.alive()).contains(c) && representable(c) ==> names(points@, c),
            forall|i: int, j: int| 0 <= i < j < points.len() ==> points[i]@ != points[j]@,
            self.alive().finite(),
            points.len() <= 9 * self.alive().len(),
    {
        let snapshot = self.alive_coordinates();
        let mut points: Vec<BoardPosition> = Vec::new();
        let mut seen = CoordIndex::new();
        let mut i: usize = 0;
        while i < snapshot.len()
            invariant
                i <= snapshot.len(),
                snapshot.len() == self.alive().len(),
                points.len() <= 9 * i,
                forall|j: int|
                    0 <= j < snapshot.len() ==> self.alive().contains(#[trigger] snapshot[j]@),
                forall|e: int|
                    0 <= e < points.len() ==> candidates(self.alive()).contains(
                        #[trigger] points[e]@,
                    ),
                forall|c: (int, int)|
                    #![trigger names(points@, c)]
                    coord_entries(seen).contains_key(c) <==> names(points@, c),
                forall|e: int, f: int| 0 <= e < f < points.len() ==> points[e]@ != points[f]@,
                forall|j: int, c: (int, int)|
                    #![trigger snapshot[j], names(points@, c)]
                    0 <= j < i && near(snapshot[j]@, c) && representable(c) ==> names(points@, c),
            decreases snapshot.len() - i,
        {
            let centre = snapshot[i];
            let mut k: i64 = 0;
            while k < 9
                invariant
                    0 <= k <= 9,
                    0 <= i < snapshot.len(),
                    centre == snapshot[i as int],
                    self.alive().contains(centre@),
                    points.len() <= 9 * i + k,
                    forall|e: int|
                        0 <= e < points.len() ==> candidates(self.alive()).contains(
                            #[trigger] points[e]@,
                        ),
                    forall|c: (int, int)|
                        #![trigger names(points@, c)]
                        coord_entries(seen).contains_key(c) <==> names(points@, c),
                    forall|e: int, f: int|
                        0 <= e < f < points.len() ==> points[e]@ != points[f]@,
                    forall|j: int, c: (int, int)|
                        #![trigger snapshot[j], names(points@, c)]
                        0 <= j < i && near(snapshot[j]@, c) && representable(c) ==> names(
                            points@,
                            c,
                        ),
                    forall|m: int|
                        #![trigger around(centre@, m)]
                        0 <= m < k && representable(around(centre@, m)) ==> names(
                            points@,
                            around(centre@, m),
                        ),
                decreases 9 - k,
            {
                let x = centre.x as i64 + k / 3 - 1;
                let y = centre.y as i64 + k % 3 - 1;
                if i32::MIN as i64 <= x && x <= i32::MAX as i64 && i32::MIN as i64 <= y && y
                    <= i32::MAX as i64 {
                    let pos = BoardPosition { x: x as i32, y: y as i32 };
                    proof {
                        assert(pos@ == around(centre@, k as int));
                        assert(near(centre@, pos@));
                    }
                    if seen.get(pos.x, pos.y).is_none() {
                        let ghost before = points@;
                        proof {
                            lemma_names_push(before, pos);
                            assert(!names(before, pos@));
                            assert forall|e: int| 0 <= e < before.len() implies (
                            #[trigger] before[e])@ != pos@ by {}
                        }
                        seen.insert(pos.x, pos.y, points.len() as u64);
                        points.push(pos);
                        proof {
                            assert forall|e: int, f: int|
                                0 <= e < f < points.len() implies points[e]@ != points[f]@ by {
                                if f < before.len() {
                                    assert(before[e]@ != before[f]@);
                                } else {
                                    assert(points[e] == before[e]);
                                }
                            }
                        }
                    }
                }
                k = k + 1;
            }
            proof {
                assert forall|c: (int, int)|
                    near(centre@, c) && representable(c) implies names(points@, c) by {
                    lemma_near_is_around(centre@, c);
                    let m = choose|m: int| 0 <= m < 9 && #[trigger] around(centre@, m) == c;
                }
            }
            i = i + 1;
        }
        proof {
            assert forall|c: (int, int)|
                candidates(self.alive()).contains(c) && representable(c) implies names(
                points@,
                c,
            ) by {
                let a = choose|a: (int, int)| #[trigger] self.alive().contains(a) && near(a, c);
                let j = choose|j: int| 0 <= j < snapshot.len() && #[trigger] snapshot[j]@ == a;
                assert(near(snapshot[j]@, c));
            }
        }
        points
    }

    /// The first phase: the next state of every candidate, worked out against the
    /// colony as it stands. The buffer has one entry for each candidate, at most nine
    /// for each live cell. Nothing is changed.
    pub fn classify(&self) -> (outcomes: Vec<(BoardPosition, bool)>)
        requires
            self.wf(),
        ensures
            classifies(outcomes@, self.rules(), self.alive()),
            forall|i: int, j: int|
                0 <= i < j < outcomes.len() ==> outcomes[i].0@ != outcomes[j].0@,
            self.alive().finite(),
            outcomes.len() <= 9 * self.alive().len(),
    {
        let points = self.candidate_coordinates();
        let mut outcomes: Vec<(BoardPosition, bool)> = Vec::new();
        let mut i: usize = 0;
        while i < points.len()
            invariant
                self.wf(),
                i <= points.len(),
                outcomes.len() == i,
                forall|e: int|
                    0 <= e < i ==> (#[trigger] outcomes[e]).0 == points[e] && outcomes[e].1
                        == next_alive(self.rules(), self.alive(), points[e]@),
            decreases points.len() - i,
        {
            let pos = points[i];
            let next = self.next_state_at(pos);
            outcomes.push((pos, next));
            i = i + 1;
        }
        proof {
            assert forall|c: (int, int)|
                #![trigger settles(outcomes@, c)]
                settles(outcomes@, c) <==> candidates(self.alive()).contains(c) && representable(
                    c,
                ) by {
                if settles(outcomes@, c) {
                    let e = choose|e: int|
                        0 <= e < outcomes.len() && (#[trigger] outcomes[e]).0@ == c;
                    assert(points[e]@ == c);
                    self.lemma_cells();
                }
                if candidates(self.alive()).contains(c) && representable(c) {
                    let e = choose|e: int| 0 <= e < points.len() && (#[trigger] points[e])@ == c;
                    assert(outcomes[e].0@ == c);
                }
            }
            assert forall|i: int, j: int| 0 <= i < j < outcomes.len() implies outcomes[i].0@
                != outcomes[j].0@ by {
                assert(outcomes[i].0 == points[i] && outcomes[j].0 == points[j]);
            }
        }
        outcomes
    }

    /// Gives every cell named in `outcomes` the state that stands with it, entry after
    /// entry, a cell being made where one comes alive off the record.
    pub(crate) fn apply(&mut self, outcomes: &Vec<(BoardPosition, bool)>)
        requires
            old(self).wf(),
        ensures
            old(self).carries_to(*final(self)),
            old(self).stretches_to(*final(self), born(outcomes@, old(self).cells().dom())),
            forall|c: (int, int)|
                #![trigger final(self).alive().contains(c)]
                final(self).alive().contains(c) == (if settles(outcomes@, c) {
                    verdict(outcomes@, c)
                } else {
                    old(self).alive().contains(c)
                }),
            forall|c: (int, int)|
                #![trigger final(self).cells().contains_key(c)]
                final(self).cells().contains_key(c) == (old(self).cells().contains_key(c)
                    || raises(outcomes@, c)),
    {
        let ghost start = *self;
        proof {
            assert(outcomes@.take(0) =~= Seq::<(BoardPosition, bool)>::empty());
            assert(born(outcomes@.take(0), start.cells().dom()) =~= Set::<(int, int)>::empty());
        }
        let mut i: usize = 0;
        while i < outcomes.len()
            invariant
                start.carries_to(*self),
                start.stretches_to(*self, born(outcomes@.take(i as int), start.cells().dom())),
                i <= outcomes.len(),
                forall|c: (int, int)|
                    #![trigger self.alive().contains(c)]
                    self.alive().contains(c) == (if settles(outcomes@.take(i as int), c) {
                        verdict(outcomes@.take(i as int), c)
                    } else {
                        start.alive().contains(c)
                    }),
                forall|c: (int, int)|
                    #![trigger self.cells().contains_key(c)]
                    self.cells().contains_key(c) == (start.cells().contains_key(c) || raises(
                        outcomes@.take(i as int),
                        c,
                    )),
            decreases outcomes.len() - i,
        {
            let (pos, next) = outcomes[i];
            let ghost before = *self;
            self.set_alive(pos, next);
            proof {
                let done = outcomes@.take(i as int);
                let more = outcomes@.take(i + 1);
                assert(more =~= done.push(outcomes@[i as int]));
                lemma_settles_push(done, outcomes@[i as int]);
                assert forall|c: (int, int)|
                    start.cells().dom().contains(c) implies before.cells().dom().contains(c) by {
                    assert(before.cells().contains_key(c) == (start.cells().contains_key(c)
                        || raises(done, c)));
                }
                start.lemma_carries_on(before, *self);
                assert(before.cells().contains_key(pos@) == (start.cells().contains_key(pos@)
                    || raises(done, pos@)));
                if next && !before.cells().contains_key(pos@) {
                    lemma_spans_grown(
                        before.rectangle(),
                        start.rectangle(),
                        born(done, start.cells().dom()),
                        pos@,
                    );
                    assert(born(more, start.cells().dom()) =~= born(
                        done,
                        start.cells().dom(),
                    ).insert(pos@));
                } else {
                    assert(born(more, start.cells().dom()) =~= born(done, start.cells().dom()));
                }
                assert forall|c: (int, int)|
                    #![trigger self.alive().contains(c)]
                    self.alive().contains(c) == (if settles(more, c) {
                        verdict(more, c)
                    } else {
                        start.alive().contains(c)
                    }) by {
                    assert(before.alive().contains(c) == (if settles(done, c) {
                        verdict(done, c)
                    } else {
                        start.alive().contains(c)
                    }));
                }
                assert forall|c: (int, int)|
                    #![trigger self.cells().contains_key(c)]
                    self.cells().contains_key(c) == (start.cells().contains_key(c) || raises(
                        more,
                        c,
                    )) by {
                    assert(before.cells().contains_key(c) == (start.cells().contains_key(c)
                        || raises(done, c)));
                    assert(self.cells().dom().contains(c) == self.cells().contains_key(c));
                    assert(before.cells().dom().contains(c) == before.cells().contains_key(c));
                }
            }
            i = i + 1;
        }
        proof {
            assert(outcomes@.take(outcomes.len() as int) =~= outcomes@);
        }
    }

    /// The second phase: commits a buffer of outcomes. Each cell named takes the state
    /// that stands with it, entry after entry, a cell being made where one comes alive
    /// off the record; then the dead cells among those named that no live cell touches
    /// leave the record.
    pub fn commit(&mut self, outcomes: &Vec<(BoardPosition, bool)>)
        requires
            old(self).wf(),
        ensures
            old(self).commits_to(*final(self), outcomes@),
    {
        let ghost start = *self;
        self.apply(outcomes);
        let ghost mid = *self;
        proof {
            assert(outcomes@.take(0) =~= Seq::<(BoardPosition, bool)>::empty());
        }
        let mut i: usize = 0;
        while i < outcomes.len()
            invariant
                self.wf(),
                self.rules() == mid.rules(),
                self.alive() == mid.alive(),
                self.rectangle() == mid.rectangle(),
                i <= outcomes.len(),
                forall|c: (int, int)|
                    #![trigger self.cells().contains_key(c)]
                    self.cells().contains_key(c) == (mid.cells().contains_key(c) && !(settles(
                        outcomes@.take(i as int),
                        c,
                    ) && mid.idle_at(c))),
                forall|c: (int, int)|
                    #![trigger self.cells()[c]]
                    self.cells().contains_key(c) ==> self.cells()[c] == mid.cells()[c],
            decreases outcomes.len() - i,
        {
            let pos = outcomes[i].0;
            let ghost before = *self;
            self.prune(pos);
            proof {
                let done = outcomes@.take(i as int);
                assert(outcomes@.take(i + 1) =~= done.push(outcomes@[i as int]));
                lemma_settles_push(done, outcomes@[i as int]);
                assert forall|c: (int, int)|
                    #![trigger self.cells().contains_key(c)]
                    self.cells().contains_key(c) == (mid.cells().contains_key(c) && !(settles(
                        outcomes@.take(i + 1),
                        c,
                    ) && mid.idle_at(c))) by {
                    assert(before.cells().contains_key(c) == (mid.cells().contains_key(c)
                        && !(settles(done, c) && mid.idle_at(c))));
                }
            }
            i = i + 1;
        }
        proof {
            assert(outcomes@.take(outcomes.len() as int) =~= outcomes@);
            assert forall|c: (int, int)|
                #![trigger self.cells().contains_key(c)]
                self.cells().contains_key(c) == ((start.cells().contains_key(c) || raises(
                    outcomes@,
                    c,
                )) && !(settles(outcomes@, c) && !self.alive().contains(c) && live_neighbours(
                    self.alive(),
                    c,
                ) == 0)) by {
                assert(mid.cells().contains_key(c) == (start.cells().contains_key(c) || raises(
                    outcomes@,
                    c,
                )));
            }
            assert forall|c: (int, int)|
                #![trigger self.cells()[c]]
                start.cells().contains_key(c) && self.cells().contains_key(
                    c,
                ) implies self.cells()[c] == start.cells()[c] by {
                assert(mid.cells().contains_key(c));
                assert(self.cells()[c] == mid.cells()[c]);
            }
            assert forall|c: (int, int), d: (int, int)|
                #![trigger self.cells()[c], start.cells()[d]]
                start.cells().contains_key(d) && self.cells().contains_key(c)
                    && !start.cells().contains_key(c) implies self.cells()[c]
                != start.cells()[d] by {
                assert(mid.cells().contains_key(c));
                assert(self.cells()[c] == mid.cells()[c]);
            }
        }
    }

    /// One generation step: classifies, then commits.
    ///
    /// No point outside the candidates changes its state.
    pub fn tick(&mut self)
        requires
            old(self).wf(),
        ensures
            old(self).ticks_to(*final(self)),
            forall|c: (int, int)|
                #![trigger final(self).alive().contains(c)]
                !candidates(old(self).alive()).contains(c) ==> final(self).alive().contains(c)
                    == old(self).alive().contains(c),
    {
        let outcomes = self.classify();
        self.commit(&outcomes);
        proof {
            old(self).lemma_commit_of_classified(*self, outcomes@);
            assert forall|c: (int, int)|
                #![trigger self.alive().contains(c)]
                !candidates(old(self).alive()).contains(c) implies self.alive().contains(c)
                == old(self).alive().contains(c) by {
                lemma_candidates_suffice(old(self).rules(), old(self).alive(), c);
            }
        }
    }
}

} // verus!
