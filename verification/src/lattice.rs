//! The lattice as mathematics: points, rectangles, neighbourhoods and the generation step.
//!
//! A point is a pair of integers, `(x, y)`; a population is the set of points that are alive.

use crate::rules::GameRules;
use vstd::prelude::*;

verus! {

/// Whether both components of a point fit a machine coordinate.
pub open spec fn representable(c: (int, int)) -> bool {
    &&& i32::MIN <= c.0 <= i32::MAX
    &&& i32::MIN <= c.1 <= i32::MAX
}

/// The smaller of two integers.
pub open spec fn lesser(a: int, b: int) -> int {
    if a <= b {
        a
    } else {
        b
    }
}

/// The larger of two integers.
pub open spec fn greater(a: int, b: int) -> int {
    if a >= b {
        a
    } else {
        b
    }
}

/// An axis-parallel rectangle of the lattice, given by two opposite corners, both of
/// which belong to it.
pub struct Rectangle {
    /// The corner with the least coordinates.
    pub low: (int, int),
    /// The corner with the greatest coordinates.
    pub high: (int, int),
}

impl Rectangle {
    /// Whether the point lies in the rectangle.
    pub open spec fn covers(self, c: (int, int)) -> bool {
        &&& self.low.0 <= c.0 <= self.high.0
        &&& self.low.1 <= c.1 <= self.high.1
    }

    /// Whether `inner` lies in the rectangle, side by side.
    pub open spec fn encloses(self, inner: Rectangle) -> bool {
        &&& self.low.0 <= inner.low.0
        &&& self.low.1 <= inner.low.1
        &&& inner.high.0 <= self.high.0
        &&& inner.high.1 <= self.high.1
    }

    /// The rectangle stretched, each axis by itself, just far enough to cover the point.
    pub open spec fn grown(self, c: (int, int)) -> Rectangle {
        Rectangle {
            low: (lesser(self.low.0, c.0), lesser(self.low.1, c.1)),
            high: (greater(self.high.0, c.0), greater(self.high.1, c.1)),
        }
    }

    /// The rectangle stretched to cover each point of a sequence in turn.
    pub open spec fn grown_by(self, points: Seq<(int, int)>) -> Rectangle
        decreases points.len(),
    {
        if points.len() == 0 {
            self
        } else {
            self.grown_by(points.drop_last()).grown(points.last())
        }
    }

    /// Whether the rectangle is the least one that encloses `base` and covers every point
    /// of `points`: each of its sides is a side of `base` or passes through a point.
    pub open spec fn spans(self, base: Rectangle, points: Set<(int, int)>) -> bool {
        &&& self.encloses(base)
        &&& forall|c: (int, int)|
            #![trigger points.contains(c)]
            points.contains(c) ==> self.covers(c)
        &&& (self.low.0 == base.low.0 || exists|c: (int, int)|
            #![trigger points.contains(c)]
            points.contains(c) && c.0 == self.low.0)
        &&& (self.low.1 == base.low.1 || exists|c: (int, int)|
            #![trigger points.contains(c)]
            points.contains(c) && c.1 == self.low.1)
        &&& (self.high.0 == base.high.0 || exists|c: (int, int)|
            #![trigger points.contains(c)]
            points.contains(c) && c.0 == self.high.0)
        &&& (self.high.1 == base.high.1 || exists|c: (int, int)|
            #![trigger points.contains(c)]
            points.contains(c) && c.1 == self.high.1)
    }
}

/// A rectangle stretched to cover a point covers that point and still encloses what it
/// was before.
pub proof fn lemma_grown_covers(rect: Rectangle, c: (int, int))
    requires
        rect.low.0 <= rect.high.0,
        rect.low.1 <= rect.high.1,
    ensures
        rect.grown(c).covers(c),
        rect.grown(c).encloses(rect),
        rect.covers(c) ==> rect.grown(c) == rect,
{
}

/// However many points a rectangle is stretched over, one after another, it never shrinks
/// and it covers every one of them.
pub proof fn lemma_growth_is_monotone(rect: Rectangle, points: Seq<(int, int)>)
    requires
        rect.low.0 <= rect.high.0,
        rect.low.1 <= rect.high.1,
    ensures
        rect.grown_by(points).encloses(rect),
        forall|i: int|
            0 <= i < points.len() ==> rect.grown_by(points).covers(#[trigger] points[i]),
    decreases points.len(),
{
    if points.len() > 0 {
        let before = points.drop_last();
        lemma_growth_is_monotone(rect, before);
        let grown = rect.grown_by(before);
        lemma_grown_covers(grown, points.last());
        assert forall|i: int| 0 <= i < points.len() implies rect.grown_by(points).covers(
            #[trigger] points[i],
        ) by {
            if i < points.len() - 1 {
                assert(before[i] == points[i]);
                assert(grown.covers(points[i]));
            }
        }
    }
}

/// Stretching a rectangle over one more point keeps it the least rectangle around its
/// base and the points it was stretched over.
pub proof fn lemma_spans_grown(
    rect: Rectangle,
    base: Rectangle,
    points: Set<(int, int)>,
    c: (int, int),
)
    requires
        rect.spans(base, points),
    ensures
        rect.grown(c).spans(base, points.insert(c)),
{
    let wider = rect.grown(c);
    let more = points.insert(c);
    assert(more.contains(c));
    if wider.low.0 != base.low.0 {
        if wider.low.0 != c.0 {
            let w = choose|w: (int, int)|
                #![trigger points.contains(w)]
                points.contains(w) && w.0 == rect.low.0;
            assert(more.contains(w));
        }
    }
    if wider.low.1 != base.low.1 {
        if wider.low.1 != c.1 {
            let w = choose|w: (int, int)|
                #![trigger points.contains(w)]
                points.contains(w) && w.1 == rect.low.1;
            assert(more.contains(w));
        }
    }
    if wider.high.0 != base.high.0 {
        if wider.high.0 != c.0 {
            let w = choose|w: (int, int)|
                #![trigger points.contains(w)]
                points.contains(w) && w.0 == rect.high.0;
            assert(more.contains(w));
        }
    }
    if wider.high.1 != base.high.1 {
        if wider.high.1 != c.1 {
            let w = choose|w: (int, int)|
                #![trigger points.contains(w)]
                points.contains(w) && w.1 == rect.high.1;
            assert(more.contains(w));
        }
    }
    assert forall|p: (int, int)|
        #![trigger more.contains(p)]
        more.contains(p) implies wider.covers(p) by {
        if p != c {
            assert(points.contains(p));
        }
    }
}

/// There is one least rectangle around a base and a set of points, and no other.
pub proof fn lemma_spans_is_unique(
    first: Rectangle,
    second: Rectangle,
    base: Rectangle,
    points: Set<(int, int)>,
)
    requires
        first.spans(base, points),
        second.spans(base, points),
    ensures
        first == second,
{
}

/// A set whose points a list names, each once, is finite and as large as the list is
/// long.
pub proof fn lemma_listed(list: Seq<(int, int)>, points: Set<(int, int)>)
    requires
        forall|i: int, j: int| 0 <= i < j < list.len() ==> list[i] != list[j],
        forall|i: int| 0 <= i < list.len() ==> points.contains(#[trigger] list[i]),
        forall|c: (int, int)|
            points.contains(c) ==> exists|i: int| 0 <= i < list.len() && #[trigger] list[i] == c,
    ensures
        points.finite(),
        points.len() == list.len(),
    decreases list.len(),
{
    if list.len() == 0 {
        assert(points =~= Set::<(int, int)>::empty());
    } else {
        let last = list.last();
        let front = list.drop_last();
        let fewer = points.remove(last);
        assert forall|c: (int, int)| fewer.contains(c) implies exists|i: int|
            0 <= i < front.len() && #[trigger] front[i] == c by {
            let i = choose|i: int| 0 <= i < list.len() && #[trigger] list[i] == c;
            assert(front[i] == c);
        }
        assert forall|i: int| 0 <= i < front.len() implies fewer.contains(#[trigger] front[i]) by {
            assert(front[i] == list[i]);
        }
        lemma_listed(front, fewer);
        assert(points.contains(list[list.len() - 1]));
        assert(points =~= fewer.insert(last));
    }
}

/// Whether two points are the same or touch, side to side or corner to corner.
pub open spec fn near(a: (int, int), b: (int, int)) -> bool {
    &&& -1 <= a.0 - b.0 <= 1
    &&& -1 <= a.1 - b.1 <= 1
}

/// One if the point is alive, zero if not.
pub open spec fn lit(alive: Set<(int, int)>, c: (int, int)) -> nat {
    if alive.contains(c) {
        1
    } else {
        0
    }
}

/// How many of the eight points that touch `c` are alive.
pub open spec fn live_neighbours(alive: Set<(int, int)>, c: (int, int)) -> nat {
    lit(alive, (c.0 - 1, c.1 - 1)) + lit(alive, (c.0 - 1, c.1)) + lit(alive, (c.0 - 1, c.1 + 1))
        + lit(alive, (c.0, c.1 - 1)) + lit(alive, (c.0, c.1 + 1)) + lit(
        alive,
        (c.0 + 1, c.1 - 1),
    ) + lit(alive, (c.0 + 1, c.1)) + lit(alive, (c.0 + 1, c.1 + 1))
}

/// Whether the point is alive in the generation that follows `alive`.
pub open spec fn next_alive(rules: GameRules, alive: Set<(int, int)>, c: (int, int)) -> bool {
    rules.next_state(alive.contains(c), live_neighbours(alive, c))
}

/// The points whose state a generation step looks at: the live ones and all that touch
/// a live one.
pub open spec fn candidates(alive: Set<(int, int)>) -> Set<(int, int)> {
    Set::new(|c: (int, int)| exists|a: (int, int)| #[trigger] alive.contains(a) && near(a, c))
}

/// The generation that follows `alive` on the unbounded lattice.
pub open spec fn step(rules: GameRules, alive: Set<(int, int)>) -> Set<(int, int)> {
    Set::new(|c: (int, int)| next_alive(rules, alive, c))
}

/// The generation that follows `alive` on the machine's lattice: the step of the
/// unbounded lattice, less the points that no machine coordinate names.
pub open spec fn next_generation(rules: GameRules, alive: Set<(int, int)>) -> Set<(int, int)> {
    Set::new(|c: (int, int)| representable(c) && next_alive(rules, alive, c))
}

/// A point that no live point touches has no live neighbour.
pub proof fn lemma_far_from_life(alive: Set<(int, int)>, c: (int, int))
    requires
        !candidates(alive).contains(c),
    ensures
        !alive.contains(c),
        live_neighbours(alive, c) == 0,
{
    assert forall|a: (int, int)| near(a, c) implies !alive.contains(a) by {
        if alive.contains(a) {
            assert(candidates(alive).contains(c));
        }
    }
    assert(near(c, c));
    assert(near((c.0 - 1, c.1 - 1), c));
    assert(near((c.0 - 1, c.1), c));
    assert(near((c.0 - 1, c.1 + 1), c));
    assert(near((c.0, c.1 - 1), c));
    assert(near((c.0, c.1 + 1), c));
    assert(near((c.0 + 1, c.1 - 1), c));
    assert(near((c.0 + 1, c.1), c));
    assert(near((c.0 + 1, c.1 + 1), c));
}

/// The candidates are the live points and the points with a live neighbour.
pub proof fn lemma_candidates(alive: Set<(int, int)>, c: (int, int))
    ensures
        candidates(alive).contains(c) <==> alive.contains(c) || live_neighbours(alive, c) > 0,
{
    if !candidates(alive).contains(c) {
        lemma_far_from_life(alive, c);
    } else {
        let a = choose|a: (int, int)| #[trigger] alive.contains(a) && near(a, c);
        if a != c {
            assert(a == (c.0 - 1, c.1 - 1) || a == (c.0 - 1, c.1) || a == (c.0 - 1, c.1 + 1) || a
                == (c.0, c.1 - 1) || a == (c.0, c.1 + 1) || a == (c.0 + 1, c.1 - 1) || a == (
                c.0 + 1,
                c.1,
            ) || a == (c.0 + 1, c.1 + 1));
        }
    }
}

/// The candidates are all a generation step needs to look at: a point outside them is
/// dead before the step and dead after it.
pub proof fn lemma_candidates_suffice(rules: GameRules, alive: Set<(int, int)>, c: (int, int))
    requires
        !candidates(alive).contains(c),
    ensures
        next_alive(rules, alive, c) == alive.contains(c),
        step(rules, alive).contains(c) == alive.contains(c),
        next_generation(rules, alive).contains(c) == alive.contains(c),
{
    lemma_far_from_life(alive, c);
    rules.lemma_nothing_comes_of_nothing();
}

/// Where no live point lies on the rim of the machine's lattice, the lattice's bounds
/// cut nothing off: the next generation is that of the unbounded lattice.
pub proof fn lemma_interior_step_is_exact(rules: GameRules, alive: Set<(int, int)>)
    requires
        forall|a: (int, int)| #[trigger]
            alive.contains(a) ==> i32::MIN < a.0 < i32::MAX && i32::MIN < a.1 < i32::MAX,
    ensures
        next_generation(rules, alive) == step(rules, alive),
{
    assert forall|c: (int, int)| next_alive(rules, alive, c) implies representable(c) by {
        if !representable(c) {
            assert forall|a: (int, int)| alive.contains(a) implies !near(a, c) by {}
            assert(!candidates(alive).contains(c));
            lemma_candidates_suffice(rules, alive, c);
        }
    }
    assert(next_generation(rules, alive) =~= step(rules, alive));
}

} // verus!
