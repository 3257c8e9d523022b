//! Choosing where the mines go: places are offered one by one, as they are
//! drawn, until enough different ones have been taken. The mines are the
//! first different places drawn, other than the square that must stay safe.

use vstd::prelude::*;
use crate::grid::{before, on_grid};
use crate::position_set::{lemma_places_push, place, places, PositionSet};

verus! {

/// Whether a sampler that has taken the places `taken` and is to hold
/// `wanted` places takes the place `draw`: it has room, and the place lies
/// on the grid and is new to it.
pub open spec fn takes(
    width: nat,
    height: nat,
    wanted: nat,
    taken: Seq<(usize, usize)>,
    draw: (usize, usize),
) -> bool {
    taken.len() < wanted && on_grid(width, height, place(draw)) && !places(taken).contains(
        place(draw),
    )
}

/// The places that a sampler holds once `draws` have been offered to it in
/// turn: `excluded` first, then each draw that lies on the grid and
/// differs from all places before it, as long as fewer than `wanted` places
/// are held.
pub open spec fn first_distinct(
    width: nat,
    height: nat,
    wanted: nat,
    excluded: (usize, usize),
    draws: Seq<(usize, usize)>,
) -> Seq<(usize, usize)>
    decreases draws.len(),
{
    if draws.len() == 0 {
        seq![excluded]
    } else {
        let earlier = first_distinct(width, height, wanted, excluded, draws.drop_last());
        if takes(width, height, wanted, earlier, draws.last()) {
            earlier.push(draws.last())
        } else {
            earlier
        }
    }
}

/// What `first_distinct` gives: `excluded` first; then only draws that lie
/// on the grid, none of them twice and no more than `wanted` places in all;
/// and, as long as there is room, every draw that lies on the grid.
pub proof fn lemma_first_distinct(
    width: nat,
    height: nat,
    wanted: nat,
    excluded: (usize, usize),
    draws: Seq<(usize, usize)>,
)
    requires
        wanted >= 1,
    ensures
        first_distinct(width, height, wanted, excluded, draws).len() >= 1,
        first_distinct(width, height, wanted, excluded, draws).len() <= wanted,
        first_distinct(width, height, wanted, excluded, draws)[0] == excluded,
        places(first_distinct(width, height, wanted, excluded, draws)).no_duplicates(),
        forall|i: int|
            1 <= i < first_distinct(width, height, wanted, excluded, draws).len() ==> {
                let taken = #[trigger] first_distinct(width, height, wanted, excluded, draws)[i];
                draws.contains(taken) && on_grid(width, height, place(taken))
            },
        first_distinct(width, height, wanted, excluded, draws).len() < wanted ==> forall|j: int|
            0 <= j < draws.len() && on_grid(width, height, place(#[trigger] draws[j])) ==> places(
                first_distinct(width, height, wanted, excluded, draws),
            ).contains(place(draws[j])),
    decreases draws.len(),
{
    let taken = first_distinct(width, height, wanted, excluded, draws);
    if draws.len() == 0 {
        assert(places(taken) =~= seq![place(excluded)]);
    } else {
        let before_last = draws.drop_last();
        let earlier = first_distinct(width, height, wanted, excluded, before_last);
        lemma_first_distinct(width, height, wanted, excluded, before_last);
        let last = draws.last();
        assert(draws[draws.len() - 1] == last);
        assert forall|i: int| 1 <= i < taken.len() implies draws.contains(#[trigger] taken[i])
            && on_grid(width, height, place(taken[i])) by {
            if i < earlier.len() {
                assert(taken[i] == earlier[i]);
                let k = choose|k: int| 0 <= k < before_last.len() && before_last[k] == earlier[i];
                assert(draws[k] == earlier[i]);
            }
        }
        if takes(width, height, wanted, earlier, last) {
            assert(places(earlier).to_set().contains(place(last)) == places(earlier).contains(
                place(last),
            ));
            lemma_places_push(earlier, last);
        }
        if taken.len() < wanted {
            assert forall|j: int|
                0 <= j < draws.len() && on_grid(
                    width,
                    height,
                    place(#[trigger] draws[j]),
                ) implies places(taken).contains(place(draws[j])) by {
                if j < before_last.len() {
                    assert(before_last[j] == draws[j]);
                    let k = choose|k: int|
                        0 <= k < places(earlier).len() && places(earlier)[k] == place(draws[j]);
                    assert(places(taken)[k] == place(draws[j]));
                } else if !takes(width, height, wanted, earlier, last) {
                    let k = choose|k: int|
                        0 <= k < places(earlier).len() && places(earlier)[k] == place(last);
                    assert(places(taken)[k] == place(last));
                } else {
                    assert(places(taken)[earlier.len() as int] == place(last));
                }
            }
        }
    }
}

/// The choice of the mines of one game, while it is being made.
///
/// The square that must stay safe is taken first, so that no draw can
/// choose it; it is dropped again when the choice is finished.
///
/// The sampler counts its draws in a `u64` and asks for no more once the
/// counter is used up; nothing else stops it before it has enough places.
pub struct MineSampler {
    chosen: PositionSet,
    excluded: (usize, usize),
    wanted: usize,
    draws_left: u64,
    offered: Ghost<Seq<(usize, usize)>>,
}

impl MineSampler {
    /// Number of columns of the grid.
    pub closed spec fn width(&self) -> nat {
        self.chosen.width()
    }

    /// Number of rows of the grid.
    pub closed spec fn height(&self) -> nat {
        self.chosen.height()
    }

    /// The square that must stay safe.
    pub closed spec fn excluded(&self) -> (usize, usize) {
        self.excluded
    }

    /// Number of mines to choose.
    pub closed spec fn count(&self) -> nat {
        (self.wanted - 1) as nat
    }

    /// Number of draws that the sampler still takes.
    pub closed spec fn draws_left(&self) -> nat {
        self.draws_left as nat
    }

    /// The draws that the sampler has counted so far, in their order.
    pub closed spec fn offered(&self) -> Seq<(usize, usize)> {
        self.offered@
    }

    /// The places taken so far, in the order in which they were taken.
    /// The first is the square that must stay safe.
    pub closed spec fn order(&self) -> Seq<(usize, usize)> {
        self.chosen.order()
    }

    /// Whether the sampler is in order: it has taken different places of
    /// the grid, the square that must stay safe first, and no more than
    /// the mines and that square together, which the grid has room for.
    pub closed spec fn wf(&self) -> bool {
        &&& self.chosen.wf()
        &&& 1 <= self.chosen.order().len() <= self.wanted
        &&& self.wanted <= self.chosen.width() * self.chosen.height()
        &&& self.chosen.order()[0] == self.excluded
        &&& self.chosen.order() == first_distinct(
            self.chosen.width(),
            self.chosen.height(),
            self.wanted as nat,
            self.excluded,
            self.offered@,
        )
    }

    /// Whether the sampler asks for another draw: it has not taken enough
    /// places yet and has draws left.
    pub open spec fn wants_draw(&self) -> bool {
        self.order().len() < self.count() + 1 && self.draws_left() > 0
    }

    /// What a sampler in order gives: the places taken are the first
    /// different places of the grid among the safe square and the draws,
    /// and no more than are wanted.
    pub proof fn lemma_taken(&self)
        requires
            self.wf(),
        ensures
            places(self.order()).no_duplicates(),
            1 <= self.order().len() <= self.count() + 1 <= self.width() * self.height(),
            self.order()[0] == self.excluded(),
            self.order() == first_distinct(
                self.width(),
                self.height(),
                self.count() + 1,
                self.excluded(),
                self.offered(),
            ),
            forall|i: int|
                0 <= i < self.order().len() ==> on_grid(
                    self.width(),
                    self.height(),
                    place(#[trigger] self.order()[i]),
                ),
    {
        self.chosen.lemma_order();
    }

    /// Starts the choice of `count` mines on a grid of the given size,
    /// none of them on `excluded`.
    pub fn new(width: usize, height: usize, count: usize, excluded: (usize, usize)) -> (sampler:
        MineSampler)
        requires
            width * height <= usize::MAX,
            count < width * height,
            excluded.0 < width,
            excluded.1 < height,
        ensures
            sampler.wf(),
            sampler.width() == width,
            sampler.height() == height,
            sampler.excluded() == excluded,
            sampler.count() == count,
            sampler.order() == seq![excluded],
            sampler.offered() == Seq::<(usize, usize)>::empty(),
            sampler.draws_left() == u64::MAX,
    {
        let mut chosen = PositionSet::new(width, height);
        chosen.insert(excluded.0, excluded.1);
        proof {
            assert(chosen.order() =~= seq![excluded]);
        }
        MineSampler {
            chosen,
            excluded,
            wanted: count + 1,
            draws_left: u64::MAX,
            offered: Ghost(Seq::empty()),
        }
    }

    /// Whether the sampler asks for another draw.
    pub fn needs_draw(&self) -> (asks: bool)
        requires
            self.wf(),
        ensures
            asks == self.wants_draw(),
    {
        self.chosen.len() < self.wanted && self.draws_left > 0
    }

    /// Offers the sampler the place `(x, y)` that was drawn. The sampler
    /// takes it if it asks for a draw and the place lies on the grid and
    /// was not taken before. A sampler that asks for no draw ignores the
    /// offer; one that does counts the draw in any case.
    pub fn offer(&mut self, x: usize, y: usize) -> (taken: bool)
        requires
            old(self).wf(),
        ensures
            final(self).wf(),
            final(self).width() == old(self).width(),
            final(self).height() == old(self).height(),
            final(self).excluded() == old(self).excluded(),
            final(self).count() == old(self).count(),
            taken == (old(self).wants_draw() && on_grid(
                old(self).width(),
                old(self).height(),
                (x as int, y as int),
            ) && !places(old(self).order()).contains((x as int, y as int))),
            final(self).order() == (if taken {
                old(self).order().push((x, y))
            } else {
                old(self).order()
            }),
            final(self).draws_left() == (if old(self).wants_draw() {
                (old(self).draws_left() - 1) as nat
            } else {
                old(self).draws_left()
            }),
            final(self).offered() == (if old(self).wants_draw() {
                old(self).offered().push((x, y))
            } else {
                old(self).offered()
            }),
    {
        proof {
            self.chosen.lemma_order();
        }
        if !self.needs_draw() {
            return false;
        }
        self.draws_left -= 1;
        proof {
            let counted = self.offered@.push((x, y));
            assert(counted.drop_last() =~= self.offered@);
            self.offered = Ghost(counted);
        }
        self.chosen.insert(x, y)
    }

    /// Finishes the choice and hands out the places of the mines.
    ///
    /// These are the places taken, in the order in which they were taken
    /// and without the square that must stay safe. A sampler that is
    /// finished before it has taken enough places makes up the number
    /// with the first free squares of the grid, read row by row.
    pub fn finish(self) -> (mines: Vec<(usize, usize)>)
        requires
            self.wf(),
        ensures
            mines@.len() == self.count(),
            self.order() == first_distinct(
                self.width(),
                self.height(),
                self.count() + 1,
                self.excluded(),
                self.offered(),
            ),
            self.order().len() == self.count() + 1 ==> mines@ == self.order().drop_first(),
            places(mines@).no_duplicates(),
            forall|i: int|
                0 <= i < mines@.len() ==> on_grid(
                    self.width(),
                    self.height(),
                    place(#[trigger] mines@[i]),
                ) && mines@[i] != self.excluded(),
            self.order().drop_first().is_prefix_of(mines@),
            forall|i: int, j: int|
                self.order().len() - 1 <= i < j < mines@.len() ==> before(
                    place(#[trigger] mines@[i]),
                    place(#[trigger] mines@[j]),
                ),
            forall|i: int, q: (int, int)|
                #![trigger mines@[i], before(q, place(mines@[i]))]
                self.order().len() - 1 <= i < mines@.len() && on_grid(
                    self.width(),
                    self.height(),
                    q,
                ) && before(q, place(mines@[i])) && q != place(self.excluded()) ==> places(
                    mines@,
                ).contains(q),
    {
        let mut chosen = self.chosen;
        let ghost taken = chosen.order();
        proof {
            chosen.lemma_order();
        }
        chosen.fill(self.wanted);
        let ghost full = chosen.order();
        let ghost all = chosen@;
        proof {
            chosen.lemma_order();
        }
        chosen.remove(self.excluded.0, self.excluded.1);
        proof {
            chosen.lemma_order();
            let rest = chosen.order();
            // The square that must stay safe heads the list, and no place is
            // listed twice: it is the head that has gone.
            let i = choose|i: int|
                0 <= i < full.len() && #[trigger] full[i] == self.excluded && rest == full.remove(i);
            assert(places(full)[i] == places(full)[0]);
            assert forall|k: int| 0 <= k < rest.len() implies rest[k] != self.excluded by {
                assert(places(full)[k + 1] != places(full)[0]);
            }
            assert forall|k: int, q: (int, int)|
                #![trigger rest[k], before(q, place(rest[k]))]
                taken.len() - 1 <= k < rest.len() && on_grid(self.width(), self.height(), q)
                    && before(q, place(rest[k])) && q != place(self.excluded) implies places(
                rest,
            ).contains(q) by {
                // A place beyond the ones taken was put in by `fill`, which
                // takes no place before all earlier ones are in.
                let p = place(rest[k]);
                assert(places(full)[k + 1] == p);
                if places(taken).to_set().contains(p) {
                    let t = choose|t: int| 0 <= t < places(taken).len() && places(taken)[t] == p;
                    assert(places(full)[t] == places(full)[k + 1]);
                }
                assert(all.contains(p) && before(q, p));
            }
        }
        chosen.into_positions()
    }
}

} // verus!
