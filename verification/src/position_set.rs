//! A set of places on a grid, with the places kept in the order in which
//! they were put in.

use vstd::prelude::*;
use vstd::set_lib::lemma_len_subset;
use crate::grid::{before, grid, grid_prefix, lemma_grid_len, on_grid};

verus! {

/// A place given by machine integers, as a place of the model.
pub open spec fn place(q: (usize, usize)) -> (int, int) {
    (q.0 as int, q.1 as int)
}

/// A list of places given by machine integers, as places of the model.
pub open spec fn places(list: Seq<(usize, usize)>) -> Seq<(int, int)> {
    list.map_values(|q: (usize, usize)| place(q))
}

/// A list of places holds `p` exactly if the set of its places does.
pub proof fn lemma_places_contains(list: Seq<(usize, usize)>, p: (int, int))
    ensures
        places(list).to_set().contains(p) <==> exists|i: int|
            0 <= i < list.len() && place(#[trigger] list[i]) == p,
{
    let mapped = places(list);
    if exists|i: int| 0 <= i < list.len() && place(#[trigger] list[i]) == p {
        let i = choose|i: int| 0 <= i < list.len() && place(#[trigger] list[i]) == p;
        assert(mapped[i] == p);
    }
}

/// Appending a new place to a list without repeats gives a list without
/// repeats whose set has grown by that place.
pub proof fn lemma_places_push(list: Seq<(usize, usize)>, q: (usize, usize))
    requires
        places(list).no_duplicates(),
        !places(list).to_set().contains(place(q)),
    ensures
        places(list.push(q)) == places(list).push(place(q)),
        places(list.push(q)).no_duplicates(),
        places(list.push(q)).to_set() == places(list).to_set().insert(place(q)),
{
    let longer = places(list.push(q));
    places(list).lemma_push_to_set_commute(place(q));
    assert forall|i: int, j: int|
        0 <= i < longer.len() && 0 <= j < longer.len() && i != j implies longer[i]
        != longer[j] by {
        if i < list.len() && j < list.len() {
            assert(places(list)[i] != places(list)[j]);
        } else if i < list.len() {
            assert(places(list).contains(places(list)[i]));
        } else {
            assert(places(list).contains(places(list)[j]));
        }
    }
}

/// Taking one place out of a list without repeats gives a list without
/// repeats whose set has lost that place.
pub proof fn lemma_places_remove(list: Seq<(usize, usize)>, i: int)
    requires
        places(list).no_duplicates(),
        0 <= i < list.len(),
    ensures
        places(list.remove(i)).no_duplicates(),
        places(list.remove(i)).to_set() == places(list).to_set().remove(place(list[i])),
{
    let before_it = places(list);
    let shorter = places(list.remove(i));
    assert forall|a: int, b: int|
        0 <= a < shorter.len() && 0 <= b < shorter.len() && a != b implies shorter[a]
        != shorter[b] by {
        let a0 = if a < i {
            a
        } else {
            a + 1
        };
        let b0 = if b < i {
            b
        } else {
            b + 1
        };
        assert(shorter[a] == before_it[a0] && shorter[b] == before_it[b0]);
    }
    assert forall|p: (int, int)|
        shorter.to_set().contains(p) <==> before_it.to_set().remove(place(list[i])).contains(
            p,
        ) by {
        if shorter.to_set().contains(p) {
            let a = choose|a: int| 0 <= a < shorter.len() && shorter[a] == p;
            let a0 = if a < i {
                a
            } else {
                a + 1
            };
            assert(before_it[a0] == p);
        }
        if before_it.to_set().remove(place(list[i])).contains(p) {
            let a0 = choose|a0: int| 0 <= a0 < before_it.len() && before_it[a0] == p;
            assert(before_it[i] == place(list[i]));
            let a = if a0 < i {
                a0
            } else {
                a0 - 1
            };
            assert(shorter[a] == p);
        }
    }
}

/// A set of places on a grid of fixed size.
#[derive(Debug)]
pub struct PositionSet {
    width: usize,
    height: usize,
    marks: Vec<Vec<bool>>,
    members: Vec<(usize, usize)>,
}

impl View for PositionSet {
    type V = Set<(int, int)>;

    closed spec fn view(&self) -> Set<(int, int)> {
        places(self.members@).to_set()
    }
}

/// A row of `width` unset marks.
fn unmarked_row(width: usize) -> (row: Vec<bool>)
    ensures
        row@.len() == width,
        forall|c: int| 0 <= c < width ==> !(#[trigger] row@[c]),
{
    let mut row: Vec<bool> = Vec::new();
    let mut i: usize = 0;
    while i < width
        invariant
            i <= width,
            row@.len() == i,
            forall|c: int| 0 <= c < i ==> !(#[trigger] row@[c]),
        decreases width - i,
    {
        row.push(false);
        i += 1;
    }
    row
}

impl PositionSet {
    /// Number of columns of the grid.
    pub closed spec fn width(&self) -> nat {
        self.width as nat
    }

    /// Number of rows of the grid.
    pub closed spec fn height(&self) -> nat {
        self.height as nat
    }

    /// The places of the set, in the order in which they were put in.
    pub closed spec fn order(&self) -> Seq<(usize, usize)> {
        self.members@
    }

    /// Whether the set is in order: no place is listed twice, every place
    /// lies on the grid, and the marks say which places are in.
    pub closed spec fn wf(&self) -> bool {
        &&& self.marks@.len() == self.height
        &&& forall|r: int| 0 <= r < self.height ==> (#[trigger] self.marks@[r])@.len() == self.width
        &&& places(self.members@).no_duplicates()
        &&& forall|c: int, r: int|
            0 <= c < self.width && 0 <= r < self.height ==> (#[trigger] self.marks@[r]@[c]
                <==> self@.contains((c, r)))
        &&& forall|i: int|
            0 <= i < self.members@.len() ==> on_grid(
                self.width as nat,
                self.height as nat,
                place(#[trigger] self.members@[i]),
            )
    }

    /// What a set in order gives: it lists its places once each, all of
    /// them on the grid.
    pub proof fn lemma_order(&self)
        requires
            self.wf(),
        ensures
            places(self.order()).no_duplicates(),
            places(self.order()).to_set() == self@,
            self@.finite(),
            self@.len() == self.order().len(),
            self@.subset_of(grid(self.width(), self.height())),
            forall|i: int|
                0 <= i < self.order().len() ==> on_grid(
                    self.width(),
                    self.height(),
                    place(#[trigger] self.order()[i]),
                ),
    {
        places(self.members@).unique_seq_to_set();
        lemma_grid_len(self.width(), self.height());
        assert forall|p: (int, int)| self@.contains(p) implies grid(
            self.width(),
            self.height(),
        ).contains(p) by {}
    }

    /// The empty set on a grid of the given size.
    pub fn new(width: usize, height: usize) -> (set: PositionSet)
        ensures
            set.wf(),
            set.width() == width,
            set.height() == height,
            set@ == Set::<(int, int)>::empty(),
            set.order() == Seq::<(usize, usize)>::empty(),
    {
        let mut marks: Vec<Vec<bool>> = Vec::new();
        let mut j: usize = 0;
        while j < height
            invariant
                j <= height,
                marks@.len() == j,
                forall|r: int| 0 <= r < j ==> (#[trigger] marks@[r])@.len() == width,
                forall|c: int, r: int| 0 <= c < width && 0 <= r < j ==> !(#[trigger] marks@[r]@[c]),
            decreases height - j,
        {
            marks.push(unmarked_row(width));
            j += 1;
        }
        let set = PositionSet { width, height, marks, members: Vec::new() };
        proof {
            assert(set.members@ =~= Seq::<(usize, usize)>::empty());
        }
        set
    }

    /// Number of places in the set.
    pub fn len(&self) -> (count: usize)
        requires
            self.wf(),
        ensures
            count == self@.len(),
            count == self.order().len(),
    {
        proof {
            self.lemma_order();
        }
        self.members.len()
    }

    /// Whether `(x, y)` is in the set.
    pub fn contains(&self, x: usize, y: usize) -> (found: bool)
        requires
            self.wf(),
        ensures
            found == self@.contains((x as int, y as int)),
    {
        x < self.width && y < self.height && self.marks[y][x]
    }

    /// Puts `(x, y)` into the set and says whether that changed the set.
    /// A place off the grid, or one already in the set, changes nothing.
    pub fn insert(&mut self, x: usize, y: usize) -> (added: bool)
        requires
            old(self).wf(),
        ensures
            final(self).wf(),
            final(self).width() == old(self).width(),
            final(self).height() == old(self).height(),
            added == (on_grid(old(self).width(), old(self).height(), (x as int, y as int))
                && !old(self)@.contains((x as int, y as int))),
            final(self)@ == (if added {
                old(self)@.insert((x as int, y as int))
            } else {
                old(self)@
            }),
            final(self).order() == (if added {
                old(self).order().push((x, y))
            } else {
                old(self).order()
            }),
    {
        if x < self.width && y < self.height && !self.marks[y][x] {
            proof {
                lemma_places_push(self.members@, (x, y));
            }
            self.marks[y][x] = true;
            self.members.push((x, y));
            true
        } else {
            false
        }
    }

    /// The places of the set, in the order in which they were put in.
    pub fn positions(&self) -> (list: &Vec<(usize, usize)>)
        ensures
            list@ == self.order(),
    {
        &self.members
    }

    /// Gives up the set for the list of its places, in the order in which
    /// they were put in.
    pub fn into_positions(self) -> (list: Vec<(usize, usize)>)
        ensures
            list@ == self.order(),
    {
        self.members
    }

    /// Takes `(x, y)` out of the set and says whether it was in.
    pub fn remove(&mut self, x: usize, y: usize) -> (removed: bool)
        requires
            old(self).wf(),
        ensures
            final(self).wf(),
            final(self).width() == old(self).width(),
            final(self).height() == old(self).height(),
            removed == old(self)@.contains((x as int, y as int)),
            final(self)@ == old(self)@.remove((x as int, y as int)),
            !removed ==> final(self).order() == old(self).order(),
            removed ==> exists|i: int|
                0 <= i < old(self).order().len() && #[trigger] old(self).order()[i] == (x, y)
                    && final(self).order() == old(self).order().remove(i),
    {
        proof {
            self.lemma_order();
        }
        if !(x < self.width && y < self.height && self.marks[y][x]) {
            return false;
        }
        let mut i: usize = 0;
        while i < self.members.len() && (self.members[i].0 != x || self.members[i].1 != y)
            invariant
                i <= self.members@.len(),
                forall|j: int| 0 <= j < i ==> place(#[trigger] self.members@[j]) != (x as int, y as int),
            decreases self.members@.len() - i,
        {
            i += 1;
        }
        proof {
            lemma_places_remove(self.members@, i as int);
        }
        self.members.remove(i);
        self.marks[y][x] = false;
        true
    }

    /// Puts in the first places of the grid, read row by row, that are not
    /// yet in the set, until the set holds `wanted` places or the whole
    /// grid. A set that holds as many already is left as it is.
    pub fn fill(&mut self, wanted: usize)
        requires
            old(self).wf(),
        ensures
            final(self).wf(),
            final(self).width() == old(self).width(),
            final(self).height() == old(self).height(),
            old(self)@.subset_of(final(self)@),
            final(self)@.len() == (if wanted <= old(self)@.len() {
                old(self)@.len()
            } else if wanted <= old(self).width() * old(self).height() {
                wanted as nat
            } else {
                old(self).width() * old(self).height()
            }),
            forall|p: (int, int), q: (int, int)|
                #![trigger final(self)@.contains(p), before(q, p)]
                final(self)@.contains(p) && !old(self)@.contains(p) && on_grid(
                    old(self).width(),
                    old(self).height(),
                    q,
                ) && before(q, p) ==> final(self)@.contains(q),
            old(self).order().is_prefix_of(final(self).order()),
            forall|i: int, j: int|
                old(self).order().len() <= i < j < final(self).order().len() ==> before(
                    place(#[trigger] final(self).order()[i]),
                    place(#[trigger] final(self).order()[j]),
                ),
    {
        let ghost all = grid(self.width(), self.height());
        proof {
            self.lemma_order();
            lemma_grid_len(self.width(), self.height());
            lemma_len_subset(self@, all);
        }
        if self.width == 0 {
            proof {
                assert(self.width() * self.height() == 0) by (nonlinear_arith)
                    requires
                        self.width() == 0,
                ;
            }
            return ;
        }
        let ghost start = self@;
        let mut x: usize = 0;
        let mut y: usize = 0;
        while y < self.height && self.members.len() < wanted
            invariant
                self.wf(),
                self.width() == old(self).width(),
                self.height() == old(self).height(),
                self.width == self.width(),
                self.height == self.height(),
                self.members@.len() == self@.len(),
                self@.finite(),
                start == old(self)@,
                start.finite(),
                all == grid(self.width(), self.height()),
                all.finite(),
                all.len() == self.width() * self.height(),
                self@.subset_of(all),
                0 <= x < self.width,
                y <= self.height,
                start.subset_of(self@),
                old(self).order().is_prefix_of(self.order()),
                forall|i: int|
                    old(self).order().len() <= i < self.order().len() ==> before(
                        place(#[trigger] self.order()[i]),
                        (x as int, y as int),
                    ),
                forall|i: int, j: int|
                    old(self).order().len() <= i < j < self.order().len() ==> before(
                        place(#[trigger] self.order()[i]),
                        place(#[trigger] self.order()[j]),
                    ),
                grid_prefix(self.width(), self.height(), (x as int, y as int)).subset_of(self@),
                self@.subset_of(
                    start + grid_prefix(self.width(), self.height(), (x as int, y as int)),
                ),
                self@.len() <= wanted || self@.len() == start.len(),
            decreases self.height - y, self.width - x,
        {
            let ghost cursor = (x as int, y as int);
            self.insert(x, y);
            x += 1;
            if x == self.width {
                x = 0;
                y += 1;
            }
            proof {
                let next = (x as int, y as int);
                assert forall|p: (int, int)|
                    grid_prefix(self.width(), self.height(), next).contains(
                        p,
                    ) implies self@.contains(p) by {
                    if p != cursor {
                        assert(grid_prefix(self.width(), self.height(), cursor).contains(p));
                    }
                }
                assert forall|p: (int, int)| self@.contains(p) implies (start + grid_prefix(
                    self.width(),
                    self.height(),
                    next,
                )).contains(p) by {
                    if p != cursor {
                        assert((start + grid_prefix(self.width(), self.height(), cursor)).contains(
                            p,
                        ));
                    }
                }
                lemma_len_subset(start, self@);
            }
        }
        proof {
            lemma_len_subset(start, self@);
            lemma_len_subset(self@, all);
            if y == self.height {
                lemma_len_subset(all, self@);
            }
            assert forall|p: (int, int), q: (int, int)|
                #![trigger self@.contains(p), before(q, p)]
                self@.contains(p) && !start.contains(p) && on_grid(
                    self.width(),
                    self.height(),
                    q,
                ) && before(q, p) implies self@.contains(q) by {
                assert((start + grid_prefix(
                    self.width(),
                    self.height(),
                    (x as int, y as int),
                )).contains(p));
            }
        }
    }
}

} // verus!
