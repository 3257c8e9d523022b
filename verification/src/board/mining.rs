//! Laying the mines: at random on the first click, or on squares given
//! by the caller.

use vstd::prelude::*;
use super::Board;
use crate::cell::Cell;
use crate::grid::{
    adjacent, lemma_adjacent_is_a_step, lemma_step_is_adjacent, neighbor, rank, step,
};
use crate::laws::lemma_with_mines_valid;
use crate::model::{lemma_mines_around_insert, mines_around, BoardModel};
use crate::position_set::{lemma_places_contains, lemma_places_push, place, places, PositionSet};
use crate::random::{random_position, PlacementError};
use crate::sampler::MineSampler;

verus! {

/// 1 if `q` is reached from `fresh` by one of the first `k` steps, else 0.
spec fn touched(fresh: (int, int), q: (int, int), k: int) -> int {
    if adjacent(fresh, q) && rank(fresh, q) < k {
        1
    } else {
        0
    }
}

/// The set of the first `i` places of a list grows by the next place.
proof fn lemma_take_next(list: Seq<(usize, usize)>, i: int)
    requires
        places(list).no_duplicates(),
        0 <= i < list.len(),
    ensures
        places(list.take(i)).no_duplicates(),
        !places(list.take(i)).to_set().contains(place(list[i])),
        places(list.take(i + 1)).to_set() == places(list.take(i)).to_set().insert(place(list[i])),
{
    let head = list.take(i);
    assert forall|a: int, b: int|
        0 <= a < head.len() && 0 <= b < head.len() && a != b implies places(head)[a] != places(
        head,
    )[b] by {
        assert(places(head)[a] == places(list)[a] && places(head)[b] == places(list)[b]);
    }
    lemma_places_contains(head, place(list[i]));
    if places(head).to_set().contains(place(list[i])) {
        let a = choose|a: int| 0 <= a < head.len() && place(#[trigger] head[a]) == place(list[i]);
        assert(places(list)[a] == places(list)[i]);
    }
    lemma_places_push(head, list[i]);
    assert(list.take(i + 1) =~= head.push(list[i]));
}

impl Board {
    /// What holds while mines are being laid on `board`: the mines in
    /// `laid` are laid and counted around them, the mine at `fresh` is laid
    /// and counted on the squares that its first `k` steps lead to, and
    /// nothing else has changed.
    spec fn laying(
        &self,
        board: BoardModel,
        laid: Set<(int, int)>,
        fresh: Option<(int, int)>,
        k: int,
    ) -> bool {
        &&& self.x == board.width
        &&& self.y == board.height
        &&& self.number_of_mines == board.mine_count
        &&& self.remaining == board.remaining
        &&& self.end == board.ended
        &&& self.first_click == !board.mines_placed
        &&& self.inner@.len() == self.y
        &&& forall|r: int| 0 <= r < self.y ==> (#[trigger] self.inner@[r])@.len() == self.x
        &&& forall|c: int, r: int|
            0 <= c < self.x && 0 <= r < self.y ==> #[trigger] self.inner@[r]@[c] == (Cell {
                is_mine: laid.contains((c, r)) || fresh == Some((c, r)),
                adjacent_mine_count: (mines_around(laid, (c, r)) + (match fresh {
                    Some(m) => touched(m, (c, r), k),
                    None => 0,
                })) as u8,
                ..board.cell((c, r))
            })
    }

    /// Counts the mine at `fresh` on the square at `(nx, ny)`, which the
    /// `k`-th step from the mine leads to.
    fn bump(
        &mut self,
        nx: usize,
        ny: usize,
        Ghost(board): Ghost<BoardModel>,
        Ghost(laid): Ghost<Set<(int, int)>>,
        Ghost(fresh): Ghost<(int, int)>,
        Ghost(k): Ghost<int>,
    )
        requires
            old(self).laying(board, laid, Some(fresh), k),
            nx < old(self).x,
            ny < old(self).y,
            0 <= k < 9,
            k != 4,
            (nx as int, ny as int) == step(fresh, k),
            !laid.contains(fresh),
        ensures
            final(self).laying(board, laid, Some(fresh), k + 1),
    {
        let ghost q = (nx as int, ny as int);
        proof {
            lemma_step_is_adjacent(fresh, k);
            lemma_mines_around_insert(laid, fresh, q);
        }
        let count = self.inner[ny][nx].adjacent_mine_count;
        self.inner[ny][nx].adjacent_mine_count = count + 1;
        proof {
            assert forall|c: int, r: int|
                0 <= c < self.x && 0 <= r < self.y implies #[trigger] self.inner@[r]@[c] == (Cell {
                is_mine: laid.contains((c, r)) || Some(fresh) == Some((c, r)),
                adjacent_mine_count: (mines_around(laid, (c, r)) + touched(fresh, (c, r), k + 1)) as u8,
                ..board.cell((c, r))
            }) by {
                lemma_adjacent_is_a_step(fresh, (c, r));
                lemma_mines_around_insert(laid, fresh, (c, r));
            }
        }
    }

    /// Lays a mine on each of `positions` and numbers the squares around
    /// them.
    fn lay(&mut self, positions: &Vec<(usize, usize)>)
        requires
            old(self).wf(),
            !old(self)@.mines_placed,
            places(positions@).no_duplicates(),
            positions@.len() == old(self)@.mine_count,
            forall|i: int|
                0 <= i < positions@.len() ==> old(self)@.on_board(place(#[trigger] positions@[i])),
        ensures
            final(self).wf(),
            old(self)@.fits(places(positions@).to_set()),
            final(self)@ == old(self)@.with_mines(places(positions@).to_set()),
    {
        let ghost board = self@;
        let ghost mut laid: Set<(int, int)> = Set::empty();
        proof {
            self.lemma_rows();
        }
        let mut i: usize = 0;
        while i < positions.len()
            invariant
                i <= positions@.len(),
                board.valid(),
                !board.mines_placed,
                places(positions@).no_duplicates(),
                forall|j: int|
                    0 <= j < positions@.len() ==> board.on_board(place(#[trigger] positions@[j])),
                laid == places(positions@.take(i as int)).to_set(),
                self.laying(board, laid, None, 0),
            decreases positions@.len() - i,
        {
            let (mx, my) = positions[i];
            let ghost fresh = (mx as int, my as int);
            proof {
                lemma_take_next(positions@, i as int);
            }
            self.inner[my][mx].is_mine = true;
            let mut k: usize = 0;
            while k < 9
                invariant
                    k <= 9,
                    self.x == board.width,
                    self.y == board.height,
                    fresh == (mx as int, my as int),
                    !laid.contains(fresh),
                    self.laying(board, laid, Some(fresh), k as int),
                decreases 9 - k,
            {
                match neighbor(self.x, self.y, mx, my, k) {
                    Some((nx, ny)) => {
                        self.bump(nx, ny, Ghost(board), Ghost(laid), Ghost(fresh), Ghost(k as int));
                    },
                    None => {
                        proof {
                            assert forall|c: int, r: int|
                                0 <= c < self.x && 0 <= r < self.y implies touched(
                                fresh,
                                (c, r),
                                k as int,
                            ) == touched(fresh, (c, r), k + 1) by {
                                lemma_adjacent_is_a_step(fresh, (c, r));
                            }
                        }
                    },
                }
                k += 1;
            }
            proof {
                let grown = laid.insert(fresh);
                assert forall|c: int, r: int|
                    0 <= c < self.x && 0 <= r < self.y implies #[trigger] self.inner@[r]@[c] == (
                    Cell {
                        is_mine: grown.contains((c, r)) || None::<(int, int)> == Some((c, r)),
                        adjacent_mine_count: (mines_around(grown, (c, r)) + 0) as u8,
                        ..board.cell((c, r))
                    }) by {
                    lemma_adjacent_is_a_step(fresh, (c, r));
                    lemma_mines_around_insert(laid, fresh, (c, r));
                }
                laid = grown;
            }
            i += 1;
        }
        self.first_click = false;
        proof {
            assert(positions@.take(positions@.len() as int) =~= positions@);
            places(positions@).unique_seq_to_set();
            assert forall|p: (int, int)| laid.contains(p) implies board.on_board(p) by {
                lemma_places_contains(positions@, p);
            }
            let after = board.with_mines(laid);
            assert(self@ =~~= after);
            lemma_with_mines_valid(board, laid);
        }
    }

    /// Lays the board's mines at random, on any squares but `first_click`.
    ///
    /// Places are drawn and offered to a sampler until it has taken as
    /// many different ones as the board has mines; these become the mines,
    /// in the order in which they were drawn. If the random source fails,
    /// no mine is laid.
    pub(super) fn ground_mines(&mut self, first_click: (usize, usize)) -> (outcome: Result<
        (),
        PlacementError,
    >)
        requires
            old(self).wf(),
            !old(self)@.mines_placed,
            old(self)@.on_board(place(first_click)),
        ensures
            final(self).wf(),
            outcome is Ok ==> {
                &&& old(self)@.fits(final(self)@.mines())
                &&& !final(self)@.mines().contains(place(first_click))
                &&& final(self)@ == old(self)@.with_mines(final(self)@.mines())
            },
            outcome is Err ==> final(self)@ == old(self)@ && old(self)@.mine_count > 0,
    {
        let mut sampler = MineSampler::new(self.x, self.y, self.number_of_mines, first_click);
        while sampler.needs_draw()
            invariant
                self.wf(),
                self@ == old(self)@,
                sampler.wf(),
                sampler.width() == self.x,
                sampler.height() == self.y,
                sampler.count() == self.number_of_mines,
                sampler.excluded() == first_click,
            decreases sampler.draws_left(),
        {
            proof {
                sampler.lemma_taken();
            }
            match random_position(self.x, self.y) {
                Ok((x, y)) => {
                    sampler.offer(x, y);
                },
                Err(failure) => {
                    return Err(failure);
                },
            }
        }
        let mines_position = sampler.finish();
        self.lay(&mines_position);
        proof {
            let mines = places(mines_position@).to_set();
            lemma_with_mines_valid(old(self)@, mines);
            lemma_places_contains(mines_position@, place(first_click));
        }
        Ok(())
    }

    /// Lays the board's mines on the given squares, and says whether it did.
    ///
    /// The mines are laid if the board has none yet and `positions` names
    /// as many squares as the board has mines, all of them on the board and
    /// none of them twice. Otherwise the board is left as it is.
    pub fn lay_mines(&mut self, positions: &Vec<(usize, usize)>) -> (laid: bool)
        requires
            old(self).wf(),
        ensures
            final(self).wf(),
            laid == old(self)@.accepts(places(positions@)),
            laid ==> final(self)@ == old(self)@.with_mines(places(positions@).to_set()),
            !laid ==> final(self)@ == old(self)@,
    {
        if !self.first_click || positions.len() != self.number_of_mines {
            return false;
        }
        let mut seen = PositionSet::new(self.x, self.y);
        let mut i: usize = 0;
        while i < positions.len()
            invariant
                i <= positions@.len(),
                self.wf(),
                self@ == old(self)@,
                !self@.mines_placed,
                positions@.len() == self@.mine_count,
                seen.wf(),
                seen.width() == self.x,
                seen.height() == self.y,
                seen.order() == positions@.take(i as int),
            decreases positions@.len() - i,
        {
            let (x, y) = positions[i];
            proof {
                seen.lemma_order();
            }
            if !seen.insert(x, y) {
                proof {
                    let p = (x as int, y as int);
                    if self@.on_board(p) {
                        lemma_places_contains(positions@.take(i as int), p);
                        let j = choose|j: int|
                            0 <= j < i && place(#[trigger] positions@.take(i as int)[j]) == p;
                        assert(places(positions@)[j] == places(positions@)[i as int]);
                    } else {
                        assert(places(positions@)[i as int] == p);
                    }
                }
                return false;
            }
            i += 1;
        }
        proof {
            assert(positions@.take(positions@.len() as int) =~= positions@);
            seen.lemma_order();
            assert forall|j: int| 0 <= j < positions@.len() implies self@.on_board(
                #[trigger] places(positions@)[j],
            ) by {}
        }
        self.lay(positions);
        true
    }
}

} // verus!
