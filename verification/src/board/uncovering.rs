//! Uncovering squares: the flood that opens a region, and the end of a game.

use vstd::prelude::*;
use vstd::set_lib::lemma_len_subset;
use super::Board;
use crate::cell::Cell;
use crate::flood::{
    flood_closed, lemma_covered_safe_bound, lemma_flood_least, lemma_flood_region_closed,
    lemma_flood_region_safe, lemma_flood_step,
};
use crate::grid::{
    adjacent, before, lemma_adjacent_is_a_step, lemma_step_is_adjacent, neighbor, rank, step,
};
use crate::laws::lemma_uncover_valid;
use crate::model::BoardModel;
use crate::position_set::place;

verus! {

/// Whether `p` waits on the work list.
spec fn on_stack(stack: Seq<(usize, usize)>, p: (int, int)) -> bool {
    exists|i: int| 0 <= i < stack.len() && place(#[trigger] stack[i]) == p
}

/// Whether the flood is done with the first `k` steps around `p`: each of
/// them that leads to a square that may be uncovered has led to an opened one.
spec fn settled_up_to(board: BoardModel, opened: Set<(int, int)>, p: (int, int), k: int) -> bool {
    forall|q: (int, int)|
        #![trigger adjacent(p, q)]
        adjacent(p, q) && rank(p, q) < k && board.can_open(q) ==> opened.contains(q)
}

/// Whether every opened square that spreads either waits on the work list,
/// is the square `current` being worked on, or is done with.
spec fn flood_progress(
    board: BoardModel,
    opened: Set<(int, int)>,
    stack: Seq<(usize, usize)>,
    current: Option<(int, int)>,
) -> bool {
    forall|p: (int, int)|
        #![trigger opened.contains(p)]
        opened.contains(p) && board.spreads(p) ==> on_stack(stack, p) || current == Some(p)
            || settled_up_to(board, opened, p, 9)
}

/// What waits on the work list still waits after another entry is put on
/// it, and so does that entry.
proof fn lemma_on_stack_push(stack: Seq<(usize, usize)>, q: (usize, usize), p: (int, int))
    ensures
        on_stack(stack, p) ==> on_stack(stack.push(q), p),
        on_stack(stack.push(q), place(q)),
{
    if on_stack(stack, p) {
        let i = choose|i: int| 0 <= i < stack.len() && place(#[trigger] stack[i]) == p;
        assert(stack.push(q)[i] == stack[i]);
    }
    assert(stack.push(q)[stack.len() as int] == q);
}

/// What waits on the work list either still waits after the last entry
/// is taken off, or is that entry.
proof fn lemma_on_stack_pop(stack: Seq<(usize, usize)>, p: (int, int))
    requires
        stack.len() > 0,
        on_stack(stack, p),
    ensures
        on_stack(stack.drop_last(), p) || p == place(stack.last()),
{
    let i = choose|i: int| 0 <= i < stack.len() && place(#[trigger] stack[i]) == p;
    if i < stack.len() - 1 {
        assert(stack.drop_last()[i] == stack[i]);
    }
}

/// Opening one more square, and putting it on the work list, keeps the
/// flood's progress.
proof fn lemma_progress_grows(
    board: BoardModel,
    opened: Set<(int, int)>,
    stack: Seq<(usize, usize)>,
    current: (int, int),
    q: (usize, usize),
)
    requires
        flood_progress(board, opened, stack, Some(current)),
    ensures
        flood_progress(board, opened.insert(place(q)), stack.push(q), Some(current)),
        opened.contains(place(q)) ==> flood_progress(board, opened, stack, Some(current)),
{
    let grown = opened.insert(place(q));
    assert forall|p: (int, int)|
        #![trigger grown.contains(p)]
        grown.contains(p) && board.spreads(p) implies on_stack(stack.push(q), p) || Some(current)
        == Some(p) || settled_up_to(board, grown, p, 9) by {
        lemma_on_stack_push(stack, q, p);
    }
}

/// Once the `k`-th step around `current` is dealt with, the flood is done
/// with the first `k + 1` steps.
proof fn lemma_settled_next(
    board: BoardModel,
    before_step: Set<(int, int)>,
    opened: Set<(int, int)>,
    current: (int, int),
    k: int,
)
    requires
        0 <= k < 9,
        settled_up_to(board, before_step, current, k),
        before_step.subset_of(opened),
        k == 4 || !board.can_open(step(current, k)) || opened.contains(step(current, k)),
    ensures
        settled_up_to(board, opened, current, k + 1),
{
    assert forall|q: (int, int)|
        #![trigger adjacent(current, q)]
        adjacent(current, q) && rank(current, q) < k + 1 && board.can_open(
            q,
        ) implies opened.contains(q) by {
        lemma_adjacent_is_a_step(current, q);
    }
}

/// Once the flood is done with all steps around the square being worked
/// on, or that square does not spread, no square is being worked on.
proof fn lemma_progress_settles(
    board: BoardModel,
    opened: Set<(int, int)>,
    stack: Seq<(usize, usize)>,
    current: (int, int),
)
    requires
        flood_progress(board, opened, stack, Some(current)),
        board.spreads(current) ==> settled_up_to(board, opened, current, 9),
    ensures
        flood_progress(board, opened, stack, None),
{
}

/// Taking the last entry off the work list keeps the flood's progress,
/// with that entry as the square being worked on.
proof fn lemma_progress_pops(board: BoardModel, opened: Set<(int, int)>, stack: Seq<(usize, usize)>)
    requires
        stack.len() > 0,
        flood_progress(board, opened, stack, None),
    ensures
        flood_progress(board, opened, stack.drop_last(), Some(place(stack.last()))),
{
    let current = place(stack.last());
    assert forall|p: (int, int)|
        #![trigger opened.contains(p)]
        opened.contains(p) && board.spreads(p) implies on_stack(stack.drop_last(), p) || Some(
        current,
    ) == Some(p) || settled_up_to(board, opened, p, 9) by {
        if on_stack(stack, p) {
            lemma_on_stack_pop(stack, p);
        }
    }
}

/// With an empty work list, what the flood has opened is closed under it.
proof fn lemma_progress_done(board: BoardModel, opened: Set<(int, int)>)
    requires
        flood_progress(board, opened, Seq::empty(), None),
    ensures
        flood_closed(board, opened),
{
    assert forall|p: (int, int), q: (int, int)|
        #![trigger opened.contains(p), adjacent(p, q)]
        opened.contains(p) && board.spreads(p) && adjacent(p, q) && board.can_open(
            q,
        ) implies opened.contains(q) by {
        lemma_adjacent_is_a_step(p, q);
    }
}

impl Board {
    /// What holds while the board is swept at the end of a game that
    /// started its sweep on `board`: the squares before `cursor` are shown,
    /// the game is marked as over, and nothing else has changed.
    spec fn sweeping(&self, board: BoardModel, cursor: (int, int)) -> bool {
        &&& board.rectangular()
        &&& self.x == board.width
        &&& self.y == board.height
        &&& self.number_of_mines == board.mine_count
        &&& self.remaining == board.remaining
        &&& self.first_click == !board.mines_placed
        &&& self.end
        &&& self.inner@.len() == self.y
        &&& forall|r: int| 0 <= r < self.y ==> (#[trigger] self.inner@[r])@.len() == self.x
        &&& forall|c: int, r: int|
            0 <= c < self.x && 0 <= r < self.y ==> #[trigger] self.inner@[r]@[c] == (if before(
                (c, r),
                cursor,
            ) {
                Cell { is_revealed: true, ..board.cell((c, r)) }
            } else {
                board.cell((c, r))
            })
    }

    /// Ends the game: every square is shown. Flags stay where they are.
    pub(super) fn end_game(&mut self)
        requires
            old(self)@.rectangular(),
        ensures
            final(self)@ == old(self)@.end_game(),
    {
        let ghost board = self@;
        proof {
            self.lemma_rows();
        }
        self.end = true;
        let mut j: usize = 0;
        while j < self.y
            invariant
                j <= self.y,
                self.sweeping(board, (0, j as int)),
            decreases self.y - j,
        {
            let mut i: usize = 0;
            while i < self.x
                invariant
                    j < self.y,
                    i <= self.x,
                    self.sweeping(board, (i as int, j as int)),
                decreases self.x - i,
            {
                self.inner[j][i].is_revealed = true;
                i += 1;
            }
            j += 1;
        }
        proof {
            let after = board.end_game();
            assert(self@ =~~= after);
        }
    }

    /// What holds while the flood that started at `start` on `board` runs:
    /// the squares in `opened` have been uncovered and counted off, nothing
    /// else has changed, and every square on the work list is opened.
    spec fn flooding(
        &self,
        board: BoardModel,
        start: (int, int),
        opened: Set<(int, int)>,
        stack: Seq<(usize, usize)>,
    ) -> bool {
        &&& board.valid()
        &&& board.mines_placed
        &&& !board.ended
        &&& board.can_open(start)
        &&& !board.cell(start).is_mine
        &&& self.x == board.width
        &&& self.y == board.height
        &&& self.number_of_mines == board.mine_count
        &&& self.end == board.ended
        &&& self.first_click == !board.mines_placed
        &&& self.inner@.len() == self.y
        &&& forall|r: int| 0 <= r < self.y ==> (#[trigger] self.inner@[r])@.len() == self.x
        &&& opened.finite()
        &&& opened.subset_of(board.flood_region(start))
        &&& opened.contains(start)
        &&& self.remaining + opened.len() == board.remaining
        &&& forall|c: int, r: int|
            0 <= c < self.x && 0 <= r < self.y ==> #[trigger] self.inner@[r]@[c] == (
            if opened.contains((c, r)) {
                Cell { is_revealed: true, ..board.cell((c, r)) }
            } else {
                board.cell((c, r))
            })
        &&& forall|i: int|
            0 <= i < stack.len() ==> board.on_board(place(#[trigger] stack[i])) && opened.contains(
                place(stack[i]),
            )
    }

    /// Uncovers the square at `(nx, ny)`, next to the opened square
    /// `current` that spreads, unless it is uncovered already or flagged.
    fn open_neighbor(
        &mut self,
        nx: usize,
        ny: usize,
        stack: &mut Vec<(usize, usize)>,
        Ghost(board): Ghost<BoardModel>,
        Ghost(start): Ghost<(int, int)>,
        Ghost(opened): Ghost<Set<(int, int)>>,
        Ghost(current): Ghost<(int, int)>,
    ) -> (next: Ghost<Set<(int, int)>>)
        requires
            old(self).flooding(board, start, opened, old(stack)@),
            nx < old(self).x,
            ny < old(self).y,
            opened.contains(current),
            board.spreads(current),
            adjacent(current, (nx as int, ny as int)),
        ensures
            final(self).flooding(board, start, next@, final(stack)@),
            next@ == (if board.can_open((nx as int, ny as int)) {
                opened.insert((nx as int, ny as int))
            } else {
                opened
            }),
            final(stack)@ == (if board.can_open((nx as int, ny as int)) && !opened.contains(
                (nx as int, ny as int),
            ) {
                old(stack)@.push((nx, ny))
            } else {
                old(stack)@
            }),
            2 * final(self).remaining + final(stack)@.len()
                <= 2 * old(self).remaining + old(stack)@.len(),
    {
        let ghost q = (nx as int, ny as int);
        if !self.inner[ny][nx].is_revealed && !self.inner[ny][nx].is_flagged {
            let ghost grown = opened.insert(q);
            proof {
                let region = board.flood_region(start);
                lemma_flood_region_safe(board, start);
                lemma_covered_safe_bound(board, region);
                lemma_flood_step(board, start, current, q);
                lemma_len_subset(grown, region);
            }
            self.inner[ny][nx].is_revealed = true;
            self.remaining = self.remaining - 1;
            stack.push((nx, ny));
            Ghost(grown)
        } else {
            proof {
                assert(opened.insert(q) =~= opened || !board.can_open(q));
            }
            Ghost(opened)
        }
    }

    /// Uncovers the safe, covered square at `(x, y)` and lets the flood run
    /// from it, counting off every square it uncovers.
    fn open_region(&mut self, x: usize, y: usize)
        requires
            old(self).wf(),
            old(self)@.mines_placed,
            old(self)@.can_click((x as int, y as int)),
            !old(self)@.cell((x as int, y as int)).is_mine,
        ensures
            final(self)@ == old(self)@.open_all(old(self)@.flood_region((x as int, y as int))),
    {
        let ghost start = (x as int, y as int);
        let ghost board = self@;
        let ghost region = board.flood_region(start);
        let ghost mut opened: Set<(int, int)> = Set::empty().insert(start);
        let mut stack: Vec<(usize, usize)> = Vec::new();
        proof {
            self.lemma_rows();
            lemma_flood_region_closed(board, start);
        }
        self.inner[y][x].is_revealed = true;
        self.remaining = self.remaining - 1;
        stack.push((x, y));
        proof {
            assert(on_stack(stack@, start)) by {
                assert(place(stack@[0]) == start);
            }
        }
        // A square goes on the work list when it is uncovered, so at most
        // once: each turn takes one entry off and pays for every entry it
        // puts on with a square counted off.
        while stack.len() > 0
            invariant
                board == old(self)@,
                self.flooding(board, start, opened, stack@),
                flood_progress(board, opened, stack@, None),
            decreases 2 * self.remaining + stack.len(),
        {
            let ghost fuel = 2 * self.remaining + stack.len();
            proof {
                lemma_progress_pops(board, opened, stack@);
            }
            let (cx, cy) = stack.pop().unwrap();
            let ghost current = (cx as int, cy as int);
            let cell = self.inner[cy][cx];
            if cell.adjacent_mine_count == 0 && !cell.is_mine {
                let mut k: usize = 0;
                while k < 9
                    invariant
                        k <= 9,
                        self.x == board.width,
                        self.y == board.height,
                        self.flooding(board, start, opened, stack@),
                        current == (cx as int, cy as int),
                        opened.contains(current),
                        board.spreads(current),
                        flood_progress(board, opened, stack@, Some(current)),
                        settled_up_to(board, opened, current, k as int),
                        2 * self.remaining + stack.len() < fuel,
                    decreases 9 - k,
                {
                    let ghost opened_before = opened;
                    match neighbor(self.x, self.y, cx, cy, k) {
                        Some((nx, ny)) => {
                            proof {
                                lemma_step_is_adjacent(current, k as int);
                                lemma_progress_grows(board, opened, stack@, current, (nx, ny));
                            }
                            let next = self.open_neighbor(
                                nx,
                                ny,
                                &mut stack,
                                Ghost(board),
                                Ghost(start),
                                Ghost(opened),
                                Ghost(current),
                            );
                            proof {
                                opened = next@;
                            }
                        },
                        None => {},
                    }
                    proof {
                        lemma_settled_next(board, opened_before, opened, current, k as int);
                    }
                    k += 1;
                }
            }
            proof {
                lemma_progress_settles(board, opened, stack@, current);
            }
        }
        proof {
            lemma_progress_done(board, opened);
            assert forall|p: (int, int)| region.contains(p) implies opened.contains(p) by {
                lemma_flood_least(board, start, opened, p);
            }
            assert(opened =~= region);
            let after = board.open_all(region);
            assert(self@ =~~= after);
        }
    }

    /// Uncovers the square at `(x, y)` of a board whose mines are laid.
    pub(super) fn uncover(&mut self, x: usize, y: usize)
        requires
            old(self).wf(),
            old(self)@.mines_placed,
            old(self)@.can_click((x as int, y as int)),
        ensures
            final(self).wf(),
            final(self)@ == old(self)@.uncover((x as int, y as int)),
    {
        proof {
            self.lemma_rows();
            lemma_uncover_valid(self@, (x as int, y as int));
        }
        if self.inner[y][x].is_mine {
            self.inner[y][x].was_triggering_click = true;
            self.end_game();
            proof {
                let after = old(self)@.explode((x as int, y as int));
                assert(self@ =~~= after);
            }
        } else {
            self.open_region(x, y);
            if self.remaining == 0 {
                self.end_game();
            }
        }
    }
}

} // verus!
