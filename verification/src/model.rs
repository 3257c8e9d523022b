//! The board as a mathematical value, and the rules of the game as
//! functions from one such value to the next.
//!
//! Everything the executable board promises is phrased over this model.

use vstd::prelude::*;
use crate::cell::Cell;
use crate::grid::{adjacent, grid, on_grid, step};

verus! {

/// A board at one moment of a game.
#[verifier::ext_equal]
pub struct BoardModel {
    /// Number of columns.
    pub width: nat,
    /// Number of rows.
    pub height: nat,
    /// Number of mines the board holds once they are laid.
    pub mine_count: nat,
    /// Safe squares still to be uncovered before the game is won.
    pub remaining: nat,
    /// Whether the game is over, won or lost.
    pub ended: bool,
    /// Whether the mines have been laid.
    pub mines_placed: bool,
    /// The squares, row by row: `cells[y][x]`.
    pub cells: Seq<Seq<Cell>>,
}

/// 1 if `mines` holds `p`, else 0.
pub open spec fn holds(mines: Set<(int, int)>, p: (int, int)) -> int {
    if mines.contains(p) {
        1
    } else {
        0
    }
}

/// How many of the eight places around `p` are in `mines`.
pub open spec fn mines_around(mines: Set<(int, int)>, p: (int, int)) -> int {
    holds(mines, step(p, 0)) + holds(mines, step(p, 1)) + holds(mines, step(p, 2)) + holds(
        mines,
        step(p, 3),
    ) + holds(mines, step(p, 5)) + holds(mines, step(p, 6)) + holds(mines, step(p, 7)) + holds(
        mines,
        step(p, 8),
    )
}

/// One more mine counts once on each of the eight places around it, and
/// nowhere else. No place has more than eight mines around it.
pub proof fn lemma_mines_around_insert(mines: Set<(int, int)>, mine: (int, int), p: (int, int))
    requires
        !mines.contains(mine),
    ensures
        mines_around(mines.insert(mine), p) == mines_around(mines, p) + (if adjacent(mine, p) {
            1int
        } else {
            0int
        }),
        0 <= mines_around(mines, p) <= 8,
        adjacent(mine, p) ==> mines_around(mines, p) <= 7,
{
}

impl BoardModel {
    /// Whether `p` is a square of this board.
    pub open spec fn on_board(self, p: (int, int)) -> bool {
        on_grid(self.width, self.height, p)
    }

    /// The square at `p` (column, row).
    pub open spec fn cell(self, p: (int, int)) -> Cell {
        self.cells[p.1][p.0]
    }

    /// Number of squares.
    pub open spec fn total(self) -> nat {
        self.width * self.height
    }

    /// `cells` has `height` rows of `width` squares each.
    pub open spec fn rectangular(self) -> bool {
        &&& self.cells.len() == self.height
        &&& forall|y: int| 0 <= y < self.height ==> (#[trigger] self.cells[y]).len() == self.width
    }

    /// The places that hold a mine.
    pub open spec fn mines(self) -> Set<(int, int)> {
        Set::new(|p: (int, int)| self.on_board(p) && self.cell(p).is_mine)
    }

    /// The places that carry a flag.
    pub open spec fn flags(self) -> Set<(int, int)> {
        Set::new(|p: (int, int)| self.on_board(p) && self.cell(p).is_flagged)
    }

    /// The safe places that are uncovered.
    pub open spec fn revealed_safe(self) -> Set<(int, int)> {
        Set::new(|p: (int, int)| self.on_board(p) && self.cell(p).is_revealed && !self.cell(p).is_mine)
    }

    /// The safe places that are still covered.
    pub open spec fn covered_safe(self) -> Set<(int, int)> {
        Set::new(
            |p: (int, int)| self.on_board(p) && !self.cell(p).is_revealed && !self.cell(p).is_mine,
        )
    }

    /// The game is over and every safe square was uncovered.
    pub open spec fn is_won(self) -> bool {
        self.ended && self.remaining == 0
    }

    /// The game is over because a mine was uncovered.
    pub open spec fn is_lost(self) -> bool {
        self.ended && self.remaining > 0
    }

    /// Every square's number is the number of mines around it.
    pub open spec fn numbers_match(self) -> bool {
        forall|p: (int, int)|
            self.on_board(p) ==> (#[trigger] self.cell(p)).adjacent_mine_count == mines_around(
                self.mines(),
                p,
            )
    }

    /// What holds of every board that a game can reach.
    pub open spec fn valid(self) -> bool {
        &&& self.width > 0
        &&& self.height > 0
        &&& self.rectangular()
        &&& self.mine_count < self.total()
        &&& self.remaining + self.mine_count <= self.total()
        &&& self.numbers_match()
        &&& self.mines_placed ==> self.mines().len() == self.mine_count
        &&& !self.mines_placed ==> {
            &&& !self.ended
            &&& forall|p: (int, int)|
                self.on_board(p) ==> !(#[trigger] self.cell(p)).is_mine && !self.cell(p).is_revealed
        }
        &&& !self.ended ==> {
            &&& self.remaining > 0
            &&& self.remaining + self.revealed_safe().len() + self.mine_count == self.total()
            &&& forall|p: (int, int)|
                self.on_board(p) && (#[trigger] self.cell(p)).is_revealed ==> !self.cell(p).is_mine
                    && !self.cell(p).is_flagged
        }
        &&& self.ended ==> forall|p: (int, int)|
            self.on_board(p) ==> (#[trigger] self.cell(p)).is_revealed
        &&& forall|p: (int, int)|
            self.on_board(p) && (#[trigger] self.cell(p)).was_triggering_click ==> self.cell(
                p,
            ).is_mine && self.is_lost()
        &&& forall|p: (int, int), q: (int, int)|
            self.on_board(p) && self.on_board(q) && (#[trigger] self.cell(p)).was_triggering_click
                && (#[trigger] self.cell(q)).was_triggering_click ==> p == q
        &&& self.is_lost() ==> exists|p: (int, int)|
            self.on_board(p) && (#[trigger] self.cell(p)).was_triggering_click
    }

    /// The board with every square replaced by what `f` makes of the
    /// square's place and its present state.
    pub open spec fn map_cells(self, f: spec_fn((int, int), Cell) -> Cell) -> BoardModel {
        BoardModel {
            cells: Seq::new(
                self.height,
                |y: int| Seq::new(self.width, |x: int| f((x, y), self.cell((x, y)))),
            ),
            ..self
        }
    }

    /// A new board: all squares blank, no mines laid yet. A request for as
    /// many mines as there are squares, or more, is cut down so that one
    /// square stays safe.
    pub open spec fn fresh(width: nat, height: nat, requested: nat) -> BoardModel {
        let total = width * height;
        let mine_count = if total <= requested {
            (total - 1) as nat
        } else {
            requested
        };
        BoardModel {
            width,
            height,
            mine_count,
            remaining: (total - mine_count) as nat,
            ended: false,
            mines_placed: false,
            cells: Seq::new(height, |y: int| Seq::new(width, |x: int| Cell::blank())),
        }
    }

    /// Whether a flag may be planted on or taken from `p`.
    pub open spec fn can_flag(self, p: (int, int)) -> bool {
        self.on_board(p) && !self.ended && !self.cell(p).is_revealed
    }

    /// The board after a request to toggle the flag at `p`: the flag is
    /// inverted where that is allowed, and nothing happens elsewhere.
    pub open spec fn toggle_flag(self, p: (int, int)) -> BoardModel {
        if self.can_flag(p) {
            self.map_cells(
                |q: (int, int), c: Cell|
                    if q == p {
                        Cell { is_flagged: !c.is_flagged, ..c }
                    } else {
                        c
                    },
            )
        } else {
            self
        }
    }

    /// Whether `mines` can be laid on this board: as many places as the
    /// board has mines, all of them on the board.
    pub open spec fn fits(self, mines: Set<(int, int)>) -> bool {
        &&& mines.finite()
        &&& mines.len() == self.mine_count
        &&& mines.subset_of(grid(self.width, self.height))
    }

    /// Whether the places of `list` can be laid as this board's mines: no
    /// mines are laid yet, the list names as many places as the board has
    /// mines, all of them on the board, and none of them twice.
    pub open spec fn accepts(self, list: Seq<(int, int)>) -> bool {
        &&& !self.mines_placed
        &&& list.len() == self.mine_count
        &&& list.no_duplicates()
        &&& forall|i: int| 0 <= i < list.len() ==> self.on_board(#[trigger] list[i])
    }

    /// The board after laying mines on exactly the places in `mines`: those
    /// squares hold a mine, and every square is numbered with the mines
    /// around it.
    pub open spec fn with_mines(self, mines: Set<(int, int)>) -> BoardModel {
        BoardModel {
            mines_placed: true,
            ..self.map_cells(
                |q: (int, int), c: Cell|
                    Cell {
                        is_mine: mines.contains(q),
                        adjacent_mine_count: mines_around(mines, q) as u8,
                        ..c
                    },
            )
        }
    }

    /// The board once the game is over: every square is shown; flags stay.
    pub open spec fn end_game(self) -> BoardModel {
        BoardModel {
            ended: true,
            ..self.map_cells(|q: (int, int), c: Cell| Cell { is_revealed: true, ..c })
        }
    }

    /// Whether the square at `p` may be uncovered by the flood: it is on the
    /// board, covered and not flagged.
    pub open spec fn can_open(self, p: (int, int)) -> bool {
        self.on_board(p) && !self.cell(p).is_revealed && !self.cell(p).is_flagged
    }

    /// Whether uncovering `p` spreads to the squares around it: `p` is safe
    /// and has no mine around it.
    pub open spec fn spreads(self, p: (int, int)) -> bool {
        self.cell(p).adjacent_mine_count == 0 && !self.cell(p).is_mine
    }

    /// Whether the flood can run along `path`: every square on it may be
    /// uncovered, each touches the next, and each but the last spreads.
    pub open spec fn flood_path(self, path: Seq<(int, int)>) -> bool {
        &&& path.len() > 0
        &&& forall|i: int| 0 <= i < path.len() ==> self.can_open(#[trigger] path[i])
        &&& forall|i: int|
            0 <= i < path.len() - 1 ==> self.spreads(#[trigger] path[i]) && adjacent(
                path[i],
                path[i + 1],
            )
    }

    /// Whether uncovering `from` also uncovers `to`.
    pub open spec fn floods(self, from: (int, int), to: (int, int)) -> bool {
        exists|path: Seq<(int, int)>|
            #[trigger] self.flood_path(path) && path[0] == from && path.last() == to
    }

    /// The squares uncovered by uncovering `from`: `from` itself, then the
    /// squares around every uncovered square that spreads, as far as they
    /// may be uncovered.
    pub open spec fn flood_region(self, from: (int, int)) -> Set<(int, int)> {
        Set::new(|to: (int, int)| self.floods(from, to))
    }

    /// Whether `p` is a square of the board whose number is zero.
    pub open spec fn is_zero(self, p: (int, int)) -> bool {
        self.on_board(p) && self.cell(p).adjacent_mine_count == 0
    }

    /// Whether `path` runs over squares numbered zero, each touching the
    /// next.
    pub open spec fn zero_path(self, path: Seq<(int, int)>) -> bool {
        &&& path.len() > 0
        &&& forall|i: int| 0 <= i < path.len() ==> self.is_zero(#[trigger] path[i])
        &&& forall|i: int| 0 <= i < path.len() - 1 ==> adjacent(#[trigger] path[i], path[i + 1])
    }

    /// Whether `to` can be reached from `from` over squares numbered zero.
    pub open spec fn zero_linked(self, from: (int, int), to: (int, int)) -> bool {
        exists|path: Seq<(int, int)>|
            #[trigger] self.zero_path(path) && path[0] == from && path.last() == to
    }

    /// The zero region of `from`: the squares numbered zero that can be
    /// reached from it over such squares.
    pub open spec fn zero_region(self, from: (int, int)) -> Set<(int, int)> {
        Set::new(|p: (int, int)| self.zero_linked(from, p))
    }

    /// The zero region of `from` together with the ring of squares around it.
    pub open spec fn zero_region_with_ring(self, from: (int, int)) -> Set<(int, int)> {
        Set::new(
            |p: (int, int)|
                self.on_board(p) && (self.zero_linked(from, p) || exists|c: (int, int)|
                    #[trigger] self.zero_linked(from, c) && adjacent(c, p)),
        )
    }

    /// The squares of the zero region of `from` and of its ring that are
    /// still covered.
    pub open spec fn covered_zero_region_with_ring(self, from: (int, int)) -> Set<(int, int)> {
        Set::new(
            |p: (int, int)|
                self.zero_region_with_ring(from).contains(p) && !self.cell(p).is_revealed,
        )
    }

    /// The board with the squares in `region` uncovered and counted off.
    pub open spec fn open_all(self, region: Set<(int, int)>) -> BoardModel {
        BoardModel {
            remaining: (self.remaining - region.len()) as nat,
            ..self.map_cells(
                |q: (int, int), c: Cell|
                    if region.contains(q) {
                        Cell { is_revealed: true, ..c }
                    } else {
                        c
                    },
            )
        }
    }

    /// The board after stepping on the mine at `p`: that square is marked as
    /// the one that was hit, and the game is over.
    pub open spec fn explode(self, p: (int, int)) -> BoardModel {
        self.map_cells(
            |q: (int, int), c: Cell|
                if q == p {
                    Cell { was_triggering_click: true, ..c }
                } else {
                    c
                },
        ).end_game()
    }

    /// Whether a click on `p` does anything: `p` is on the board, covered
    /// and not flagged, and the game is not over.
    pub open spec fn can_click(self, p: (int, int)) -> bool {
        !self.ended && self.can_open(p)
    }

    /// The board after uncovering `p` on a board whose mines are laid.
    ///
    /// A mine ends the game as lost. A safe square opens its flood region;
    /// if that leaves no safe square covered, the game ends as won.
    pub open spec fn uncover(self, p: (int, int)) -> BoardModel {
        if !self.can_click(p) {
            self
        } else if self.cell(p).is_mine {
            self.explode(p)
        } else {
            let opened = self.open_all(self.flood_region(p));
            if opened.remaining == 0 {
                opened.end_game()
            } else {
                opened
            }
        }
    }

    /// The board after a click on `p`, where `mines` are the places that
    /// the first effective click of a game lays mines on.
    pub open spec fn click(self, p: (int, int), mines: Set<(int, int)>) -> BoardModel {
        if !self.can_click(p) {
            self
        } else if self.mines_placed {
            self.uncover(p)
        } else {
            self.with_mines(mines).uncover(p)
        }
    }
}

} // verus!
