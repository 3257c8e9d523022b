//! The playing board: a grid of squares together with the state of the game.

use vstd::prelude::*;
use vstd::set_lib::lemma_len_subset;
use crate::cell::{Cell, DisplayState};
use crate::grid::{before, grid, lemma_grid_len};
use crate::laws::{lemma_fresh_valid, lemma_toggle_flag_valid, lemma_uncover_keeps_mines_and_flags};
use crate::model::BoardModel;
use crate::random::PlacementError;

mod mining;
mod uncovering;

verus! {

/// A Minesweeper board.
///
/// The mines are laid by the first click that uncovers a square, so that
/// this square is always safe.
#[derive(Debug)]
pub struct Board {
    inner: Vec<Vec<Cell>>,
    end: bool,
    first_click: bool,
    number_of_mines: usize,
    remaining: usize,
    x: usize,
    y: usize,
}

/// The rows of a grid as sequences.
spec fn rows_of(inner: Seq<Vec<Cell>>) -> Seq<Seq<Cell>> {
    Seq::new(inner.len(), |y: int| inner[y]@)
}

impl View for Board {
    type V = BoardModel;

    closed spec fn view(&self) -> BoardModel {
        BoardModel {
            width: self.x as nat,
            height: self.y as nat,
            mine_count: self.number_of_mines as nat,
            remaining: self.remaining as nat,
            ended: self.end,
            mines_placed: !self.first_click,
            cells: rows_of(self.inner@),
        }
    }
}

/// The flagged squares of `board` that come before `cursor`.
spec fn flags_before(board: BoardModel, cursor: (int, int)) -> Set<(int, int)> {
    Set::new(
        |p: (int, int)| board.on_board(p) && before(p, cursor) && board.cell(p).is_flagged,
    )
}

/// No flag comes before the first square, and all flags come before the
/// end of the board.
proof fn lemma_flags_before_ends(board: BoardModel)
    ensures
        flags_before(board, (0, 0)).len() == 0,
        flags_before(board, (0, board.height as int)) == board.flags(),
{
    assert(flags_before(board, (0, 0)) =~= Set::<(int, int)>::empty());
}

/// Moving the cursor over the square at `(x, y)` adds that square to the
/// flags before the cursor if it is flagged, and nothing otherwise.
proof fn lemma_flags_before_next(board: BoardModel, x: int, y: int)
    requires
        board.on_board((x, y)),
    ensures
        flags_before(board, (x, y)).finite(),
        flags_before(board, (x + 1, y)).finite(),
        flags_before(board, (x + 1, y)).len() <= board.total(),
        flags_before(board, (x + 1, y)).len() == flags_before(board, (x, y)).len() + (if board.cell(
            (x, y),
        ).is_flagged {
            1int
        } else {
            0int
        }),
{
    let all = grid(board.width, board.height);
    let here = flags_before(board, (x, y));
    let next = flags_before(board, (x + 1, y));
    lemma_grid_len(board.width, board.height);
    lemma_len_subset(here, all);
    lemma_len_subset(next, all);
    if board.cell((x, y)).is_flagged {
        assert(next =~= here.insert((x, y)));
    } else {
        assert(next =~= here);
    }
}

/// A row of `width` blank squares.
fn blank_row(width: usize) -> (row: Vec<Cell>)
    ensures
        row@ == Seq::new(width as nat, |x: int| Cell::blank()),
{
    let mut row: Vec<Cell> = Vec::new();
    let mut i: usize = 0;
    while i < width
        invariant
            i <= width,
            row@ == Seq::new(i as nat, |x: int| Cell::blank()),
        decreases width - i,
    {
        row.push(Cell::default());
        i += 1;
    }
    row
}

impl Board {
    /// Whether the board is in a state that a game can reach, and small
    /// enough for its squares to be counted.
    pub open spec fn wf(&self) -> bool {
        self@.valid() && self@.total() <= usize::MAX
    }

    /// The stored rows have the shape that the model has.
    proof fn lemma_rows(&self)
        requires
            self@.rectangular(),
        ensures
            self.inner@.len() == self.y,
            forall|r: int| 0 <= r < self.y ==> (#[trigger] self.inner@[r])@.len() == self.x,
    {
        assert forall|r: int| 0 <= r < self.y implies (#[trigger] self.inner@[r])@.len()
            == self.x by {
            assert(self@.cells[r] == self.inner@[r]@);
        }
    }

    /// Makes a board of `x` columns and `y` rows for `number_of_mines`
    /// mines. No mine is laid yet. If the request leaves no safe square,
    /// the number of mines is cut down to one less than the number of
    /// squares.
    pub fn new(x: usize, y: usize, number_of_mines: usize) -> (board: Board)
        requires
            0 < x,
            0 < y,
            x * y <= usize::MAX,
        ensures
            board.wf(),
            board@ == BoardModel::fresh(x as nat, y as nat, number_of_mines as nat),
    {
        let total_cells = x * y;
        assert(total_cells >= 1) by (nonlinear_arith)
            requires
                total_cells == x * y,
                x >= 1,
                y >= 1,
        ;
        let (remaining, mines) = if total_cells <= number_of_mines {
            (1, total_cells - 1)
        } else {
            (total_cells - number_of_mines, number_of_mines)
        };
        let mut inner: Vec<Vec<Cell>> = Vec::new();
        let mut j: usize = 0;
        while j < y
            invariant
                j <= y,
                inner@.len() == j,
                forall|r: int|
                    0 <= r < j ==> (#[trigger] inner@[r])@ == Seq::new(
                        x as nat,
                        |c: int| Cell::blank(),
                    ),
            decreases y - j,
        {
            inner.push(blank_row(x));
            j += 1;
        }
        let board = Board {
            inner,
            end: false,
            first_click: true,
            number_of_mines: mines,
            remaining,
            x,
            y,
        };
        proof {
            let model = BoardModel::fresh(x as nat, y as nat, number_of_mines as nat);
            assert(board@ =~~= model);
            lemma_fresh_valid(x as nat, y as nat, number_of_mines as nat);
        }
        board
    }

    /// Makes a board as `new` does, or nothing if the board would have no
    /// squares or more than can be counted.
    pub fn try_new(x: usize, y: usize, number_of_mines: usize) -> (made: Option<Board>)
        ensures
            made is Some <==> 0 < x && 0 < y && x * y <= usize::MAX,
            made matches Some(board) ==> board.wf() && board@ == BoardModel::fresh(
                x as nat,
                y as nat,
                number_of_mines as nat,
            ),
    {
        if x == 0 || y == 0 {
            return None;
        }
        match x.checked_mul(y) {
            Some(_) => Some(Board::new(x, y, number_of_mines)),
            None => None,
        }
    }

    /// Number of columns.
    pub fn x(&self) -> (width: usize)
        ensures
            width == self@.width,
    {
        self.x
    }

    /// Number of rows.
    pub fn y(&self) -> (height: usize)
        ensures
            height == self@.height,
    {
        self.y
    }

    /// Number of mines the board holds once they are laid.
    pub fn number_of_mines(&self) -> (mines: usize)
        ensures
            mines == self@.mine_count,
    {
        self.number_of_mines
    }

    /// Number of safe squares still covered.
    pub fn get_remaining(&self) -> (remaining: usize)
        ensures
            remaining == self@.remaining,
    {
        self.remaining
    }

    /// Whether the game is over.
    pub fn ended(&self) -> (over: bool)
        ensures
            over == self@.ended,
    {
        self.end
    }

    /// Whether the game is over and was won.
    pub fn is_won(&self) -> (won: bool)
        ensures
            won == self@.is_won(),
    {
        self.end && self.remaining == 0
    }

    /// Whether the game is over and was lost.
    pub fn is_lost(&self) -> (lost: bool)
        ensures
            lost == self@.is_lost(),
    {
        self.end && self.remaining > 0
    }

    /// Whether `(x, y)` is a square of the board.
    pub fn point_in_limit(&self, x: usize, y: usize) -> (inside: bool)
        ensures
            inside == self@.on_board((x as int, y as int)),
    {
        x < self.x && y < self.y
    }

    /// Toggles the flag on the square at `(x, y)`. Nothing happens if the
    /// square is off the board or uncovered, or if the game is over.
    pub fn put_flag(&mut self, x: usize, y: usize)
        requires
            old(self).wf(),
        ensures
            final(self).wf(),
            final(self)@ == old(self)@.toggle_flag((x as int, y as int)),
    {
        proof {
            self.lemma_rows();
        }
        if x < self.x && y < self.y && !self.end && !self.inner[y][x].is_revealed {
            let flagged = self.inner[y][x].is_flagged;
            self.inner[y][x].is_flagged = !flagged;
            proof {
                let after = old(self)@.toggle_flag((x as int, y as int));
                assert(self@ =~~= after);
            }
        }
        proof {
            lemma_toggle_flag_valid(old(self)@, (x as int, y as int));
        }
    }

    /// Uncovers the square at `(x, y)`.
    ///
    /// Nothing happens if the square is off the board, uncovered or
    /// flagged, or if the game is over. Otherwise the first click of a game
    /// lays the mines, on any squares but this one. A mine under the square
    /// ends the game as lost; a safe square is uncovered together with its
    /// flood region, and the game is won once no safe square is covered.
    ///
    /// The call fails only when the mines have to be laid and the random
    /// source fails; the board is then left as it was.
    pub fn handle_click(&mut self, x: usize, y: usize) -> (outcome: Result<(), PlacementError>)
        requires
            old(self).wf(),
        ensures
            final(self).wf(),
            outcome is Ok ==> final(self)@ == old(self)@.click(
                (x as int, y as int),
                final(self)@.mines(),
            ),
            outcome is Ok && old(self)@.can_click((x as int, y as int))
                && !old(self)@.mines_placed ==> old(self)@.fits(final(self)@.mines())
                && !final(self)@.mines().contains((x as int, y as int)),
            outcome is Err ==> final(self)@ == old(self)@ && old(self)@.can_click(
                (x as int, y as int),
            ) && !old(self)@.mines_placed && old(self)@.mine_count > 0,
    {
        proof {
            self.lemma_rows();
        }
        if !self.point_in_limit(x, y) || self.end {
            return Ok(());
        }
        let elem = self.inner[y][x];
        if elem.is_revealed || elem.is_flagged {
            return Ok(());
        }
        if self.first_click {
            match self.ground_mines((x, y)) {
                Ok(()) => {},
                Err(failure) => {
                    return Err(failure);
                },
            }
        }
        proof {
            lemma_uncover_keeps_mines_and_flags(self@, (x as int, y as int));
        }
        self.uncover(x, y);
        Ok(())
    }

    /// Number of flags on the board.
    pub fn count_flags(&self) -> (count: usize)
        requires
            self.wf(),
        ensures
            count == self@.flags().len(),
    {
        let ghost board = self@;
        proof {
            self.lemma_rows();
            lemma_flags_before_ends(board);
        }
        let mut count: usize = 0;
        let mut j: usize = 0;
        while j < self.y
            invariant
                j <= self.y,
                board == self@,
                board.rectangular(),
                board.total() <= usize::MAX,
                self.inner@.len() == self.y,
                forall|r: int| 0 <= r < self.y ==> (#[trigger] self.inner@[r])@.len() == self.x,
                count == flags_before(board, (0, j as int)).len(),
            decreases self.y - j,
        {
            let mut i: usize = 0;
            while i < self.x
                invariant
                    j < self.y,
                    i <= self.x,
                    board == self@,
                    board.rectangular(),
                    board.total() <= usize::MAX,
                    self.inner@.len() == self.y,
                    forall|r: int| 0 <= r < self.y ==> (#[trigger] self.inner@[r])@.len() == self.x,
                    count == flags_before(board, (i as int, j as int)).len(),
                decreases self.x - i,
            {
                proof {
                    lemma_flags_before_next(board, i as int, j as int);
                }
                if self.inner[j][i].is_flagged {
                    count += 1;
                }
                i += 1;
            }
            proof {
                assert(flags_before(board, (self.x as int, j as int)) =~= flags_before(
                    board,
                    (0, j + 1),
                ));
            }
            j += 1;
        }
        count
    }

    /// The square at `(x, y)`, or nothing if that is off the board.
    pub fn cell(&self, x: usize, y: usize) -> (found: Option<Cell>)
        requires
            self.wf(),
        ensures
            found == (if self@.on_board((x as int, y as int)) {
                Some(self@.cell((x as int, y as int)))
            } else {
                None
            }),
    {
        proof {
            self.lemma_rows();
        }
        if x < self.x && y < self.y {
            Some(self.inner[y][x])
        } else {
            None
        }
    }

    /// What the square at `(x, y)` shows, or nothing if that is off the
    /// board.
    pub fn display_state(&self, x: usize, y: usize) -> (state: Option<DisplayState>)
        requires
            self.wf(),
        ensures
            state == (if self@.on_board((x as int, y as int)) {
                Some(self@.cell((x as int, y as int)).shown())
            } else {
                None
            }),
    {
        match self.cell(x, y) {
            Some(cell) => Some(cell.display_state()),
            None => None,
        }
    }

    /// What the square at `(x, y)` of the board shows.
    pub fn get_point_view(&self, x: usize, y: usize) -> (state: DisplayState)
        requires
            self.wf(),
            self@.on_board((x as int, y as int)),
        ensures
            state == self@.cell((x as int, y as int)).shown(),
    {
        self.inner[y][x].display_state()
    }

    /// Throws the game away and starts a new one on a board of the given
    /// size, for the given number of mines.
    pub fn resize(&mut self, x: usize, y: usize, number_of_mines: usize)
        requires
            0 < x,
            0 < y,
            x * y <= usize::MAX,
        ensures
            final(self).wf(),
            final(self)@ == BoardModel::fresh(x as nat, y as nat, number_of_mines as nat),
    {
        *self = Self::new(x, y, number_of_mines);
    }

    /// Starts a new game on a board with `x` columns; rows and mines stay.
    pub fn change_x(&mut self, x: usize)
        requires
            old(self).wf(),
            0 < x,
            x * old(self)@.height <= usize::MAX,
        ensures
            final(self).wf(),
            final(self)@ == BoardModel::fresh(
                x as nat,
                old(self)@.height,
                old(self)@.mine_count,
            ),
    {
        *self = Self::new(x, self.y, self.number_of_mines);
    }

    /// Starts a new game on a board with `y` rows; columns and mines stay.
    pub fn change_y(&mut self, y: usize)
        requires
            old(self).wf(),
            0 < y,
            old(self)@.width * y <= usize::MAX,
        ensures
            final(self).wf(),
            final(self)@ == BoardModel::fresh(
                old(self)@.width,
                y as nat,
                old(self)@.mine_count,
            ),
    {
        *self = Self::new(self.x, y, self.number_of_mines);
    }

    /// Starts a new game on a board of the same size for `mines` mines.
    pub fn change_mines(&mut self, mines: usize)
        requires
            old(self).wf(),
        ensures
            final(self).wf(),
            final(self)@ == BoardModel::fresh(
                old(self)@.width,
                old(self)@.height,
                mines as nat,
            ),
    {
        *self = Self::new(self.x, self.y, mines);
    }
}

} // verus!
