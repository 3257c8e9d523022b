//! What holds of every game: each rule keeps the board valid, and the
//! consequences for counting, flags, the first click and the end of a game.

use vstd::prelude::*;
use vstd::set_lib::lemma_set_disjoint_lens;
use crate::flood::{
    flood_closed, lemma_covered_safe_bound, lemma_flood_is_covered_zero_region,
    lemma_flood_least, lemma_flood_region_closed, lemma_flood_region_safe, lemma_safe_count,
    lemma_zero_region_safe, zero_region_clear,
};
use crate::grid::{adjacent, grid};
use crate::model::BoardModel;

verus! {

/// A new board is valid.
pub proof fn lemma_fresh_valid(width: nat, height: nat, requested: nat)
    requires
        width > 0,
        height > 0,
    ensures
        BoardModel::fresh(width, height, requested).valid(),
{
    let board = BoardModel::fresh(width, height, requested);
    assert(width * height >= 1) by (nonlinear_arith)
        requires
            width >= 1,
            height >= 1,
    ;
    assert(board.revealed_safe() =~= Set::<(int, int)>::empty());
}

/// Toggling a flag keeps the board valid.
pub proof fn lemma_toggle_flag_valid(board: BoardModel, p: (int, int))
    requires
        board.valid(),
    ensures
        board.toggle_flag(p).valid(),
{
    let after = board.toggle_flag(p);
    if board.can_flag(p) {
        assert(after.mines() =~= board.mines());
        assert(after.revealed_safe() =~= board.revealed_safe());
    }
}

/// Laying a fitting set of mines on a board that has none keeps it valid,
/// and the mines of the result are exactly the set that was laid.
pub proof fn lemma_with_mines_valid(board: BoardModel, mines: Set<(int, int)>)
    requires
        board.valid(),
        !board.mines_placed,
        board.fits(mines),
    ensures
        board.with_mines(mines).valid(),
        board.with_mines(mines).mines() == mines,
{
    let after = board.with_mines(mines);
    assert(after.mines() =~= mines);
    assert(after.revealed_safe() =~= Set::<(int, int)>::empty());
    assert(board.revealed_safe() =~= Set::<(int, int)>::empty());
}

/// Uncovering a square of a board whose mines are laid keeps it valid.
pub proof fn lemma_uncover_valid(board: BoardModel, p: (int, int))
    requires
        board.valid(),
        board.mines_placed,
    ensures
        board.uncover(p).valid(),
{
    let after = board.uncover(p);
    if !board.can_click(p) {
    } else if board.cell(p).is_mine {
        assert(after.mines() =~= board.mines());
        assert(after.on_board(p) && after.cell(p).was_triggering_click);
    } else {
        let region = board.flood_region(p);
        let opened = board.open_all(region);
        lemma_flood_region_safe(board, p);
        lemma_covered_safe_bound(board, region);
        assert(opened.mines() =~= board.mines());
        assert(opened.revealed_safe() =~= board.revealed_safe() + region);
        lemma_set_disjoint_lens(board.revealed_safe(), region);
        if opened.remaining == 0 {
            assert(after.mines() =~= board.mines());
        }
    }
}

/// Uncovering never moves a mine or a flag.
pub proof fn lemma_uncover_keeps_mines_and_flags(board: BoardModel, p: (int, int))
    ensures
        board.uncover(p).mines() == board.mines(),
        board.uncover(p).flags() == board.flags(),
        board.uncover(p).mines_placed == board.mines_placed,
{
}

/// A click keeps the board valid, whatever fitting set of mines the first
/// effective click lays.
pub proof fn lemma_click_valid(board: BoardModel, p: (int, int), mines: Set<(int, int)>)
    requires
        board.valid(),
        board.mines_placed || board.fits(mines),
    ensures
        board.click(p, mines).valid(),
{
    if board.can_click(p) {
        if board.mines_placed {
            lemma_uncover_valid(board, p);
        } else {
            lemma_with_mines_valid(board, mines);
            lemma_uncover_valid(board.with_mines(mines), p);
        }
    }
}

/// While a game is on, the safe squares still to be uncovered are the
/// squares of the board less its mines less the safe squares uncovered.
pub proof fn lemma_remaining_counts_covered_safe(board: BoardModel)
    requires
        board.valid(),
        !board.ended,
    ensures
        board.remaining == board.total() - board.mine_count - board.revealed_safe().len(),
{
}

/// Once the mines are laid and while the game is on, the safe squares
/// still to be uncovered are exactly the covered squares without a mine.
pub proof fn lemma_remaining_is_covered_safe(board: BoardModel)
    requires
        board.valid(),
        board.mines_placed,
        !board.ended,
    ensures
        board.covered_safe().finite(),
        board.remaining == board.covered_safe().len(),
{
    let safe = grid(board.width, board.height).difference(board.mines());
    let shown = board.revealed_safe();
    let covered = board.covered_safe();
    lemma_safe_count(board);
    lemma_covered_safe_bound(board, covered);
    lemma_set_disjoint_lens(covered, shown);
    assert(covered + shown =~= safe);
}

/// The first click that uncovers a square never hits a mine: whatever
/// fitting set of mines without that square is laid, the square is
/// uncovered and safe, the mines are the ones laid, and the game is not lost.
pub proof fn lemma_first_click_is_safe(board: BoardModel, p: (int, int), mines: Set<(int, int)>)
    requires
        board.valid(),
        !board.mines_placed,
        board.can_click(p),
        board.fits(mines),
        !mines.contains(p),
    ensures
        board.click(p, mines).mines_placed,
        board.click(p, mines).mines() == mines,
        board.click(p, mines).cell(p).is_revealed,
        !board.click(p, mines).cell(p).is_mine,
        !board.click(p, mines).is_lost(),
{
    let laid = board.with_mines(mines);
    lemma_click_opens(laid, p);
}

/// A click that does anything leaves the clicked square uncovered.
pub proof fn lemma_click_opens(board: BoardModel, p: (int, int))
    requires
        board.rectangular(),
        board.can_click(p),
    ensures
        board.uncover(p).cell(p).is_revealed,
        board.uncover(p).cell(p).is_mine == board.cell(p).is_mine,
        !board.cell(p).is_mine ==> (board.uncover(p).ended <==> board.uncover(p).remaining == 0),
{
    if !board.cell(p).is_mine {
        lemma_flood_region_closed(board, p);
    }
}

/// Clicking the same square twice does no more than clicking it once.
pub proof fn lemma_click_twice(
    board: BoardModel,
    p: (int, int),
    mines: Set<(int, int)>,
    again: Set<(int, int)>,
)
    requires
        board.rectangular(),
    ensures
        board.click(p, mines).click(p, again) == board.click(p, mines),
{
    if board.can_click(p) {
        if board.mines_placed {
            lemma_click_opens(board, p);
        } else {
            lemma_click_opens(board.with_mines(mines), p);
        }
    }
}

/// Toggling the flag of a square twice gives back the board as it was.
pub proof fn lemma_toggle_flag_twice(board: BoardModel, p: (int, int))
    requires
        board.rectangular(),
    ensures
        board.toggle_flag(p).toggle_flag(p) == board,
{
    let once = board.toggle_flag(p);
    let twice = once.toggle_flag(p);
    if board.can_flag(p) {
        assert(twice =~~= board);
    }
}

/// A flag can be neither planted on nor taken from an uncovered square,
/// and none can be moved once the game is over.
pub proof fn lemma_no_flag_on_revealed(board: BoardModel, p: (int, int))
    requires
        board.cell(p).is_revealed || board.ended || !board.on_board(p),
    ensures
        board.toggle_flag(p) == board,
{
}

/// Uncovering a safe square uncovers, besides what was uncovered before,
/// exactly its flood region, unless that wins the game and shows the
/// whole board.
pub proof fn lemma_uncover_opens_flood_region(board: BoardModel, p: (int, int), q: (int, int))
    requires
        board.valid(),
        board.mines_placed,
        board.can_click(p),
        !board.cell(p).is_mine,
        board.on_board(q),
    ensures
        board.uncover(p).cell(q).is_revealed <==> board.cell(q).is_revealed || board.floods(p, q)
            || board.uncover(p).is_won(),
        !board.uncover(p).is_lost(),
{
    lemma_flood_region_safe(board, p);
}

/// Uncovering a safe square numbered zero uncovers its zero region and the
/// ring of squares around that region, and no more.
///
/// This holds where the zero region is clear for the flood: no square of
/// the region or of its ring carries a flag, and no uncovered square of the
/// region has a covered square around it, as one has after a flag that
/// held the flood back was taken off again. Every square uncovered is
/// safe, each one that was covered is counted off, and unless that wins the
/// game and shows the whole board, no other square is uncovered.
pub proof fn lemma_uncover_opens_zero_region_and_ring(board: BoardModel, p: (int, int))
    requires
        board.valid(),
        board.mines_placed,
        board.can_click(p),
        board.is_zero(p),
        !board.cell(p).is_mine,
        zero_region_clear(board, p),
    ensures
        forall|q: (int, int)| #[trigger]
            board.zero_region_with_ring(p).contains(q) ==> !board.cell(q).is_mine
                && board.uncover(p).cell(q).is_revealed,
        board.covered_zero_region_with_ring(p).finite(),
        board.uncover(p).remaining == board.remaining - board.covered_zero_region_with_ring(
            p,
        ).len(),
        !board.uncover(p).is_lost(),
        !board.uncover(p).ended ==> forall|q: (int, int)|
            board.on_board(q) ==> (#[trigger] board.uncover(p).cell(q).is_revealed
                <==> board.cell(q).is_revealed || board.zero_region_with_ring(p).contains(q)),
{
    lemma_flood_is_covered_zero_region(board, p);
    lemma_flood_region_safe(board, p);
    lemma_covered_safe_bound(board, board.flood_region(p));
    assert forall|q: (int, int)| #[trigger]
        board.zero_region_with_ring(p).contains(q) implies !board.cell(q).is_mine
        && board.uncover(p).cell(q).is_revealed by {
        lemma_zero_region_safe(board, p, q);
        assert(board.cell(q).is_revealed || board.covered_zero_region_with_ring(p).contains(q));
    }
}

/// The flood region of a square that may be uncovered is the least
/// region that holds the square and is closed under the flood: it is one
/// such region, and it lies within every other.
pub proof fn lemma_flood_region_is_least_closed(board: BoardModel, p: (int, int))
    requires
        board.can_open(p),
    ensures
        board.flood_region(p).contains(p),
        flood_closed(board, board.flood_region(p)),
        forall|other: Set<(int, int)>|
            other.contains(p) && #[trigger] flood_closed(board, other) ==> board.flood_region(
                p,
            ).subset_of(other),
{
    lemma_flood_region_closed(board, p);
    assert forall|other: Set<(int, int)>|
        other.contains(p) && #[trigger] flood_closed(board, other) implies board.flood_region(
        p,
    ).subset_of(other) by {
        assert forall|q: (int, int)| board.flood_region(p).contains(q) implies other.contains(
            q,
        ) by {
            lemma_flood_least(board, p, other, q);
        }
    }
}

/// A square that does not spread is uncovered alone.
pub proof fn lemma_numbered_square_opens_alone(board: BoardModel, p: (int, int))
    requires
        board.can_open(p),
        !board.spreads(p),
    ensures
        board.flood_region(p) == set![p],
{
    let alone = set![p];
    lemma_flood_region_closed(board, p);
    assert forall|q: (int, int)| board.flood_region(p).contains(q) implies alone.contains(q) by {}
}

/// Every square of a flood region other than its start lies next to a
/// square of the region that spreads: the region is made of squares that
/// spread and a border one square wide.
pub proof fn lemma_flood_region_border(board: BoardModel, p: (int, int), q: (int, int))
    requires
        board.floods(p, q),
        q != p,
    ensures
        exists|c: (int, int)|
            #![trigger board.floods(p, c)]
            board.floods(p, c) && board.spreads(c) && adjacent(c, q),
{
    let path = choose|path: Seq<(int, int)>|
        #[trigger] board.flood_path(path) && path[0] == p && path.last() == q;
    let head = path.drop_last();
    let c = head.last();
    assert forall|i: int| 0 <= i < head.len() implies board.can_open(#[trigger] head[i]) by {}
    assert forall|i: int| 0 <= i < head.len() - 1 implies board.spreads(#[trigger] head[i])
        && adjacent(head[i], head[i + 1]) by {}
    assert(board.flood_path(head) && head[0] == p && head.last() == c);
    assert(board.floods(p, c));
    assert(board.spreads(path[path.len() - 2]) && adjacent(
        path[path.len() - 2],
        path[path.len() - 1],
    ));
}

/// Uncovering a mine ends the game as lost. Uncovering a safe square never
/// loses it, and wins it exactly if no safe square is left covered.
pub proof fn lemma_game_over(board: BoardModel, p: (int, int))
    requires
        board.valid(),
        board.mines_placed,
        board.can_click(p),
    ensures
        board.cell(p).is_mine ==> board.uncover(p).is_lost() && !board.uncover(p).is_won(),
        !board.cell(p).is_mine ==> !board.uncover(p).is_lost(),
        board.uncover(p).remaining == 0 <==> board.uncover(p).is_won(),
        board.uncover(p).ended <==> board.cell(p).is_mine || board.uncover(p).remaining == 0,
{
}

/// No safe square left to uncover means that the game is over and won.
pub proof fn lemma_nothing_left_is_won(board: BoardModel)
    requires
        board.valid(),
        board.remaining == 0,
    ensures
        board.ended,
        board.is_won(),
{
}

/// Once a game is over, every square is uncovered.
pub proof fn lemma_all_revealed_at_end(board: BoardModel, p: (int, int))
    requires
        board.valid(),
        board.ended,
        board.on_board(p),
    ensures
        board.cell(p).is_revealed,
{
}

/// Ending a game shows every square, whatever was covered or flagged
/// before, and moves no flag.
pub proof fn lemma_end_game_shows_all(board: BoardModel, p: (int, int))
    requires
        board.on_board(p),
    ensures
        board.end_game().ended,
        board.end_game().cell(p).is_revealed,
        board.end_game().cell(p).is_flagged == board.cell(p).is_flagged,
{
}

} // verus!
