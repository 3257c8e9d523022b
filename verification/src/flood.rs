//! Facts about the flood that uncovers a region of the board.

use vstd::prelude::*;
use vstd::set_lib::{lemma_len_subset, lemma_set_disjoint_lens};
use crate::grid::{adjacent, grid, lemma_adjacent_is_a_step, lemma_grid_len};
use crate::model::{mines_around, BoardModel};

verus! {

/// Whether `region` is closed under the flood of `board`: around each of
/// its squares that spreads, every square that may be uncovered is in it too.
pub open spec fn flood_closed(board: BoardModel, region: Set<(int, int)>) -> bool {
    forall|p: (int, int), q: (int, int)|
        #![trigger region.contains(p), adjacent(p, q)]
        region.contains(p) && board.spreads(p) && adjacent(p, q) && board.can_open(q)
            ==> region.contains(q)
}

/// The flood reaches the square it starts from.
pub proof fn lemma_flood_start(board: BoardModel, from: (int, int))
    requires
        board.can_open(from),
    ensures
        board.floods(from, from),
{
    let path = seq![from];
    assert(board.flood_path(path));
}

/// The flood goes on from a reached square that spreads to each square
/// around it that may be uncovered.
pub proof fn lemma_flood_step(board: BoardModel, from: (int, int), p: (int, int), q: (int, int))
    requires
        board.floods(from, p),
        board.spreads(p),
        adjacent(p, q),
        board.can_open(q),
    ensures
        board.floods(from, q),
{
    let path = choose|path: Seq<(int, int)>|
        #[trigger] board.flood_path(path) && path[0] == from && path.last() == p;
    let longer = path.push(q);
    assert forall|i: int| 0 <= i < longer.len() implies board.can_open(#[trigger] longer[i]) by {}
    assert forall|i: int| 0 <= i < longer.len() - 1 implies board.spreads(#[trigger] longer[i])
        && adjacent(longer[i], longer[i + 1]) by {}
    assert(board.flood_path(longer));
}

/// Every square of a flood path lies in any closed region that holds the
/// path's first square.
proof fn lemma_path_inside(
    board: BoardModel,
    region: Set<(int, int)>,
    path: Seq<(int, int)>,
    i: int,
)
    requires
        board.flood_path(path),
        region.contains(path[0]),
        flood_closed(board, region),
        0 <= i < path.len(),
    ensures
        region.contains(path[i]),
    decreases i,
{
    if i > 0 {
        lemma_path_inside(board, region, path, i - 1);
    }
}

/// The flood region is the least closed region around its start: whatever
/// the flood reaches lies in every closed region that holds the start.
pub proof fn lemma_flood_least(
    board: BoardModel,
    from: (int, int),
    region: Set<(int, int)>,
    to: (int, int),
)
    requires
        region.contains(from),
        flood_closed(board, region),
        board.floods(from, to),
    ensures
        region.contains(to),
{
    let path = choose|path: Seq<(int, int)>|
        #[trigger] board.flood_path(path) && path[0] == from && path.last() == to;
    lemma_path_inside(board, region, path, path.len() - 1);
}

/// The flood region is itself closed, and holds its start if that square
/// may be uncovered.
pub proof fn lemma_flood_region_closed(board: BoardModel, from: (int, int))
    ensures
        flood_closed(board, board.flood_region(from)),
        board.can_open(from) ==> board.flood_region(from).contains(from),
        forall|to: (int, int)| #[trigger]
            board.flood_region(from).contains(to) ==> board.can_open(to) && board.can_open(from),
{
    let region = board.flood_region(from);
    assert forall|p: (int, int), q: (int, int)|
        #![trigger region.contains(p), adjacent(p, q)]
        region.contains(p) && board.spreads(p) && adjacent(p, q) && board.can_open(
            q,
        ) implies region.contains(q) by {
        lemma_flood_step(board, from, p, q);
    }
    if board.can_open(from) {
        lemma_flood_start(board, from);
    }
}

/// A square with no mine around it has only safe squares around it.
pub proof fn lemma_zero_means_safe_around(mines: Set<(int, int)>, p: (int, int), q: (int, int))
    requires
        mines_around(mines, p) == 0,
        adjacent(p, q),
    ensures
        !mines.contains(q),
{
    lemma_adjacent_is_a_step(p, q);
}

/// On a board whose numbers are right, a flood that starts on a safe
/// square uncovers safe squares only.
pub proof fn lemma_flood_region_safe(board: BoardModel, from: (int, int))
    requires
        board.numbers_match(),
        !board.cell(from).is_mine,
    ensures
        forall|to: (int, int)| #[trigger]
            board.flood_region(from).contains(to) ==> board.can_open(to) && !board.cell(to).is_mine,
{
    let safe = Set::new(|p: (int, int)| board.can_open(p) && !board.cell(p).is_mine);
    assert forall|p: (int, int), q: (int, int)|
        #![trigger safe.contains(p), adjacent(p, q)]
        safe.contains(p) && board.spreads(p) && adjacent(p, q) && board.can_open(
            q,
        ) implies safe.contains(q) by {
        lemma_zero_means_safe_around(board.mines(), p, q);
    }
    lemma_flood_region_closed(board, from);
    assert forall|to: (int, int)| #[trigger] board.flood_region(from).contains(to) implies
        board.can_open(to) && !board.cell(to).is_mine by {
        lemma_flood_least(board, from, safe, to);
    }
}

/// A square numbered zero is linked to itself, and a link over squares
/// numbered zero goes on to each such square around its end.
pub proof fn lemma_zero_link(board: BoardModel, from: (int, int), c: (int, int), d: (int, int))
    requires
        board.is_zero(from),
    ensures
        board.zero_linked(from, from),
        board.zero_linked(from, c) && adjacent(c, d) && board.is_zero(d) ==> board.zero_linked(
            from,
            d,
        ),
{
    let alone = seq![from];
    assert(board.zero_path(alone) && alone[0] == from && alone.last() == from);
    if board.zero_linked(from, c) && adjacent(c, d) && board.is_zero(d) {
        let path = choose|path: Seq<(int, int)>|
            #[trigger] board.zero_path(path) && path[0] == from && path.last() == c;
        let longer = path.push(d);
        assert forall|i: int| 0 <= i < longer.len() implies board.is_zero(
            #[trigger] longer[i],
        ) by {
            if i < path.len() {
                assert(longer[i] == path[i]);
            }
        }
        assert forall|i: int| 0 <= i < longer.len() - 1 implies adjacent(
            #[trigger] longer[i],
            longer[i + 1],
        ) by {
            assert(longer[i] == path[i]);
            if i < path.len() - 1 {
                assert(longer[i + 1] == path[i + 1]);
            }
        }
        assert(board.zero_path(longer) && longer[0] == from && longer.last() == d);
    }
}

/// Every square on a path over squares numbered zero is linked to the
/// path's first square.
pub proof fn lemma_zero_path_linked(board: BoardModel, path: Seq<(int, int)>, i: int)
    requires
        board.zero_path(path),
        0 <= i < path.len(),
    ensures
        board.zero_linked(path[0], path[i]),
{
    let head = path.take(i + 1);
    assert forall|k: int| 0 <= k < head.len() implies board.is_zero(#[trigger] head[k]) by {
        assert(head[k] == path[k]);
    }
    assert forall|k: int| 0 <= k < head.len() - 1 implies adjacent(
        #[trigger] head[k],
        head[k + 1],
    ) by {
        assert(head[k] == path[k] && head[k + 1] == path[k + 1]);
    }
    assert(board.zero_path(head) && head[0] == path[0] && head.last() == path[i]);
}

/// On a board whose numbers are right, the zero region of a safe square
/// and its ring hold no mine.
pub proof fn lemma_zero_region_safe(board: BoardModel, from: (int, int), p: (int, int))
    requires
        board.numbers_match(),
        !board.cell(from).is_mine,
        board.zero_region_with_ring(from).contains(p),
    ensures
        !board.cell(p).is_mine,
        board.zero_linked(from, p) ==> board.spreads(p),
{
    if board.zero_linked(from, p) {
        let path = choose|path: Seq<(int, int)>|
            #[trigger] board.zero_path(path) && path[0] == from && path.last() == p;
        if path.len() > 1 {
            let c = path[path.len() - 2];
            assert(board.is_zero(c) && adjacent(c, path[path.len() - 1]));
            assert(board.cell(c).adjacent_mine_count == mines_around(board.mines(), c));
            lemma_zero_means_safe_around(board.mines(), c, p);
        }
    } else {
        let c = choose|c: (int, int)| #[trigger] board.zero_linked(from, c) && adjacent(c, p);
        let path = choose|path: Seq<(int, int)>|
            #[trigger] board.zero_path(path) && path[0] == from && path.last() == c;
        assert(board.is_zero(path[path.len() - 1]));
        assert(board.cell(c).adjacent_mine_count == mines_around(board.mines(), c));
        lemma_zero_means_safe_around(board.mines(), c, p);
    }
}

/// The flood that starts on a safe square numbered zero stays within the
/// zero region of that square and its ring.
pub proof fn lemma_flood_within_zero_region(board: BoardModel, from: (int, int), p: (int, int))
    requires
        board.numbers_match(),
        board.is_zero(from),
        !board.cell(from).is_mine,
        board.floods(from, p),
    ensures
        board.zero_region_with_ring(from).contains(p),
{
    let ring = board.zero_region_with_ring(from);
    lemma_zero_link(board, from, from, from);
    assert forall|a: (int, int), b: (int, int)|
        #![trigger ring.contains(a), adjacent(a, b)]
        ring.contains(a) && board.spreads(a) && adjacent(a, b) && board.can_open(
            b,
        ) implies ring.contains(b) by {
        if !board.zero_linked(from, a) {
            let c = choose|c: (int, int)| #[trigger] board.zero_linked(from, c) && adjacent(c, a);
            lemma_zero_link(board, from, c, a);
        }
        assert(board.zero_linked(from, a));
    }
    lemma_flood_least(board, from, ring, p);
}

/// Whether the zero region of `from` is clear for the flood: no square of
/// the region or of its ring carries a flag, and no uncovered square of
/// the region has a covered square around it.
pub open spec fn zero_region_clear(board: BoardModel, from: (int, int)) -> bool {
    &&& forall|p: (int, int)| #[trigger]
        board.zero_region_with_ring(from).contains(p) ==> !board.cell(p).is_flagged
    &&& forall|c: (int, int), p: (int, int)|
        #![trigger board.zero_region(from).contains(c), adjacent(c, p)]
        board.zero_region(from).contains(c) && board.cell(c).is_revealed && adjacent(c, p)
            && board.on_board(p) ==> board.cell(p).is_revealed
}

/// Where the zero region of `from` is clear for the flood, the flood from
/// `from` reaches every covered square on a path over squares numbered
/// zero.
proof fn lemma_zero_path_flooded(board: BoardModel, from: (int, int), path: Seq<(int, int)>, i: int)
    requires
        board.numbers_match(),
        board.can_open(from),
        board.is_zero(from),
        !board.cell(from).is_mine,
        zero_region_clear(board, from),
        board.zero_path(path),
        path[0] == from,
        0 <= i < path.len(),
    ensures
        board.cell(path[i]).is_revealed || board.floods(from, path[i]),
    decreases i,
{
    if i == 0 {
        lemma_flood_start(board, from);
    } else {
        lemma_zero_path_flooded(board, from, path, i - 1);
        lemma_zero_path_linked(board, path, i - 1);
        lemma_zero_path_linked(board, path, i);
        assert(adjacent(path[i - 1], path[i]));
        lemma_zero_ring_flooded(board, from, path[i - 1], path[i]);
    }
}

/// Under the same conditions, the flood reaches every covered square
/// around a square of the zero region that is uncovered or reached.
proof fn lemma_zero_ring_flooded(board: BoardModel, from: (int, int), c: (int, int), p: (int, int))
    requires
        board.numbers_match(),
        !board.cell(from).is_mine,
        zero_region_clear(board, from),
        board.zero_linked(from, c),
        board.cell(c).is_revealed || board.floods(from, c),
        adjacent(c, p),
        board.on_board(p),
    ensures
        board.cell(p).is_revealed || board.floods(from, p),
{
    let ring = board.zero_region_with_ring(from);
    assert(ring.contains(p));
    assert(board.zero_region(from).contains(c));
    if !board.cell(p).is_revealed {
        assert(!board.cell(p).is_flagged);
        assert(!board.cell(c).is_revealed);
        let path = choose|path: Seq<(int, int)>|
            #[trigger] board.zero_path(path) && path[0] == from && path.last() == c;
        assert(board.is_zero(path[path.len() - 1]));
        assert(ring.contains(c));
        lemma_zero_region_safe(board, from, c);
        lemma_flood_step(board, from, c, p);
    }
}

/// Where the zero region of a safe, covered square numbered zero is clear
/// for the flood, the flood region of that square is the covered part of
/// its zero region and ring.
pub proof fn lemma_flood_is_covered_zero_region(board: BoardModel, from: (int, int))
    requires
        board.numbers_match(),
        board.can_open(from),
        board.is_zero(from),
        !board.cell(from).is_mine,
        zero_region_clear(board, from),
    ensures
        board.flood_region(from) == board.covered_zero_region_with_ring(from),
{
    let region = board.flood_region(from);
    let covered = board.covered_zero_region_with_ring(from);
    lemma_flood_region_closed(board, from);
    assert forall|p: (int, int)| region.contains(p) implies covered.contains(p) by {
        lemma_flood_within_zero_region(board, from, p);
    }
    assert forall|p: (int, int)| covered.contains(p) implies region.contains(p) by {
        if board.zero_linked(from, p) {
            let path = choose|path: Seq<(int, int)>|
                #[trigger] board.zero_path(path) && path[0] == from && path.last() == p;
            lemma_zero_path_flooded(board, from, path, path.len() - 1);
        } else {
            let c = choose|c: (int, int)| #[trigger] board.zero_linked(from, c) && adjacent(c, p);
            let path = choose|path: Seq<(int, int)>|
                #[trigger] board.zero_path(path) && path[0] == from && path.last() == c;
            lemma_zero_path_flooded(board, from, path, path.len() - 1);
            lemma_zero_ring_flooded(board, from, c, p);
        }
    }
    assert(region =~= covered);
}

/// The safe squares of a board number its squares less its mines.
pub proof fn lemma_safe_count(board: BoardModel)
    requires
        board.width > 0,
        board.height > 0,
    ensures
        board.mines().finite(),
        board.mines().len() <= board.total(),
        grid(board.width, board.height).difference(board.mines()).finite(),
        grid(board.width, board.height).difference(board.mines()).len() + board.mines().len()
            == board.total(),
{
    let all = grid(board.width, board.height);
    let mines = board.mines();
    let safe = all.difference(mines);
    lemma_grid_len(board.width, board.height);
    lemma_len_subset(mines, all);
    lemma_len_subset(safe, all);
    lemma_set_disjoint_lens(safe, mines);
    assert(safe + mines =~= all);
}

/// While a game is on, a set of covered safe squares is no larger than
/// the number of safe squares still to be uncovered.
pub proof fn lemma_covered_safe_bound(board: BoardModel, covered: Set<(int, int)>)
    requires
        board.valid(),
        board.mines_placed,
        !board.ended,
        forall|p: (int, int)| #[trigger]
            covered.contains(p) ==> board.on_board(p) && !board.cell(p).is_revealed && !board.cell(
                p,
            ).is_mine,
    ensures
        covered.finite(),
        board.revealed_safe().finite(),
        covered.disjoint(board.revealed_safe()),
        covered.len() <= board.remaining,
{
    let all = grid(board.width, board.height);
    let safe = all.difference(board.mines());
    let shown = board.revealed_safe();
    lemma_safe_count(board);
    lemma_len_subset(covered, safe);
    lemma_len_subset(shown, safe);
    lemma_set_disjoint_lens(covered, shown);
    lemma_len_subset(covered + shown, safe);
}

} // verus!
