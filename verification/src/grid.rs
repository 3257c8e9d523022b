//! Places on a rectangular grid: which ones exist, which ones touch, and how
//! many come before a given place when the grid is read row by row.

use vstd::prelude::*;

verus! {

/// Whether `p` (column, row) lies on a grid of the given size.
pub open spec fn on_grid(width: nat, height: nat, p: (int, int)) -> bool {
    0 <= p.0 < width && 0 <= p.1 < height
}

/// Whether `a` and `b` are distinct places that touch by a side or a corner.
pub open spec fn adjacent(a: (int, int), b: (int, int)) -> bool {
    a != b && -1 <= b.0 - a.0 <= 1 && -1 <= b.1 - a.1 <= 1
}

/// The place reached from `p` by the `k`-th of the nine steps of a 3x3
/// window, read row by row. Step 4 stays on `p`.
pub open spec fn step(p: (int, int), k: int) -> (int, int) {
    (p.0 + k % 3 - 1, p.1 + k / 3 - 1)
}

/// The number of the step that leads from `a` to `b`.
pub open spec fn rank(a: (int, int), b: (int, int)) -> int {
    3 * (b.1 - a.1 + 1) + (b.0 - a.0 + 1)
}

/// Whether `p` comes before `cursor` when places are read row by row.
pub open spec fn before(p: (int, int), cursor: (int, int)) -> bool {
    p.1 < cursor.1 || (p.1 == cursor.1 && p.0 < cursor.0)
}

/// All places of the grid.
pub open spec fn grid(width: nat, height: nat) -> Set<(int, int)> {
    Set::new(|p: (int, int)| on_grid(width, height, p))
}

/// The places of the grid that come before `cursor`.
pub open spec fn grid_prefix(width: nat, height: nat, cursor: (int, int)) -> Set<(int, int)> {
    Set::new(|p: (int, int)| on_grid(width, height, p) && before(p, cursor))
}

/// The eight steps other than step 4 lead exactly to the adjacent places.
pub proof fn lemma_adjacent_is_a_step(a: (int, int), b: (int, int))
    ensures
        adjacent(a, b) <==> (0 <= rank(a, b) < 9 && rank(a, b) != 4 && -1 <= b.0 - a.0 <= 1),
        adjacent(a, b) ==> step(a, rank(a, b)) == b,
{
}

/// A step other than step 4 leads to an adjacent place, and `rank` recovers it.
pub proof fn lemma_step_is_adjacent(a: (int, int), k: int)
    requires
        0 <= k < 9,
        k != 4,
    ensures
        adjacent(a, step(a, k)),
        rank(a, step(a, k)) == k,
{
}

/// Reading row by row, `y * width + x` places come before column `x` of row `y`.
pub proof fn lemma_grid_prefix_len(width: nat, height: nat, x: int, y: int)
    requires
        0 <= x <= width,
        0 <= y <= height,
        y == height ==> x == 0,
    ensures
        grid_prefix(width, height, (x, y)).finite(),
        grid_prefix(width, height, (x, y)).len() == y * width + x,
    decreases y, x,
{
    let here = grid_prefix(width, height, (x, y));
    if x > 0 {
        lemma_grid_prefix_len(width, height, x - 1, y);
        let earlier = grid_prefix(width, height, (x - 1, y));
        assert(here =~= earlier.insert((x - 1, y)));
    } else if y > 0 {
        lemma_grid_prefix_len(width, height, width as int, y - 1);
        let earlier = grid_prefix(width, height, (width as int, y - 1));
        assert(here =~= earlier);
        assert((y - 1) * width + width == y * width) by (nonlinear_arith);
    } else {
        assert(here =~= Set::<(int, int)>::empty());
    }
}

/// A grid has `width * height` places.
pub proof fn lemma_grid_len(width: nat, height: nat)
    ensures
        grid(width, height).finite(),
        grid(width, height).len() == width * height,
{
    lemma_grid_prefix_len(width, height, 0, height as int);
    assert(grid(width, height) =~= grid_prefix(width, height, (0, height as int)));
    assert(height * width == width * height) by (nonlinear_arith);
}

/// The place one step from `(x, y)` in direction `k`, unless there is no
/// such step, the step stays put, or it leaves the grid.
pub fn neighbor(width: usize, height: usize, x: usize, y: usize, k: usize) -> (found: Option<
    (usize, usize),
>)
    ensures
        found is Some <==> k < 9 && k != 4 && on_grid(
            width as nat,
            height as nat,
            step((x as int, y as int), k as int),
        ),
        found matches Some(q) ==> (q.0 as int, q.1 as int) == step((x as int, y as int), k as int),
{
    if k >= 9 || k == 4 {
        return None;
    }
    let dx: isize = (k % 3) as isize - 1;
    let dy: isize = (k / 3) as isize - 1;
    match (x.checked_add_signed(dx), y.checked_add_signed(dy)) {
        (Some(nx), Some(ny)) => {
            if nx < width && ny < height {
                Some((nx, ny))
            } else {
                None
            }
        },
        _ => None,
    }
}

} // verus!
