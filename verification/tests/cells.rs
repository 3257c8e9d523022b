use minesweeper::cell::{Cell, DisplayState};
use minesweeper::grid::neighbor;

fn cell(mine: bool, revealed: bool, flagged: bool, clicked: bool, around: u8) -> Cell {
    Cell {
        is_mine: mine,
        is_revealed: revealed,
        is_flagged: flagged,
        was_triggering_click: clicked,
        adjacent_mine_count: around,
    }
}

#[test]
fn default_cell_is_blank() {
    let c = Cell::default();
    assert!(!c.is_mine);
    assert!(!c.is_revealed);
    assert!(!c.is_flagged);
    assert!(!c.was_triggering_click);
    assert_eq!(c.adjacent_mine_count, 0);
    assert_eq!(c.display_state(), DisplayState::Hidden);
}

#[test]
fn covered_cell_is_hidden_whatever_lies_under_it() {
    assert_eq!(cell(false, false, false, false, 3).display_state(), DisplayState::Hidden);
    assert_eq!(cell(true, false, false, false, 0).display_state(), DisplayState::Hidden);
}

#[test]
fn flag_on_covered_cell_shows_flag() {
    assert_eq!(cell(false, false, true, false, 2).display_state(), DisplayState::Flagged);
    assert_eq!(cell(true, false, true, false, 2).display_state(), DisplayState::Flagged);
}

#[test]
fn flag_on_uncovered_mine_stays_a_flag() {
    assert_eq!(cell(true, true, true, false, 1).display_state(), DisplayState::Flagged);
    assert_eq!(cell(true, true, true, true, 1).display_state(), DisplayState::Flagged);
}

#[test]
fn flag_on_uncovered_safe_cell_is_wrong() {
    assert_eq!(
        cell(false, true, true, false, 4).display_state(),
        DisplayState::FlaggedIncorrectly
    );
}

#[test]
fn clicked_mine_is_exploded() {
    assert_eq!(cell(true, true, false, true, 0).display_state(), DisplayState::ExplodedMine);
}

#[test]
fn swept_mine_is_plain_mine() {
    assert_eq!(cell(true, true, false, false, 5).display_state(), DisplayState::Mine);
}

#[test]
fn uncovered_safe_cell_shows_its_number() {
    for n in 0..=8u8 {
        assert_eq!(cell(false, true, false, false, n).display_state(), DisplayState::Number(n));
    }
}

#[test]
fn display_state_leaves_cell_untouched() {
    let c = cell(true, true, false, true, 2);
    let copy = c;
    let _ = c.display_state();
    assert_eq!(c, copy);
}

#[test]
fn neighbor_steps_read_the_window_row_by_row() {
    let found: Vec<Option<(usize, usize)>> = (0..9).map(|k| neighbor(5, 5, 2, 2, k)).collect();
    assert_eq!(
        found,
        vec![
            Some((1, 1)),
            Some((2, 1)),
            Some((3, 1)),
            Some((1, 2)),
            None,
            Some((3, 2)),
            Some((1, 3)),
            Some((2, 3)),
            Some((3, 3)),
        ]
    );
}

#[test]
fn neighbor_stays_on_the_grid_in_the_top_left_corner() {
    let found: Vec<Option<(usize, usize)>> = (0..9).map(|k| neighbor(3, 2, 0, 0, k)).collect();
    assert_eq!(
        found,
        vec![None, None, None, None, None, Some((1, 0)), None, Some((0, 1)), Some((1, 1))]
    );
}

#[test]
fn neighbor_stays_on_the_grid_in_the_bottom_right_corner() {
    let found: Vec<Option<(usize, usize)>> = (0..9).map(|k| neighbor(3, 2, 2, 1, k)).collect();
    assert_eq!(
        found,
        vec![Some((1, 0)), Some((2, 0)), None, Some((1, 1)), None, None, None, None, None]
    );
}

#[test]
fn neighbor_of_a_lone_square_is_nothing() {
    for k in 0..9 {
        assert_eq!(neighbor(1, 1, 0, 0, k), None);
    }
}

#[test]
fn neighbor_at_the_largest_coordinate_does_not_overflow() {
    let big = usize::MAX;
    assert_eq!(neighbor(big, big, big - 1, big - 1, 8), None);
    assert_eq!(neighbor(big, big, big - 1, big - 1, 0), Some((big - 2, big - 2)));
}

#[test]
fn neighbor_knows_no_step_beyond_the_ninth() {
    assert_eq!(neighbor(5, 5, 2, 2, 9), None);
    assert_eq!(neighbor(5, 5, 2, 2, 100), None);
    assert_eq!(neighbor(5, 5, 2, 2, usize::MAX), None);
}
