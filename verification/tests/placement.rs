use minesweeper::board::Board;
use minesweeper::position_set::PositionSet;
use minesweeper::random::{coordinate, position_from_draws, random_position};

fn mines_of(board: &Board) -> Vec<(usize, usize)> {
    let mut found = Vec::new();
    for y in 0..board.y() {
        for x in 0..board.x() {
            if board.cell(x, y).unwrap().is_mine {
                found.push((x, y));
            }
        }
    }
    found
}

fn around(board: &Board, x: usize, y: usize) -> u8 {
    let mut count = 0;
    for dy in -1i64..=1 {
        for dx in -1i64..=1 {
            if dx == 0 && dy == 0 {
                continue;
            }
            let nx = x as i64 + dx;
            let ny = y as i64 + dy;
            if nx < 0 || ny < 0 {
                continue;
            }
            if let Some(c) = board.cell(nx as usize, ny as usize) {
                if c.is_mine {
                    count += 1;
                }
            }
        }
    }
    count
}

#[test]
fn coordinate_is_the_remainder() {
    assert_eq!(coordinate(0, 7), 0);
    assert_eq!(coordinate(6, 7), 6);
    assert_eq!(coordinate(7, 7), 0);
    assert_eq!(coordinate(23, 7), 2);
    assert_eq!(coordinate(u64::MAX, 10), 5);
    assert_eq!(coordinate(12345, 1), 0);
}

#[test]
fn position_takes_column_from_first_draw_and_row_from_second() {
    assert_eq!(position_from_draws(13, 29, 5, 4), (3, 1));
    assert_eq!(position_from_draws(29, 13, 5, 4), (4, 1));
    assert_eq!(position_from_draws(0, 0, 1, 1), (0, 0));
    assert_eq!(position_from_draws(u64::MAX, u64::MAX - 1, 100, 100), (15, 14));
}

#[test]
fn random_position_lies_on_the_grid() {
    for _ in 0..500 {
        let (x, y) = random_position(7, 3).unwrap();
        assert!(x < 7);
        assert!(y < 3);
    }
    assert_eq!(random_position(1, 1), Ok((0, 0)));
}

#[test]
fn random_positions_differ() {
    let first = random_position(usize::MAX, usize::MAX).unwrap();
    let mut all_equal = true;
    for _ in 0..8 {
        if random_position(usize::MAX, usize::MAX).unwrap() != first {
            all_equal = false;
        }
    }
    assert!(!all_equal);
}

#[test]
fn random_positions_reach_every_square() {
    let mut hit = [[false; 3]; 2];
    for _ in 0..2000 {
        let (x, y) = random_position(3, 2).unwrap();
        hit[y][x] = true;
    }
    assert_eq!(hit, [[true; 3]; 2]);
}

#[test]
fn position_set_starts_empty() {
    let set = PositionSet::new(4, 3);
    assert_eq!(set.len(), 0);
    assert!(set.positions().is_empty());
    for y in 0..3 {
        for x in 0..4 {
            assert!(!set.contains(x, y));
        }
    }
}

#[test]
fn position_set_insert_rejects_repeats_and_places_off_the_grid() {
    let mut set = PositionSet::new(4, 3);
    assert!(set.insert(1, 2));
    assert!(set.insert(3, 0));
    assert!(!set.insert(1, 2));
    assert!(!set.insert(4, 0));
    assert!(!set.insert(0, 3));
    assert_eq!(set.len(), 2);
    assert!(set.contains(1, 2));
    assert!(set.contains(3, 0));
    assert!(!set.contains(2, 1));
    assert!(!set.contains(4, 0));
    assert_eq!(set.positions(), &vec![(1, 2), (3, 0)]);
}

#[test]
fn position_set_remove_takes_out_one_place() {
    let mut set = PositionSet::new(3, 3);
    set.insert(0, 0);
    set.insert(1, 1);
    set.insert(2, 2);
    assert!(set.remove(1, 1));
    assert!(!set.remove(1, 1));
    assert!(!set.remove(2, 0));
    assert!(!set.remove(7, 7));
    assert_eq!(set.len(), 2);
    assert!(set.contains(0, 0));
    assert!(!set.contains(1, 1));
    assert!(set.contains(2, 2));
    assert_eq!(set.positions(), &vec![(0, 0), (2, 2)]);
    assert!(set.insert(1, 1));
    assert_eq!(set.positions(), &vec![(0, 0), (2, 2), (1, 1)]);
    assert_eq!(set.into_positions(), vec![(0, 0), (2, 2), (1, 1)]);
}

#[test]
fn position_set_fill_takes_the_first_free_places_row_by_row() {
    let mut set = PositionSet::new(3, 2);
    set.insert(1, 0);
    set.insert(2, 1);
    set.fill(5);
    assert_eq!(set.len(), 5);
    assert_eq!(set.positions(), &vec![(1, 0), (2, 1), (0, 0), (2, 0), (0, 1)]);
    assert!(!set.contains(1, 1));
}

#[test]
fn position_set_fill_leaves_a_large_enough_set_alone() {
    let mut set = PositionSet::new(3, 2);
    set.insert(2, 1);
    set.insert(0, 0);
    set.fill(2);
    assert_eq!(set.positions(), &vec![(2, 1), (0, 0)]);
    set.fill(0);
    assert_eq!(set.positions(), &vec![(2, 1), (0, 0)]);
}

#[test]
fn position_set_fill_can_take_the_whole_grid() {
    let mut set = PositionSet::new(2, 2);
    set.fill(4);
    assert_eq!(set.positions(), &vec![(0, 0), (1, 0), (0, 1), (1, 1)]);
}

#[test]
fn position_set_fill_stops_at_the_whole_grid() {
    let mut set = PositionSet::new(2, 2);
    set.insert(1, 1);
    set.fill(100);
    assert_eq!(set.len(), 4);
    assert_eq!(set.positions(), &vec![(1, 1), (0, 0), (1, 0), (0, 1)]);
    set.fill(usize::MAX);
    assert_eq!(set.len(), 4);
}

#[test]
fn position_set_on_an_empty_grid_holds_nothing() {
    let mut set = PositionSet::new(0, 5);
    assert!(!set.insert(0, 0));
    set.fill(0);
    assert_eq!(set.len(), 0);
    set.fill(3);
    assert_eq!(set.len(), 0);
    let mut flat = PositionSet::new(5, 0);
    flat.fill(3);
    assert_eq!(flat.len(), 0);
}

#[test]
fn lay_mines_sets_mines_and_numbers() {
    let mut board = Board::new(4, 3, 3);
    assert!(board.lay_mines(&vec![(0, 0), (1, 0), (3, 2)]));
    assert_eq!(mines_of(&board), vec![(0, 0), (1, 0), (3, 2)]);
    let numbers: Vec<Vec<u8>> = (0..3)
        .map(|y| (0..4).map(|x| board.cell(x, y).unwrap().adjacent_mine_count).collect())
        .collect();
    assert_eq!(numbers, vec![vec![1, 1, 1, 0], vec![2, 2, 2, 1], vec![0, 0, 1, 0]]);
    assert_eq!(board.get_remaining(), 9);
    assert!(!board.ended());
}

#[test]
fn lay_mines_numbers_a_square_ringed_by_mines_with_eight() {
    let mut board = Board::new(3, 3, 8);
    let ring = vec![(0, 0), (1, 0), (2, 0), (0, 1), (2, 1), (0, 2), (1, 2), (2, 2)];
    assert!(board.lay_mines(&ring));
    assert_eq!(board.cell(1, 1).unwrap().adjacent_mine_count, 8);
    assert!(!board.cell(1, 1).unwrap().is_mine);
    assert_eq!(board.cell(0, 0).unwrap().adjacent_mine_count, 2);
    assert_eq!(board.cell(1, 0).unwrap().adjacent_mine_count, 4);
}

#[test]
fn lay_mines_refuses_a_wrong_number_of_places() {
    let mut board = Board::new(4, 3, 3);
    assert!(!board.lay_mines(&vec![(0, 0), (1, 0)]));
    assert!(!board.lay_mines(&vec![(0, 0), (1, 0), (2, 0), (3, 0)]));
    assert!(mines_of(&board).is_empty());
    assert!(board.lay_mines(&vec![(0, 0), (1, 0), (2, 0)]));
}

#[test]
fn lay_mines_refuses_a_place_off_the_board() {
    let mut board = Board::new(4, 3, 2);
    assert!(!board.lay_mines(&vec![(0, 0), (4, 0)]));
    assert!(!board.lay_mines(&vec![(0, 3), (1, 1)]));
    assert!(mines_of(&board).is_empty());
    assert_eq!(board.cell(1, 1).unwrap().adjacent_mine_count, 0);
}

#[test]
fn lay_mines_refuses_a_place_named_twice() {
    let mut board = Board::new(4, 3, 3);
    assert!(!board.lay_mines(&vec![(1, 1), (2, 2), (1, 1)]));
    assert!(mines_of(&board).is_empty());
    for y in 0..3 {
        for x in 0..4 {
            assert_eq!(board.cell(x, y).unwrap().adjacent_mine_count, 0);
        }
    }
}

#[test]
fn lay_mines_refuses_a_board_that_has_its_mines() {
    let mut board = Board::new(4, 3, 1);
    assert!(board.lay_mines(&vec![(1, 1)]));
    assert!(!board.lay_mines(&vec![(2, 2)]));
    assert_eq!(mines_of(&board), vec![(1, 1)]);
    let mut played = Board::new(4, 3, 1);
    played.handle_click(0, 0).unwrap();
    let before = mines_of(&played);
    assert!(!played.lay_mines(&vec![(3, 2)]));
    assert_eq!(mines_of(&played), before);
}

#[test]
fn lay_mines_keeps_flags() {
    let mut board = Board::new(3, 3, 1);
    board.put_flag(2, 2);
    assert!(board.lay_mines(&vec![(0, 0)]));
    assert!(board.cell(2, 2).unwrap().is_flagged);
    assert_eq!(board.count_flags(), 1);
}

#[test]
fn first_click_lays_exactly_the_mines_elsewhere() {
    let mut board = Board::new(5, 5, 3);
    board.handle_click(2, 2).unwrap();
    let mines = mines_of(&board);
    assert_eq!(mines.len(), 3);
    assert!(!mines.contains(&(2, 2)));
    assert!(!board.cell(2, 2).unwrap().is_mine);
    assert!(board.cell(2, 2).unwrap().is_revealed);
    assert!(!board.is_lost());
}

#[test]
fn first_click_is_never_a_mine() {
    for trial in 0..300usize {
        let width = 1 + trial % 6;
        let height = 1 + (trial / 6) % 5;
        let mut board = Board::new(width, height, trial % 31);
        let x = trial % width;
        let y = (trial / 7) % height;
        board.handle_click(x, y).unwrap();
        let clicked = board.cell(x, y).unwrap();
        assert!(!clicked.is_mine);
        assert!(clicked.is_revealed);
        assert!(!board.is_lost());
        assert_eq!(mines_of(&board).len(), board.number_of_mines());
    }
}

#[test]
fn random_mines_are_numbered_correctly() {
    for trial in 0..50usize {
        let mut board = Board::new(8, 6, 5 + trial % 20);
        board.handle_click(trial % 8, trial % 6).unwrap();
        for y in 0..6 {
            for x in 0..8 {
                assert_eq!(board.cell(x, y).unwrap().adjacent_mine_count, around(&board, x, y));
            }
        }
    }
}

#[test]
fn crowded_board_leaves_only_the_clicked_square_safe() {
    for trial in 0..20usize {
        let mut board = Board::new(4, 4, 1000);
        assert_eq!(board.number_of_mines(), 15);
        let x = trial % 4;
        let y = (trial / 4) % 4;
        board.handle_click(x, y).unwrap();
        assert_eq!(mines_of(&board).len(), 15);
        assert!(!board.cell(x, y).unwrap().is_mine);
        assert!(board.is_won());
    }
}

#[test]
fn random_mines_vary_between_games() {
    let mut first = Board::new(30, 30, 100);
    first.handle_click(0, 0).unwrap();
    let mut second = Board::new(30, 30, 100);
    second.handle_click(0, 0).unwrap();
    assert_ne!(mines_of(&first), mines_of(&second));
}

#[test]
fn first_click_on_a_flag_lays_no_mines() {
    let mut board = Board::new(5, 5, 10);
    board.put_flag(1, 1);
    board.handle_click(1, 1).unwrap();
    assert!(mines_of(&board).is_empty());
    assert!(!board.cell(1, 1).unwrap().is_revealed);
    assert_eq!(board.get_remaining(), 15);
}

#[test]
fn first_click_off_the_board_lays_no_mines() {
    let mut board = Board::new(5, 5, 10);
    board.handle_click(5, 0).unwrap();
    board.handle_click(0, 5).unwrap();
    board.handle_click(usize::MAX, usize::MAX).unwrap();
    assert!(mines_of(&board).is_empty());
    assert_eq!(board.get_remaining(), 15);
    assert!(!board.ended());
}
