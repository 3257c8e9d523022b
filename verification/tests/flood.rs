use minesweeper::board::Board;

fn revealed(board: &Board) -> Vec<String> {
    (0..board.y())
        .map(|y| {
            (0..board.x())
                .map(|x| if board.cell(x, y).unwrap().is_revealed { '#' } else { '.' })
                .collect()
        })
        .collect()
}

fn rows(picture: &[&str]) -> Vec<String> {
    picture.iter().map(|row| row.to_string()).collect()
}

#[test]
fn numbered_square_opens_alone() {
    let mut board = Board::new(3, 3, 1);
    assert!(board.lay_mines(&vec![(1, 1)]));
    board.handle_click(0, 0).unwrap();
    assert_eq!(revealed(&board), rows(&["#..", "...", "..."]));
    assert_eq!(board.get_remaining(), 7);
    assert!(!board.ended());
}

#[test]
fn flood_opens_the_zero_region_and_its_border_and_no_more() {
    let mut board = Board::new(5, 5, 5);
    assert!(board.lay_mines(&vec![(2, 0), (2, 1), (2, 2), (2, 3), (2, 4)]));
    board.handle_click(0, 0).unwrap();
    assert_eq!(revealed(&board), rows(&["##...", "##...", "##...", "##...", "##..."]));
    assert_eq!(board.get_remaining(), 10);
    assert!(!board.ended());
    board.handle_click(4, 2).unwrap();
    assert_eq!(board.get_remaining(), 0);
    assert!(board.is_won());
    assert_eq!(revealed(&board), rows(&["#####", "#####", "#####", "#####", "#####"]));
}

#[test]
fn flood_from_a_border_square_does_not_spread() {
    let mut board = Board::new(5, 5, 5);
    assert!(board.lay_mines(&vec![(2, 0), (2, 1), (2, 2), (2, 3), (2, 4)]));
    board.handle_click(1, 2).unwrap();
    assert_eq!(revealed(&board), rows(&[".....", ".....", ".#...", ".....", "....."]));
    assert_eq!(board.get_remaining(), 19);
}

#[test]
fn flood_goes_round_corners() {
    let mut board = Board::new(6, 5, 4);
    assert!(board.lay_mines(&vec![(0, 2), (1, 2), (2, 2), (0, 4)]));
    board.handle_click(0, 0).unwrap();
    assert_eq!(
        revealed(&board),
        rows(&["######", "######", "...###", ".#####", ".#####"])
    );
    assert_eq!(board.get_remaining(), 1);
    assert!(!board.ended());
    board.handle_click(0, 3).unwrap();
    assert!(board.is_won());
}

#[test]
fn flood_stops_at_a_wall_of_numbers() {
    let mut board = Board::new(7, 3, 3);
    assert!(board.lay_mines(&vec![(3, 0), (3, 1), (3, 2)]));
    board.handle_click(0, 1).unwrap();
    assert_eq!(revealed(&board), rows(&["###....", "###....", "###...."]));
    assert_eq!(board.get_remaining(), 9);
    board.handle_click(6, 1).unwrap();
    assert!(board.is_won());
}

#[test]
fn flood_reaches_diagonal_neighbours() {
    let mut board = Board::new(4, 4, 2);
    assert!(board.lay_mines(&vec![(3, 0), (0, 3)]));
    board.handle_click(0, 0).unwrap();
    assert_eq!(revealed(&board), rows(&["####", "####", "####", "####"]));
    assert!(board.is_won());
}

#[test]
fn flood_leaves_flagged_squares_covered() {
    let mut board = Board::new(4, 1, 0);
    assert!(board.lay_mines(&vec![]));
    board.put_flag(2, 0);
    board.handle_click(0, 0).unwrap();
    assert_eq!(revealed(&board), rows(&["##.."]));
    assert_eq!(board.get_remaining(), 2);
    assert!(board.cell(2, 0).unwrap().is_flagged);
    assert!(!board.ended());
}

#[test]
fn flood_passes_beside_a_flag() {
    let mut board = Board::new(4, 2, 0);
    assert!(board.lay_mines(&vec![]));
    board.put_flag(2, 0);
    board.handle_click(0, 0).unwrap();
    assert_eq!(revealed(&board), rows(&["##.#", "####"]));
    assert_eq!(board.get_remaining(), 1);
    assert!(!board.ended());
    board.put_flag(2, 0);
    board.handle_click(2, 0).unwrap();
    assert!(board.is_won());
}

#[test]
fn flood_runs_again_from_a_square_freed_of_its_flag() {
    let mut board = Board::new(5, 1, 0);
    assert!(board.lay_mines(&vec![]));
    board.put_flag(1, 0);
    board.handle_click(0, 0).unwrap();
    assert_eq!(revealed(&board), rows(&["#...."]));
    board.put_flag(1, 0);
    board.handle_click(1, 0).unwrap();
    assert_eq!(revealed(&board), rows(&["#####"]));
    assert!(board.is_won());
}

#[test]
fn flood_skips_squares_uncovered_before() {
    let mut board = Board::new(5, 1, 1);
    assert!(board.lay_mines(&vec![(4, 0)]));
    board.put_flag(1, 0);
    board.handle_click(2, 0).unwrap();
    assert_eq!(revealed(&board), rows(&["..##."]));
    assert_eq!(board.get_remaining(), 2);
    board.put_flag(1, 0);
    board.handle_click(0, 0).unwrap();
    assert_eq!(board.get_remaining(), 0);
    assert!(board.is_won());
}

#[test]
fn flood_does_not_pass_a_square_uncovered_while_flags_held_it_in() {
    let mut board = Board::new(7, 1, 1);
    assert!(board.lay_mines(&vec![(6, 0)]));
    board.put_flag(1, 0);
    board.put_flag(3, 0);
    board.handle_click(2, 0).unwrap();
    assert_eq!(revealed(&board), rows(&["..#...."]));
    board.put_flag(1, 0);
    board.put_flag(3, 0);
    assert_eq!(board.count_flags(), 0);
    board.handle_click(0, 0).unwrap();
    assert_eq!(revealed(&board), rows(&["###...."]));
    assert_eq!(board.get_remaining(), 3);
    board.handle_click(3, 0).unwrap();
    assert_eq!(board.get_remaining(), 0);
    assert!(board.is_won());
}

#[test]
fn flood_opens_zero_region_and_ring_on_a_board_without_flags() {
    let mut board = Board::new(6, 4, 3);
    assert!(board.lay_mines(&vec![(5, 0), (0, 3), (5, 3)]));
    board.handle_click(2, 1).unwrap();
    assert_eq!(revealed(&board), rows(&["#####.", "#####.", "#####.", ".####."]));
    assert_eq!(board.get_remaining(), 2);
    assert!(!board.ended());
    for y in 0..4 {
        for x in 0..6 {
            let c = board.cell(x, y).unwrap();
            assert!(!(c.is_revealed && c.is_mine));
        }
    }
}

#[test]
fn flood_never_uncovers_a_mine() {
    for trial in 0..80usize {
        let mut board = Board::new(9, 7, 4 + trial % 15);
        board.handle_click(trial % 9, trial % 7).unwrap();
        for y in 0..7 {
            for x in 0..9 {
                let c = board.cell(x, y).unwrap();
                if !board.ended() {
                    assert!(!(c.is_revealed && c.is_mine));
                }
            }
        }
        assert!(!board.is_lost());
    }
}

#[test]
fn flood_region_is_closed_in_random_games() {
    for trial in 0..80usize {
        let mut board = Board::new(9, 7, 4 + trial % 10);
        board.handle_click(trial % 9, trial % 7).unwrap();
        if board.ended() {
            continue;
        }
        for y in 0..7usize {
            for x in 0..9usize {
                let c = board.cell(x, y).unwrap();
                if c.is_revealed && c.adjacent_mine_count == 0 {
                    for ny in y.saturating_sub(1)..=(y + 1).min(6) {
                        for nx in x.saturating_sub(1)..=(x + 1).min(8) {
                            assert!(board.cell(nx, ny).unwrap().is_revealed);
                        }
                    }
                }
                if c.is_revealed && (x, y) != (trial % 9, trial % 7) {
                    let mut beside_zero = false;
                    for ny in y.saturating_sub(1)..=(y + 1).min(6) {
                        for nx in x.saturating_sub(1)..=(x + 1).min(8) {
                            let n = board.cell(nx, ny).unwrap();
                            if (nx, ny) != (x, y) && n.is_revealed && n.adjacent_mine_count == 0 {
                                beside_zero = true;
                            }
                        }
                    }
                    assert!(beside_zero);
                }
            }
        }
    }
}

#[test]
fn flood_covers_a_large_empty_board() {
    let mut board = Board::new(300, 300, 0);
    board.handle_click(150, 150).unwrap();
    assert_eq!(board.get_remaining(), 0);
    assert!(board.is_won());
    assert!(board.cell(0, 0).unwrap().is_revealed);
    assert!(board.cell(299, 299).unwrap().is_revealed);
}
