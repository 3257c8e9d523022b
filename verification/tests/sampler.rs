use minesweeper::sampler::MineSampler;

#[test]
fn sampler_takes_new_places_in_the_order_of_the_draws() {
    let mut sampler = MineSampler::new(3, 2, 2, (1, 1));
    assert!(sampler.needs_draw());
    assert!(sampler.offer(2, 0));
    assert!(sampler.needs_draw());
    assert!(sampler.offer(0, 1));
    assert!(!sampler.needs_draw());
    assert_eq!(sampler.finish(), vec![(2, 0), (0, 1)]);
}

#[test]
fn sampler_rejects_a_place_drawn_twice() {
    let mut sampler = MineSampler::new(3, 2, 2, (1, 1));
    assert!(sampler.offer(2, 0));
    assert!(!sampler.offer(2, 0));
    assert!(sampler.needs_draw());
    assert!(sampler.offer(0, 0));
    assert_eq!(sampler.finish(), vec![(2, 0), (0, 0)]);
}

#[test]
fn sampler_rejects_the_square_that_must_stay_safe() {
    let mut sampler = MineSampler::new(3, 2, 1, (1, 1));
    assert!(!sampler.offer(1, 1));
    assert!(sampler.needs_draw());
    assert!(sampler.offer(1, 0));
    assert_eq!(sampler.finish(), vec![(1, 0)]);
}

#[test]
fn sampler_rejects_a_place_off_the_grid() {
    let mut sampler = MineSampler::new(3, 2, 1, (0, 0));
    assert!(!sampler.offer(3, 0));
    assert!(!sampler.offer(0, 2));
    assert!(!sampler.offer(usize::MAX, usize::MAX));
    assert!(sampler.needs_draw());
    assert!(sampler.offer(2, 1));
    assert_eq!(sampler.finish(), vec![(2, 1)]);
}

#[test]
fn sampler_ignores_offers_once_it_has_enough() {
    let mut sampler = MineSampler::new(3, 2, 1, (0, 0));
    assert!(sampler.offer(1, 0));
    assert!(!sampler.needs_draw());
    assert!(!sampler.offer(2, 0));
    assert!(!sampler.offer(2, 1));
    assert_eq!(sampler.finish(), vec![(1, 0)]);
}

#[test]
fn sampler_for_no_mines_asks_for_no_draw() {
    let sampler = MineSampler::new(3, 2, 0, (2, 1));
    assert!(!sampler.needs_draw());
    assert_eq!(sampler.finish(), vec![]);
    let sampler = MineSampler::new(1, 1, 0, (0, 0));
    assert!(!sampler.needs_draw());
    assert_eq!(sampler.finish(), vec![]);
}

#[test]
fn sampler_keeps_asking_however_many_draws_are_rejected() {
    let mut sampler = MineSampler::new(3, 1, 1, (0, 0));
    for _ in 0..192 {
        assert!(sampler.needs_draw());
        assert!(!sampler.offer(0, 0));
    }
    assert!(sampler.needs_draw());
    assert!(sampler.offer(2, 0));
    assert!(!sampler.needs_draw());
    assert_eq!(sampler.finish(), vec![(2, 0)]);
}

#[test]
fn sampler_takes_the_first_different_places_drawn() {
    let mut sampler = MineSampler::new(2, 2, 3, (0, 0));
    for _ in 0..100_000 {
        assert!(!sampler.offer(0, 0));
    }
    assert!(sampler.offer(1, 1));
    for _ in 0..100_000 {
        assert!(!sampler.offer(1, 1));
        assert!(!sampler.offer(2, 2));
    }
    assert!(sampler.needs_draw());
    assert!(sampler.offer(0, 1));
    assert!(sampler.offer(1, 0));
    assert!(!sampler.needs_draw());
    assert_eq!(sampler.finish(), vec![(1, 1), (0, 1), (1, 0)]);
}

#[test]
fn sampler_finished_early_makes_up_the_number_row_by_row() {
    let mut sampler = MineSampler::new(2, 2, 3, (0, 0));
    assert!(sampler.offer(1, 1));
    assert!(!sampler.offer(1, 1));
    assert!(sampler.needs_draw());
    assert_eq!(sampler.finish(), vec![(1, 1), (1, 0), (0, 1)]);
}

#[test]
fn sampler_makes_up_the_number_with_the_first_free_squares() {
    let mut sampler = MineSampler::new(3, 3, 5, (1, 0));
    assert!(sampler.offer(2, 2));
    assert!(sampler.offer(0, 1));
    assert_eq!(sampler.finish(), vec![(2, 2), (0, 1), (0, 0), (2, 0), (1, 1)]);
}

#[test]
fn sampler_without_any_draw_takes_the_first_free_squares() {
    let sampler = MineSampler::new(2, 2, 3, (1, 0));
    assert_eq!(sampler.finish(), vec![(0, 0), (0, 1), (1, 1)]);
    let sampler = MineSampler::new(3, 1, 1, (0, 0));
    assert_eq!(sampler.finish(), vec![(1, 0)]);
}

#[test]
fn sampler_can_choose_every_square_but_one() {
    let mut sampler = MineSampler::new(2, 2, 3, (1, 1));
    assert!(sampler.offer(1, 0));
    assert!(sampler.offer(0, 1));
    assert!(sampler.offer(0, 0));
    assert!(!sampler.needs_draw());
    assert_eq!(sampler.finish(), vec![(1, 0), (0, 1), (0, 0)]);
}
