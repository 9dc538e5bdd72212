use game_of_life::GameOfLife;

#[test]
fn get_set_toggle() {
    let mut game = GameOfLife::new(10, 10);

    for x in 0..10 {
        for y in 0..10 {
            assert_eq!(game.get(x, y), Some(false));
        }
    }

    assert_eq!(game.get(10, 1), None);
    assert_eq!(game.get(1, 10), None);
    assert_eq!(game.get(100, 1), None);
    assert_eq!(game.get(1, 100), None);

    assert_eq!(game.set(5, 5, true), Some(false));
    assert_eq!(game.get(5, 5), Some(true));

    assert_eq!(game.set(5, 5, false), Some(true));
    assert_eq!(game.get(5, 5), Some(false));

    assert_eq!(game.toggle(3, 3), Some(true));
    assert_eq!(game.toggle(3, 3), Some(false));
}

#[test]
fn accessors() {
    let game = GameOfLife::new(7, 4);
    assert_eq!(game.width(), 7);
    assert_eq!(game.height(), 4);
    assert!(game.in_bounds(6, 3));
    assert!(!game.in_bounds(7, 3));
    assert!(!game.in_bounds(6, 4));
}

#[test]
fn empty_grid() {
    let mut game = GameOfLife::new(0, 0);
    assert_eq!(game.get(0, 0), None);
    assert_eq!(game.set(0, 0, true), None);
    assert_eq!(game.toggle(0, 0), None);
    game.step();

    let mut thin = GameOfLife::new(3, 0);
    assert_eq!(thin.width(), 3);
    assert_eq!(thin.get(0, 0), None);
    thin.step();
}

#[test]
fn out_of_bounds_leaves_grid_unmodified() {
    let mut game = GameOfLife::new(3, 3);
    game.set(1, 1, true);

    assert_eq!(game.get(3, 0), None);
    assert_eq!(game.set(3, 0, true), None);
    assert_eq!(game.toggle(0, 3), None);
    assert_eq!(game.set(usize::MAX, usize::MAX, true), None);

    for x in 0..3 {
        for y in 0..3 {
            let expected = x == 1 && y == 1;
            assert_eq!(game.get(x, y), Some(expected));
        }
    }
}

#[test]
fn toggle_twice_restores() {
    let mut game = GameOfLife::new(4, 4);
    game.set(2, 1, true);

    assert_eq!(game.toggle(2, 1), Some(false));
    assert_eq!(game.toggle(2, 1), Some(true));
    assert_eq!(game.get(2, 1), Some(true));

    assert_eq!(game.toggle(0, 0), Some(true));
    assert_eq!(game.toggle(0, 0), Some(false));
    assert_eq!(game.get(0, 0), Some(false));
}

#[test]
fn repeated_reads_agree() {
    let mut game = GameOfLife::new(5, 5);
    game.set(2, 2, true);

    assert_eq!(game.get(2, 2), game.get(2, 2));
    assert_eq!(game.get(4, 0), game.get(4, 0));
    assert_eq!(game.get(5, 5), game.get(5, 5));
    assert_eq!(game.in_bounds(2, 2), game.in_bounds(2, 2));
    assert_eq!(game.in_bounds(9, 9), game.in_bounds(9, 9));
}
