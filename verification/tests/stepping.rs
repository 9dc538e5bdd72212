use game_of_life::GameOfLife;
use game_of_life::Update;

fn drain(game: &mut GameOfLife) -> Vec<Update> {
    let mut updates = game.step_iter();
    let mut changed = Vec::new();
    while let Some(update) = updates.next(game) {
        changed.push(update);
    }
    changed
}

#[test]
fn block() {
    let mut game = GameOfLife::new(4, 4);

    for start in [(1, 1), (1, 2), (2, 1), (2, 2)] {
        game.set(start.0, start.1, true);
    }

    let updates = drain(&mut game);
    assert_eq!(updates.len(), 0);

    let updates = drain(&mut game);
    assert_eq!(updates.len(), 0);
}

#[test]
fn spinner() {
    let mut game = GameOfLife::new(5, 5);

    for start in [(2, 1), (2, 2), (2, 3)] {
        game.set(start.0, start.1, true);
    }

    let updates = drain(&mut game);

    assert_eq!(updates.len(), 4);
    assert!(updates.contains(&Update { x: 2, y: 1, alive: false }));
    assert!(updates.contains(&Update { x: 2, y: 3, alive: false }));
    assert!(updates.contains(&Update { x: 1, y: 2, alive: true }));
    assert!(updates.contains(&Update { x: 3, y: 2, alive: true }));
}

#[test]
fn spinner_oscillates_back() {
    let mut game = GameOfLife::new(5, 5);

    for start in [(2, 1), (2, 2), (2, 3)] {
        game.set(start.0, start.1, true);
    }

    game.step();
    game.step();

    for x in 0..5 {
        for y in 0..5 {
            let expected = x == 2 && (1..=3).contains(&y);
            assert_eq!(game.get(x, y), Some(expected));
        }
    }
}

#[test]
fn lone_corner_cell_dies() {
    let mut game = GameOfLife::new(3, 3);
    game.set(0, 0, true);

    let updates = drain(&mut game);
    assert_eq!(updates, vec![Update { x: 0, y: 0, alive: false }]);
    assert_eq!(game.get(0, 0), Some(false));
}

#[test]
fn corner_block_is_still_life() {
    let mut game = GameOfLife::new(3, 3);
    for start in [(0, 0), (0, 1), (1, 0), (1, 1)] {
        game.set(start.0, start.1, true);
    }

    let updates = drain(&mut game);
    assert_eq!(updates.len(), 0);
}

#[test]
fn edges_do_not_wrap() {
    let mut game = GameOfLife::new(3, 3);
    for start in [(0, 0), (0, 1), (0, 2)] {
        game.set(start.0, start.1, true);
    }

    game.step();

    // The left-column line births its horizontal neighbor and keeps its
    // middle; the right column sees no neighbors across the edge.
    assert_eq!(game.get(1, 1), Some(true));
    assert_eq!(game.get(0, 1), Some(true));
    assert_eq!(game.get(2, 0), Some(false));
    assert_eq!(game.get(2, 1), Some(false));
    assert_eq!(game.get(2, 2), Some(false));
}

#[test]
fn drain_matches_step() {
    let seed = [(1, 1), (2, 1), (3, 1), (3, 2), (2, 3), (4, 4), (0, 2)];

    let mut stepped = GameOfLife::new(6, 6);
    let mut drained = GameOfLife::new(6, 6);
    for start in seed {
        stepped.set(start.0, start.1, true);
        drained.set(start.0, start.1, true);
    }

    stepped.step();
    drain(&mut drained);

    for x in 0..6 {
        for y in 0..6 {
            assert_eq!(stepped.get(x, y), drained.get(x, y));
        }
    }
}

#[test]
fn exhausted_pass_stays_exhausted() {
    let mut game = GameOfLife::new(4, 4);
    for start in [(1, 1), (1, 2), (2, 1)] {
        game.set(start.0, start.1, true);
    }

    let mut updates = game.step_iter();
    while updates.next(&mut game).is_some() {}
    let after_first_pass: Vec<Option<bool>> = (0..4)
        .flat_map(|x| (0..4).map(move |y| (x, y)))
        .map(|(x, y)| game.get(x, y))
        .collect();

    assert!(updates.next(&mut game).is_none());
    assert!(updates.next(&mut game).is_none());
    let after_extra_calls: Vec<Option<bool>> = (0..4)
        .flat_map(|x| (0..4).map(move |y| (x, y)))
        .map(|(x, y)| game.get(x, y))
        .collect();

    assert_eq!(after_first_pass, after_extra_calls);
}
