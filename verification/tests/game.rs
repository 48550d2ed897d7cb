use iron::game::{Direction, Game, Move};

#[test]
fn test_step_south_trivial() {
    let mut game = Game::new(4, 4);
    game.tiles[0] = Some(0);
    let game2 = game.clone();
    assert!(game.step(Direction::S).is_empty());
    assert_eq!(game, game2);
}

#[test]
fn test_step_east_trivial() {
    let mut game = Game::new(4, 4);
    game.tiles[3] = Some(2);
    let game2 = game.clone();
    assert!(game.step(Direction::E).is_empty());
    assert_eq!(game, game2);
}

#[test]
fn test_step_north_trivial() {
    let mut game = Game::new(4, 4);
    game.tiles[13] = Some(2);
    let game2 = game.clone();
    assert!(game.step(Direction::N).is_empty());
    assert_eq!(game, game2);
}

#[test]
fn test_step_west_trivial() {
    let mut game = Game::new(4, 4);
    game.tiles[0] = Some(2);
    let game2 = game.clone();
    assert!(game.step(Direction::W).is_empty());
    assert_eq!(game, game2);
}

#[test]
fn test_step_south_simple() {
    let mut game = Game::new(4, 4);
    game.tiles[4] = Some(0);
    game.tiles[9] = Some(1);
    assert_eq!(
        vec![Move::new(4, 0, false), Move::new(9, 1, false)],
        game.step(Direction::S)
    );

    let mut game2 = Game::new(4, 4);
    game2.tiles[0] = Some(0);
    game2.tiles[1] = Some(1);
    assert_eq!(game, game2);
}

#[test]
fn test_step_east_simple() {
    let mut game = Game::new(4, 4);
    game.tiles[4] = Some(0);
    game.tiles[9] = Some(1);
    assert_eq!(
        vec![Move::new(4, 7, false), Move::new(9, 11, false)],
        game.step(Direction::E)
    );

    let mut game2 = Game::new(4, 4);
    game2.tiles[7] = Some(0);
    game2.tiles[11] = Some(1);
    assert_eq!(game, game2);
}

#[test]
fn test_step_north_simple() {
    let mut game = Game::new(4, 4);
    game.tiles[4] = Some(0);
    game.tiles[9] = Some(1);
    assert_eq!(
        vec![Move::new(4, 12, false), Move::new(9, 13, false)],
        game.step(Direction::N)
    );

    let mut game2 = Game::new(4, 4);
    game2.tiles[12] = Some(0);
    game2.tiles[13] = Some(1);
    assert_eq!(game, game2);
}

#[test]
fn test_step_west_simple() {
    let mut game = Game::new(4, 4);
    game.tiles[4] = Some(0);
    game.tiles[9] = Some(1);
    assert_eq!(vec![Move::new(9, 8, false)], game.step(Direction::W));

    let mut game2 = Game::new(4, 4);
    game2.tiles[4] = Some(0);
    game2.tiles[8] = Some(1);
    assert_eq!(game, game2);
}

#[test]
fn test_step_merge() {
    let mut game = Game::new(4, 4);
    game.tiles[4] = Some(0);
    game.tiles[8] = Some(0);
    game.step(Direction::S);

    let mut game2 = Game::new(4, 4);
    game2.tiles[0] = Some(1);
    assert_eq!(game, game2);
}

#[test]
fn test_step_double_merge() {
    let mut game = Game::new(4, 4);
    game.tiles[0] = Some(1);
    game.tiles[4] = Some(1);
    game.tiles[8] = Some(3);
    game.tiles[12] = Some(3);
    game.step(Direction::S);

    let mut game2 = Game::new(4, 4);
    game2.tiles[0] = Some(2);
    game2.tiles[4] = Some(4);
    assert_eq!(game, game2);
}

#[test]
fn test_step_stuck() {
    let mut game = Game::new(4, 4);
    game.tiles[1] = Some(1);
    game.tiles[5] = Some(3);
    game.tiles[9] = Some(5);
    game.tiles[13] = Some(7);
    let game2 = game.clone();
    let moves = game.step(Direction::S);
    assert!(moves.is_empty());
    assert_eq!(game, game2);
}

#[test]
fn test_step_merge_in_place() {
    let mut game = Game::new(4, 4);
    game.tiles[1] = Some(1);
    game.tiles[5] = Some(1);
    game.tiles[9] = Some(2);
    game.tiles[13] = Some(2);
    game.step(Direction::S);

    let mut game2 = Game::new(4, 4);
    game2.tiles[1] = Some(2);
    game2.tiles[5] = Some(3);

    assert_eq!(game, game2);
}

#[test]
fn test_step_merge_in_place_equal() {
    let mut game = Game::new(4, 4);
    game.tiles[1] = Some(1);
    game.tiles[5] = Some(1);
    game.tiles[9] = Some(1);
    game.tiles[13] = Some(1);
    assert_eq!(
        vec![
            Move::new(5, 1, true),
            Move::new(9, 5, false),
            Move::new(13, 5, true)
        ],
        game.step(Direction::S)
    );

    let mut game2 = Game::new(4, 4);
    game2.tiles[1] = Some(2);
    game2.tiles[5] = Some(2);

    assert_eq!(game, game2);
}

#[test]
fn test_merge_far() {
    let mut game = Game::new(4, 4);
    game.tiles[4] = Some(1);
    game.tiles[5] = Some(1);
    assert_eq!(
        vec![Move::new(5, 7, false), Move::new(4, 7, true)],
        game.step(Direction::E)
    );

    let mut game2 = Game::new(4, 4);
    game2.tiles[7] = Some(2);
    assert_eq!(game, game2);
}

#[test]
fn test_nonsquare_move() {
    let mut game = Game::new(5, 3);
    game.tiles[1] = Some(1);
    assert_eq!(vec![Move::new(1, 4, false)], game.step(Direction::E));

    let mut game2 = Game::new(5, 3);
    game2.tiles[4] = Some(1);
    assert_eq!(game, game2);
}

#[test]
fn test_game_not_over() {
    let mut game = Game::new(4, 4);

    for i in 0..16 {
        assert!(!game.is_over());
        game.tiles[i] = Some(i as u8);
    }

    assert!(game.is_over());
}

#[test]
fn test_gameover() {
    let mut game = Game::new(4, 4);
    game.tiles[0] = Some(1);
    game.tiles[1] = Some(3);
    game.tiles[2] = Some(5);
    game.tiles[3] = Some(2);
    game.tiles[4] = Some(2);
    game.tiles[5] = Some(6);
    game.tiles[6] = Some(8);
    game.tiles[7] = Some(9);
    game.tiles[8] = Some(3);
    game.tiles[9] = Some(4);
    game.tiles[10] = Some(5);
    game.tiles[11] = Some(11);
    game.tiles[12] = Some(1);
    game.tiles[13] = Some(3);
    game.tiles[14] = Some(9);
    game.tiles[15] = Some(2);

    assert!(game.is_over());
}
