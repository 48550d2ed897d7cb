use iron::game::{Direction, Game, Move, MAX_VALUE};

fn filled(game: &Game) -> usize {
    game.tiles.iter().filter(|t| t.is_some()).count()
}

#[test]
fn test_two_tiles_merge_south() {
    // A 4x4 grid with generation-1 tiles at indices 4 and 8: stepping south
    // compacts both to the foot of the column and merges them into a single
    // generation-2 tile at index 0, with a two-move trace whose one merge
    // lands on index 0.
    let mut game = Game::new(4, 4);
    game.tiles[4] = Some(1);
    game.tiles[8] = Some(1);
    let moves = game.step(Direction::S);
    assert_eq!(vec![Move::new(4, 0, false), Move::new(8, 0, true)], moves);
    assert_eq!(2, moves.len());
    assert_eq!(1, moves.iter().filter(|m| m.merge).count());
    assert_eq!(0, moves.iter().find(|m| m.merge).unwrap().dst);

    let mut game2 = Game::new(4, 4);
    game2.tiles[0] = Some(2);
    assert_eq!(game, game2);
}

#[test]
fn test_conservation_counts() {
    // Tiles are never created: the count drops by exactly the number of
    // merge moves in the trace.
    let mut game = Game::new(4, 4);
    game.tiles[0] = Some(1);
    game.tiles[4] = Some(1);
    game.tiles[8] = Some(3);
    game.tiles[12] = Some(3);
    game.tiles[3] = Some(2);
    let before = filled(&game);
    let moves = game.step(Direction::S);
    let merges = moves.iter().filter(|m| m.merge).count();
    assert_eq!(before, filled(&game) + merges);
    assert_eq!(2, merges);
}

#[test]
fn test_single_merge_per_destination() {
    // Four equal tiles in one column merge pairwise, never three into one:
    // no destination appears in two merge moves.
    let mut game = Game::new(4, 4);
    game.tiles[2] = Some(5);
    game.tiles[6] = Some(5);
    game.tiles[10] = Some(5);
    game.tiles[14] = Some(5);
    let moves = game.step(Direction::S);
    let merge_dsts: Vec<usize> = moves.iter().filter(|m| m.merge).map(|m| m.dst).collect();
    for (a, da) in merge_dsts.iter().enumerate() {
        for (b, db) in merge_dsts.iter().enumerate() {
            if a != b {
                assert_ne!(da, db);
            }
        }
    }
    let mut game2 = Game::new(4, 4);
    game2.tiles[2] = Some(6);
    game2.tiles[6] = Some(6);
    assert_eq!(game, game2);
}

#[test]
fn test_lone_tile_east_then_west() {
    // A lone tile slides to the east edge of its row, then back to the west
    // edge: traversal reversal brings it to the start of the same row.
    let mut game = Game::new(4, 4);
    game.tiles[9] = Some(3);
    let moves = game.step(Direction::E);
    assert_eq!(vec![Move::new(9, 11, false)], moves);
    let moves = game.step(Direction::W);
    assert_eq!(vec![Move::new(11, 8, false)], moves);

    let mut game2 = Game::new(4, 4);
    game2.tiles[8] = Some(3);
    assert_eq!(game, game2);
}

#[test]
fn test_lone_tile_north_then_south() {
    // The same reversal along a column: the tile ends at the foot of its
    // column.
    let mut game = Game::new(4, 4);
    game.tiles[6] = Some(3);
    game.step(Direction::N);
    game.step(Direction::S);

    let mut game2 = Game::new(4, 4);
    game2.tiles[2] = Some(3);
    assert_eq!(game, game2);
}

#[test]
fn test_settled_grid_every_direction() {
    // A full grid of pairwise distinct values is compacted in every
    // direction with no equal neighbors: every step reports nothing and
    // changes nothing.
    let mut game = Game::new(3, 3);
    for i in 0..9 {
        game.tiles[i] = Some(i as u8);
    }
    let game2 = game.clone();
    for dir in [Direction::E, Direction::N, Direction::W, Direction::S] {
        assert!(game.step(dir).is_empty());
        assert_eq!(game, game2);
    }
}

#[test]
fn test_max_generation_does_not_merge() {
    // Two tiles of the largest generation compact but refuse to merge, so
    // the generation counter cannot overflow.
    let mut game = Game::new(4, 4);
    game.tiles[0] = Some(MAX_VALUE);
    game.tiles[8] = Some(MAX_VALUE);
    let moves = game.step(Direction::S);
    assert_eq!(vec![Move::new(8, 4, false)], moves);

    let mut game2 = Game::new(4, 4);
    game2.tiles[0] = Some(MAX_VALUE);
    game2.tiles[4] = Some(MAX_VALUE);
    assert_eq!(game, game2);
}

#[test]
fn test_full_grid_with_pair_not_over() {
    // A full grid is not terminal while any two row or column neighbors are
    // equal.
    let mut game = Game::new(2, 2);
    game.tiles[0] = Some(1);
    game.tiles[1] = Some(2);
    game.tiles[2] = Some(1);
    game.tiles[3] = Some(3);
    assert!(!game.is_over()); // column pair: indices 0 and 2
    game.tiles[2] = Some(4);
    assert!(game.is_over());
    game.tiles[3] = Some(4);
    assert!(!game.is_over()); // row pair: indices 2 and 3
}

#[test]
fn test_terminal_grid_is_stuck() {
    // A terminal grid cannot be moved in any direction.
    let mut game = Game::new(3, 3);
    let values = [1, 2, 3, 4, 5, 6, 7, 8, 9];
    for (i, v) in values.iter().enumerate() {
        game.tiles[i] = Some(*v);
    }
    assert!(game.is_over());
    let game2 = game.clone();
    for dir in [Direction::E, Direction::N, Direction::W, Direction::S] {
        assert!(game.step(dir).is_empty());
        assert_eq!(game, game2);
    }
}

#[test]
fn test_zero_area_grid() {
    // A zero-area grid is legal and trivially terminal; a step does nothing.
    let mut game = Game::new(0, 5);
    assert!(game.is_over());
    assert!(game.step(Direction::E).is_empty());
    assert_eq!(0, game.tiles.len());
}

#[test]
fn test_empty_grid_step() {
    let mut game = Game::new(4, 4);
    let game2 = game.clone();
    assert!(game.step(Direction::N).is_empty());
    assert_eq!(game, game2);
    assert!(!game.is_over());
}

#[test]
fn test_add_random_tile_fills_the_empty_cell() {
    // With exactly one empty cell left, the spawner must fill that cell
    // with generation 1 or 2.
    let mut game = Game::new(4, 4);
    for i in 0..15 {
        game.tiles[i] = Some(7);
    }
    assert_eq!(None, game.tiles[15]);
    game.add_random_tile();
    let v = game.tiles[15].expect("the empty cell must be filled");
    assert!(v == 1 || v == 2);
    assert_eq!(16, filled(&game));
}

#[test]
fn test_random_tile_reports_an_empty_cell() {
    let mut game = Game::new(3, 3);
    game.tiles[0] = Some(1);
    game.tiles[4] = Some(2);
    for _ in 0..32 {
        let (index, value) = game.random_tile();
        assert!(index < 9);
        assert!(game.tiles[index].is_none());
        assert!(value == 1 || value == 2);
    }
}

#[test]
fn test_all_tiles_coordinates() {
    let mut game = Game::new(3, 2);
    game.tiles[4] = Some(9);
    let ts = game.all_tiles();
    assert_eq!(6, ts.len());
    assert_eq!(((0, 0), None), ts[0]);
    assert_eq!(((2, 0), None), ts[2]);
    assert_eq!(((1, 1), Some(9)), ts[4]);
    assert_eq!(((2, 1), None), ts[5]);
}

#[test]
fn test_width_height() {
    let game = Game::new(5, 3);
    assert_eq!(5, game.width());
    assert_eq!(3, game.height());
    assert_eq!(15, game.tiles.len());
}
