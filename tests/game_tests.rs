use dots_and_boxes::game::{Game, Player};
use dots_and_boxes::tile::{Position, Tile, TileConfig, TilePath, Direction};

fn wall_id(index: (usize, usize), pos: Position) -> (bool, usize, usize) {
    match pos {
        Position::Top => (true, index.0, index.1),
        Position::Bottom => (true, index.0 + 1, index.1),
        Position::Left => (false, index.0, index.1),
        Position::Right => (false, index.0, index.1 + 1),
    }
}

fn distinct_undrawn(game: &Game) -> usize {
    let mut walls: Vec<(bool, usize, usize)> = game
        .available_moves()
        .into_iter()
        .map(|(i, p)| wall_id(i, p))
        .collect();
    walls.sort();
    walls.dedup();
    walls.len()
}

fn all_walls() -> Vec<((usize, usize), Position)> {
    let mut walls = Vec::new();
    for r in 0..3 {
        for c in 0..3 {
            walls.push(((r, c), Position::Top));
            walls.push(((r, c), Position::Left));
            if r == 2 {
                walls.push(((r, c), Position::Bottom));
            }
            if c == 2 {
                walls.push(((r, c), Position::Right));
            }
        }
    }
    walls
}

#[test]
fn one_wall_per_play() {
    let mut game = Game::new();
    assert_eq!(distinct_undrawn(&game), 24);
    assert_eq!(game.available_moves().len(), 36);
    // interior wall: seen by two boxes
    game.play((1, 1), Position::Top);
    assert_eq!(distinct_undrawn(&game), 23);
    assert_eq!(game.available_moves().len(), 34);
    // boundary wall: seen by one box
    game.play((0, 0), Position::Left);
    assert_eq!(distinct_undrawn(&game), 22);
    assert_eq!(game.available_moves().len(), 33);
}

#[test]
fn all_walls_end_the_game_after_24_plays() {
    let mut walls = all_walls();
    assert_eq!(walls.len(), 24);
    for order in 0..3 {
        if order == 1 {
            walls.reverse();
        }
        if order == 2 {
            walls.rotate_left(7);
        }
        let mut game = Game::new();
        for (n, &(index, pos)) in walls.iter().enumerate() {
            assert!(!game.ended());
            game.play(index, pos);
            assert_eq!(game.ended(), n == 23);
        }
        assert!(game.available_moves().is_empty());
    }
}

#[test]
fn captures_go_to_the_mover() {
    let mut game = Game::new();
    game.play((0, 0), Position::Top);
    game.play((0, 0), Position::Left);
    game.play((0, 0), Position::Bottom);
    assert_eq!(game.player_to_play(), Player::Even);
    game.play((0, 1), Position::Left);
    assert_eq!(game.squares[0], Some(Player::Even));
    assert_eq!(game.squares[1], None);
    assert_eq!(game.player_to_play(), Player::Odd);
}

#[test]
fn player_opponent() {
    assert_eq!(Player::Odd.opponent(), Player::Even);
    assert_eq!(Player::Even.opponent(), Player::Odd);
}

#[test]
fn tile_queries() {
    let mut tile = Tile::new((0, 1));
    assert_eq!(tile.at(Position::Top), None);
    assert_eq!(tile.at(Position::Bottom), Some((1, 1)));
    assert_eq!(tile.at(Position::Left), Some((0, 0)));
    assert_eq!(tile.at_unchecked(Position::Right), (0, 2));
    assert!(tile.is_in_edge());
    assert!(!tile.can_be_chained());
    tile.mark(Position::Bottom);
    tile.mark(Position::Left);
    assert!(tile.is_path());
    assert_eq!(tile.openings(), vec![Position::Top, Position::Right]);
    assert!(tile.is_edge_path_chain_end());
    assert_eq!(tile.get_edge_path_chain_pos(), Position::Right);
    assert!(tile.open_to_outside());
    let right = Tile::new((0, 2));
    let below = Tile::new((1, 1));
    let far = Tile::new((2, 2));
    assert!(tile.adjacent_to(&right));
    assert!(!tile.adjacent_to(&far));
    assert_eq!(tile.relative_position(&right), Some(Position::Right));
    assert_eq!(tile.relative_position(&below), Some(Position::Bottom));
    assert_eq!(tile.relative_position(&far), None);
    assert!(tile.connected_to(&right));
    assert!(!tile.connected_to(&below));
    assert_eq!(Position::Left.invert(), Position::Right);
    assert_eq!(Position::Top.invert(), Position::Bottom);
}

#[test]
fn tile_config_counts() {
    let mut config = TileConfig::new();
    assert_eq!(config.open_count(), 4);
    config.mark_top();
    config.mark_right();
    assert_eq!(config.open_count(), 2);
    assert!(!config.is_open(Position::Top));
    assert!(config.is_open(Position::Left));
    assert_eq!(TileConfig::of(true, true, true, false).open_count(), 1);
    let path = TilePath::new(Direction::Up, Direction::Left);
    assert_eq!(path.without(Direction::Up), Some(Direction::Left));
    assert_eq!(path.without(Direction::Left), Some(Direction::Up));
    assert_eq!(path.without(Direction::Down), None);
}
