use dots_and_boxes::board::Board;
use dots_and_boxes::game::{Game, Player};
use dots_and_boxes::tile::{
    Position, Tile, BOTTOM_RIGHT, CENTER, MIDDLE_LEFT, TOP_CENTER, TOP_LEFT, TOP_RIGHT,
};

fn chain_board() -> Board {
    let mut board = Board::new();
    board.mark((0, 0), Position::Top);
    board.mark((0, 0), Position::Bottom);
    board.mark((0, 1), Position::Bottom);
    board.mark((0, 1), Position::Right);
    board.mark((0, 2), Position::Right);
    board.mark((1, 0), Position::Left);
    board.mark((1, 1), Position::Bottom);
    board.mark((1, 2), Position::Bottom);
    board.mark((1, 2), Position::Right);
    board.mark((2, 0), Position::Right);
    board.mark((2, 0), Position::Left);
    board.mark((2, 2), Position::Bottom);
    board
}

fn loop_board() -> Board {
    let mut board = Board::new();
    board.mark(TOP_LEFT, Position::Top);
    board.mark(TOP_LEFT, Position::Left);
    board.mark(TOP_CENTER, Position::Top);
    board.mark(TOP_CENTER, Position::Right);
    board.mark(MIDDLE_LEFT, Position::Left);
    board.mark(MIDDLE_LEFT, Position::Bottom);
    board.mark(CENTER, Position::Bottom);
    board.mark(CENTER, Position::Right);
    // clutter
    board.mark(BOTTOM_RIGHT, Position::Right);
    board.mark(BOTTOM_RIGHT, Position::Bottom);
    board
}

fn indices(tiles: &[Tile]) -> Vec<(usize, usize)> {
    tiles.iter().map(|t| t.index()).collect()
}

#[test]
fn print() {
    println!("{:?}", Board::new());
    println!();
    println!();

    let mut board = Board::new();
    board.mark((0, 0), Position::Top);
    board.mark((0, 0), Position::Left);
    board.mark((0, 0), Position::Right);
    board.mark((0, 0), Position::Bottom);
    println!("{:?}", board);
    println!();
    println!();
    assert!(board.acquisitions()[0][0]);
    assert!(!board.acquisitions()[0][1]);

    board.mark((0, 1), Position::Right);
    board.mark((0, 2), Position::Top);
    board.mark((0, 2), Position::Right);
    board.mark((0, 2), Position::Bottom);
    println!("{:?}", board);
    let acquired = board.acquisitions();
    assert!(acquired[0][0]);
    assert!(acquired[0][2]);
    assert!(!acquired[0][1]);
    assert!(!acquired[1][2]);
}

#[test]
fn chain() {
    let mut board = chain_board();
    println!("{:?}", board);
    println!();
    println!();

    let chains = board.get_chains();
    println!("Chains = {}", chains.len());
    assert_eq!(chains.len(), 3);
    assert_eq!(indices(&chains[0].tiles), vec![(0, 0), (0, 1)]);
    assert_eq!(
        indices(&chains[1].tiles),
        vec![(0, 2), (1, 2), (1, 1), (1, 0), (2, 0)]
    );
    assert_eq!(indices(&chains[2].tiles), vec![(2, 1), (2, 2)]);
    assert_eq!(chains[0].first_end.1, Some(Position::Left));
    assert_eq!(chains[0].second_end.1, Some(Position::Top));
    assert_eq!(chains[1].first_end.1, Some(Position::Top));
    assert_eq!(chains[1].second_end.1, Some(Position::Bottom));
    assert!(!chains[0].is_long());
    assert!(chains[1].is_long());
    assert!(!chains[1].is_closed());
    assert!(!chains[1].is_half_open());
}

#[test]
fn loops() {
    let mut board = loop_board();
    println!("{:?}", board);
    println!();
    println!();

    let loops = board.get_loops();
    println!("Loops = {}", loops.len());
    assert_eq!(loops.len(), 1);
    assert_eq!(
        indices(&loops[0].tiles),
        vec![(0, 0), (1, 0), (1, 1), (0, 1)]
    );
    assert!(board.get_chains().is_empty());
}

#[test]
fn mark_mirrors_interior_wall() {
    let mut board = Board::new();
    board.mark(CENTER, Position::Top);
    let tiles = board.tiles;
    assert!(!tiles[4].is_open(Position::Top));
    assert_eq!(
        tiles[1].is_open(Position::Top.invert()),
        tiles[4].is_open(Position::Top)
    );
    board.mark(TOP_RIGHT, Position::Left);
    let tiles = board.tiles;
    assert!(!tiles[1].is_open(Position::Right));
    assert!(tiles[1].is_open(Position::Left));
    // a boundary wall has no mirror
    board.mark(TOP_LEFT, Position::Top);
    let tiles = board.tiles;
    assert!(!tiles[0].is_open(Position::Top));
    assert!(tiles[3].is_open(Position::Top));
}

#[test]
fn chains_and_loops_share_no_box() {
    for mut board in [chain_board(), loop_board()] {
        let mut seen: Vec<(usize, usize)> = Vec::new();
        for chain in board.get_chains() {
            seen.extend(indices(&chain.tiles));
        }
        for lp in board.get_loops() {
            assert!(lp.len() >= 4);
            seen.extend(indices(&lp.tiles));
        }
        let mut unique = seen.clone();
        unique.sort();
        unique.dedup();
        assert_eq!(unique.len(), seen.len());
    }
}

#[test]
fn end_tile_facing_boundary_is_free_edge_square() {
    let mut board = Board::new();
    board.mark(TOP_LEFT, Position::Bottom);
    board.mark(TOP_LEFT, Position::Right);
    board.mark(TOP_LEFT, Position::Left);
    let tile = board.tiles[0];
    assert!(tile.is_end());
    assert_eq!(tile.openings(), vec![Position::Top]);
    assert!(!tile.has_neighbor(Position::Top));
    assert_eq!(board.free_edge_squares(), 1);
    // an end tile whose opening leads inward is not counted
    let mut other = Board::new();
    other.mark(TOP_LEFT, Position::Top);
    other.mark(TOP_LEFT, Position::Left);
    other.mark(TOP_LEFT, Position::Bottom);
    assert!(other.tiles[0].is_end());
    assert_eq!(other.free_edge_squares(), 0);
}

#[test]
fn safe_moves_counts() {
    assert_eq!(Board::new().safe_moves_count(), 24);
    assert_eq!(chain_board().safe_moves_count(), 12);
    assert_eq!(loop_board().safe_moves_count(), 18);
}

#[test]
fn utility_values() {
    let mut game = Game::new();
    game.play(TOP_LEFT, Position::Bottom);
    game.play(TOP_LEFT, Position::Right);
    game.play(TOP_LEFT, Position::Left);
    assert_eq!(game.player_to_play(), Player::Even);
    assert_eq!(game.utility(Player::Even), -1);
    assert_eq!(game.utility(Player::Odd), 1);

    let mut game = Game::new();
    let moves = [
        ((0, 0), Position::Top),
        ((0, 0), Position::Bottom),
        ((0, 1), Position::Bottom),
        ((0, 1), Position::Right),
        ((0, 2), Position::Right),
        ((1, 0), Position::Left),
        ((1, 1), Position::Bottom),
        ((1, 2), Position::Bottom),
        ((1, 2), Position::Right),
        ((2, 0), Position::Right),
        ((2, 0), Position::Left),
        ((2, 2), Position::Bottom),
    ];
    for (index, pos) in moves {
        game.play(index, pos);
    }
    assert_eq!(game.player_to_play(), Player::Odd);
    assert_eq!(game.utility(Player::Odd), 3);
    assert_eq!(game.utility(Player::Even), -3);
}
