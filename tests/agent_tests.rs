use std::rc::Rc;

use dots_and_boxes::agent::{Agent, NULL_ACTION};
use dots_and_boxes::game::{Game, Player};
use dots_and_boxes::tile::{
    Position, BOTTOM_CENTER, BOTTOM_LEFT, BOTTOM_RIGHT, CENTER, MIDDLE_LEFT, MIDDLE_RIGHT,
    TOP_CENTER, TOP_LEFT, TOP_RIGHT,
};

fn position_b() -> Game {
    let mut game = Game::new();
    game.play(TOP_LEFT, Position::Top);
    game.play(TOP_CENTER, Position::Top);
    game.play(TOP_RIGHT, Position::Top);

    game.play(TOP_LEFT, Position::Bottom);
    game.play(TOP_CENTER, Position::Bottom);
    game.play(TOP_RIGHT, Position::Bottom);

    game.play(BOTTOM_LEFT, Position::Top);
    game.play(BOTTOM_CENTER, Position::Top);
    game.play(BOTTOM_RIGHT, Position::Top);

    game.play(TOP_LEFT, Position::Right);
    game.play(MIDDLE_LEFT, Position::Right);
    game.play(BOTTOM_LEFT, Position::Right);

    game.play(BOTTOM_LEFT, Position::Bottom);
    game.play(BOTTOM_RIGHT, Position::Right);

    game.play(TOP_LEFT, Position::Left);
    game.play(MIDDLE_LEFT, Position::Left);
    game.play(BOTTOM_LEFT, Position::Left);

    game.play(TOP_RIGHT, Position::Right);
    game.play(TOP_RIGHT, Position::Left);
    game
}

/// Plain minimax over every move, with no pruning.
fn minimax(game: &Game, persp: Player) -> i32 {
    if game.ended() {
        let mut leaf = *game;
        return leaf.utility(persp);
    }
    let maximize = game.player_to_play() == persp;
    let mut best = if maximize { i32::MIN } else { i32::MAX };
    for (index, pos) in game.available_moves() {
        let mut next = *game;
        next.play(index, pos);
        let value = minimax(&next, persp);
        if maximize {
            best = best.max(value);
        } else {
            best = best.min(value);
        }
    }
    best
}

#[test]
fn a() {
    let mut game = Game::new();
    game.play(TOP_LEFT, Position::Top);
    game.play(TOP_LEFT, Position::Bottom);
    game.play(TOP_CENTER, Position::Bottom);
    game.play(TOP_CENTER, Position::Right);
    game.play(TOP_RIGHT, Position::Right);
    game.play(MIDDLE_LEFT, Position::Left);
    game.play(CENTER, Position::Bottom);
    game.play(MIDDLE_RIGHT, Position::Bottom);
    game.play(MIDDLE_RIGHT, Position::Right);
    game.play(BOTTOM_LEFT, Position::Right);
    game.play(BOTTOM_LEFT, Position::Left);

    println!("{:?}", game);
    assert!(game.squares.iter().all(|s| s.is_none()));
    assert_eq!(game.player_to_play(), Player::Even);

    let mut agent = Agent::new(Rc::new(game), Player::Even);
    let result = agent.ab_search();
    println!("{:?}", result);
    assert_eq!(result, ((TOP_LEFT, Position::Right), 1));
}

#[test]
fn b() {
    let game = position_b();
    println!("{:?}", game);
    println!("Turn : {:?}", game.player_to_play());
    let mut agent = Agent::new(Rc::new(game), Player::Even);
    let result = agent.ab_search();
    println!("{:?}", result);
    assert_eq!(result, ((CENTER, Position::Right), -3));
}

#[test]
fn pruned_search_matches_plain_minimax() {
    let game = position_b();
    let (_, value) = Agent::new(Rc::new(game), Player::Even).ab_search();
    assert_eq!(value, minimax(&game, Player::Even));

    let mut shorter = position_b();
    shorter.play(CENTER, Position::Right);
    let turn = shorter.player_to_play();
    let (_, value) = Agent::new(Rc::new(shorter), turn).ab_search();
    assert_eq!(value, minimax(&shorter, turn));
}

#[test]
fn finished_game_gives_no_move() {
    let mut game = Game::new();
    for r in 0..3 {
        for c in 0..3 {
            game.play((r, c), Position::Top);
            game.play((r, c), Position::Left);
            if r == 2 {
                game.play((r, c), Position::Bottom);
            }
            if c == 2 {
                game.play((r, c), Position::Right);
            }
        }
    }
    assert!(game.ended());
    let turn = game.player_to_play();
    let mut leaf = game;
    let expected = leaf.utility(turn);
    let (action, value) = Agent::new(Rc::new(game), turn).ab_search();
    assert_eq!(action, NULL_ACTION);
    assert_eq!(value, expected);
}
