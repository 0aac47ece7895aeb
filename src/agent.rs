use std::rc::Rc;
use vstd::prelude::*;
use crate::board::{lemma_mark_draws_one, spec_edges_left};
use crate::game::{
    lemma_moves_legal, lemma_moves_nonempty, lemma_play_keeps_wf, lemma_utility_bounded, spec_ended,
    spec_game_wf, spec_moves, spec_play, spec_utility, Action, Game, GameView, Player, UTILITY_BOUND,
};
use crate::tile::Position;

verus! {

/// The answer of a search that found no move to make.
pub const NULL_ACTION: Action = ((3, 3), Position::Right);

/// The value of a game to `persp` under perfect play by both sides, the
/// leaves scored by the heuristic: `persp` picks the best of its moves, the
/// other player the worst.
pub open spec fn spec_minimax(g: GameView, persp: Player) -> int
    decreases spec_edges_left(g.tiles), 1int, 0int,
{
    if spec_ended(g) {
        spec_utility(g, persp)
    } else if g.turn == persp {
        spec_best_max(g, persp, spec_moves(g.tiles), spec_moves(g.tiles).len() as int)
    } else {
        spec_best_min(g, persp, spec_moves(g.tiles), spec_moves(g.tiles).len() as int)
    }
}

/// The value after the `i`-th move of `moves`.
pub open spec fn spec_child_value(g: GameView, persp: Player, moves: Seq<Action>, i: int) -> int
    decreases spec_edges_left(g.tiles), 0int, 0int,
{
    let c = spec_play(g, moves[i].0, moves[i].1);
    if 0 <= spec_edges_left(c.tiles) < spec_edges_left(g.tiles) {
        spec_minimax(c, persp)
    } else {
        0
    }
}

/// The best value among the first `n` moves, starting from the smallest
/// `i32`.
pub open spec fn spec_best_max(g: GameView, persp: Player, moves: Seq<Action>, n: int) -> int
    decreases spec_edges_left(g.tiles), 0int, n + 1,
{
    if n <= 0 {
        i32::MIN as int
    } else {
        let prev = spec_best_max(g, persp, moves, n - 1);
        let val = spec_child_value(g, persp, moves, n - 1);
        if val > prev {
            val
        } else {
            prev
        }
    }
}

/// The worst value among the first `n` moves, starting from the largest
/// `i32`.
pub open spec fn spec_best_min(g: GameView, persp: Player, moves: Seq<Action>, n: int) -> int
    decreases spec_edges_left(g.tiles), 0int, n + 1,
{
    if n <= 0 {
        i32::MAX as int
    } else {
        let prev = spec_best_min(g, persp, moves, n - 1);
        let val = spec_child_value(g, persp, moves, n - 1);
        if val < prev {
            val
        } else {
            prev
        }
    }
}

/// What a search with window (`alpha`, `beta`) may return for a game of
/// value `m`: the value itself inside the window, a bound on it outside.
pub open spec fn spec_window(v: int, alpha: int, beta: int, m: int) -> bool {
    &&& v <= alpha ==> m <= v
    &&& v >= beta ==> m >= v
    &&& alpha < v < beta ==> m == v
}

/// `a` is the first of the moves of `g` whose value to `persp` is `v`, and
/// every move before it is worth less than `v` (more than `v` when `maximize` is
/// false).
pub open spec fn spec_first_best(g: GameView, persp: Player, maximize: bool, a: Action, v: int) -> bool {
    let mv = spec_moves(g.tiles);
    exists|k: int|
        0 <= k < mv.len() && mv[k] == a && spec_child_value(g, persp, mv, k) == v && forall|j: int|
            0 <= j < k ==> if maximize {
                #[trigger] spec_child_value(g, persp, mv, j) < v
            } else {
                spec_child_value(g, persp, mv, j) > v
            }
}

proof fn lemma_child_le_best_max(g: GameView, persp: Player, moves: Seq<Action>, j: int, n: int)
    requires
        0 <= j < n,
    ensures
        spec_child_value(g, persp, moves, j) <= spec_best_max(g, persp, moves, n),
    decreases n,
{
    if j < n - 1 {
        lemma_child_le_best_max(g, persp, moves, j, n - 1);
    }
}

proof fn lemma_child_ge_best_min(g: GameView, persp: Player, moves: Seq<Action>, j: int, n: int)
    requires
        0 <= j < n,
    ensures
        spec_child_value(g, persp, moves, j) >= spec_best_min(g, persp, moves, n),
    decreases n,
{
    if j < n - 1 {
        lemma_child_ge_best_min(g, persp, moves, j, n - 1);
    }
}

proof fn lemma_best_max_monotone(g: GameView, persp: Player, moves: Seq<Action>, i: int, n: int)
    requires
        0 <= i <= n,
    ensures
        spec_best_max(g, persp, moves, i) <= spec_best_max(g, persp, moves, n),
    decreases n - i,
{
    if i < n {
        lemma_best_max_monotone(g, persp, moves, i, n - 1);
    }
}

proof fn lemma_best_min_monotone(g: GameView, persp: Player, moves: Seq<Action>, i: int, n: int)
    requires
        0 <= i <= n,
    ensures
        spec_best_min(g, persp, moves, i) >= spec_best_min(g, persp, moves, n),
    decreases n - i,
{
    if i < n {
        lemma_best_min_monotone(g, persp, moves, i, n - 1);
    }
}

/// On a consistent game, each child value is the minimax value of the game
/// after that move, and that game is consistent.
proof fn lemma_child(g: GameView, persp: Player, i: int)
    requires
        spec_game_wf(g),
        0 <= i < spec_moves(g.tiles).len(),
    ensures
        crate::tile::spec_valid_index(spec_moves(g.tiles)[i].0),
        crate::board::spec_tile_at(g.tiles, spec_moves(g.tiles)[i].0).spec_is_open(spec_moves(g.tiles)[i].1),
        spec_game_wf(spec_play(g, spec_moves(g.tiles)[i].0, spec_moves(g.tiles)[i].1)),
        spec_edges_left(spec_play(g, spec_moves(g.tiles)[i].0, spec_moves(g.tiles)[i].1).tiles) == spec_edges_left(
            g.tiles,
        ) - 1,
        spec_child_value(g, persp, spec_moves(g.tiles), i) == spec_minimax(
            spec_play(g, spec_moves(g.tiles)[i].0, spec_moves(g.tiles)[i].1),
            persp,
        ),
{
    let m = spec_moves(g.tiles)[i];
    lemma_moves_legal(g.tiles, i);
    lemma_mark_draws_one(g.tiles, m.0, m.1);
    lemma_play_keeps_wf(g, m.0, m.1);
    crate::board::lemma_edges_left_zero(spec_play(g, m.0, m.1).tiles);
}

/// The minimax value of a consistent game stays within the heuristic's
/// bound.
pub proof fn lemma_minimax_bounded(g: GameView, persp: Player)
    requires
        spec_game_wf(g),
    ensures
        -UTILITY_BOUND <= spec_minimax(g, persp) <= UTILITY_BOUND,
    decreases spec_edges_left(g.tiles), 1int,
{
    if spec_ended(g) {
        lemma_utility_bounded(g, persp);
    } else {
        lemma_moves_nonempty(g.tiles);
        let n = spec_moves(g.tiles).len() as int;
        lemma_best_bounded(g, persp, n);
    }
}

proof fn lemma_best_bounded(g: GameView, persp: Player, n: int)
    requires
        spec_game_wf(g),
        1 <= n <= spec_moves(g.tiles).len(),
    ensures
        -UTILITY_BOUND <= spec_best_max(g, persp, spec_moves(g.tiles), n) <= UTILITY_BOUND,
        -UTILITY_BOUND <= spec_best_min(g, persp, spec_moves(g.tiles), n) <= UTILITY_BOUND,
    decreases spec_edges_left(g.tiles), 0int, n,
{
    let mv = spec_moves(g.tiles);
    lemma_child(g, persp, n - 1);
    let m = mv[n - 1];
    let c = spec_play(g, m.0, m.1);
    lemma_minimax_bounded(c, persp);
    let val = spec_child_value(g, persp, mv, n - 1);
    assert(-UTILITY_BOUND <= val <= UTILITY_BOUND);
    if n > 1 {
        lemma_best_bounded(g, persp, n - 1);
    } else {
        assert(spec_best_max(g, persp, mv, 0) == i32::MIN as int);
        assert(spec_best_min(g, persp, mv, 0) == i32::MAX as int);
    }
    assert(spec_best_max(g, persp, mv, n) == (if val > spec_best_max(g, persp, mv, n - 1) {
        val
    } else {
        spec_best_max(g, persp, mv, n - 1)
    }));
    assert(spec_best_min(g, persp, mv, n) == (if val < spec_best_min(g, persp, mv, n - 1) {
        val
    } else {
        spec_best_min(g, persp, mv, n - 1)
    }));
}

/// Searches for a move by alpha-beta pruning over the whole game tree.
pub struct Agent {
    pub game: Rc<Game>,
    pub turn: Player,
}

impl Agent {
    /// An agent playing `turn` from position `game`.
    pub fn new(game: Rc<Game>, turn: Player) -> (r: Agent)
        ensures
            *r.game == *game,
            r.turn == turn,
    {
        Self { game, turn }
    }

    /// The best move for the agent's player from its game and the minimax
    /// value of that game to it; the move is `NULL_ACTION` when the game is
    /// over.
    pub fn ab_search(&mut self) -> (r: (Action, i32))
        requires
            (*old(self).game).wf(),
            old(self).turn == (*old(self).game).turn,
        ensures
            *final(self) == *old(self),
            r.1 == spec_minimax((*old(self).game)@, old(self).turn),
            spec_ended((*old(self).game)@) ==> r.0 == NULL_ACTION,
            !spec_ended((*old(self).game)@) ==> spec_first_best((*old(self).game)@, old(self).turn, true, r.0, r.1 as int),
    {
        let alpha = i32::MIN;
        let beta = i32::MAX;
        let game: Game = *self.game;
        let r = self.max(game, alpha, beta);
        proof {
            lemma_minimax_bounded(game@, self.turn);
        }
        r
    }

    fn max(&self, game: Game, alpha: i32, beta: i32) -> (r: (Action, i32))
        requires
            game.wf(),
            alpha < beta,
            self.turn == game.turn,
        ensures
            spec_window(r.1 as int, alpha as int, beta as int, spec_minimax(game@, self.turn)),
            spec_ended(game@) ==> r.0 == NULL_ACTION && r.1 == spec_utility(game@, self.turn),
            !spec_ended(game@) && alpha < r.1 < beta ==> spec_first_best(game@, self.turn, true, r.0, r.1 as int),
        decreases spec_edges_left(game@.tiles),
    {
        if game.ended() {
            let mut leaf = game;
            return (NULL_ACTION, leaf.utility(self.turn));
        }
        let ghost g = game@;
        let ghost persp = self.turn;
        let moves = game.available_moves();
        let ghost mv = moves@;
        let mut window_alpha = alpha;
        let ghost a0 = alpha as int;
        let mut action = NULL_ACTION;
        let mut v = i32::MIN;
        let ghost mut best_k: int = 0;
        let mut i: usize = 0;
        while i < moves.len()
            invariant
                game@ == g,
                game.wf(),
                self.turn == persp,
                g.turn == persp,
                !spec_ended(g),
                mv == spec_moves(g.tiles),
                moves@ == mv,
                i <= mv.len(),
                a0 < beta,
                a0 == alpha as int,
                window_alpha as int == (if v as int > a0 { v as int } else { a0 }),
                v < beta,
                spec_best_max(g, persp, mv, i as int) <= v,
                v > a0 ==> spec_best_max(g, persp, mv, i as int) == v,
                v > a0 ==> 0 <= best_k < i && mv[best_k] == action && spec_child_value(g, persp, mv, best_k) == v
                    && forall|j: int| 0 <= j < best_k ==> #[trigger] spec_child_value(g, persp, mv, j) < v,
            decreases mv.len() - i,
        {
            let (index, pos) = moves[i];
            proof {
                lemma_child(g, persp, i as int);
            }
            let mut new_state = game;
            new_state.play(index, pos);
            proof {
                assert(0 <= spec_edges_left(new_state@.tiles) < spec_edges_left(game@.tiles));
            }
            let (_, val) = if game.player_to_play() == new_state.player_to_play() {
                self.max(new_state, window_alpha, beta)
            } else {
                self.min(new_state, window_alpha, beta)
            };
            if val > v {
                proof {
                    assert forall|j: int| 0 <= j < i implies #[trigger] spec_child_value(g, persp, mv, j) < val by {
                        lemma_child_le_best_max(g, persp, mv, j, i as int);
                    }
                    best_k = i as int;
                }
                action = (index, pos);
                v = val;
            }
            proof {
                assert(spec_child_value(g, persp, mv, i as int) == spec_minimax(new_state@, persp));
                assert(spec_best_max(g, persp, mv, i as int + 1) == (if spec_child_value(g, persp, mv, i as int)
                    > spec_best_max(g, persp, mv, i as int) {
                    spec_child_value(g, persp, mv, i as int)
                } else {
                    spec_best_max(g, persp, mv, i as int)
                }));
            }
            if v >= beta {
                proof {
                    lemma_best_max_monotone(g, persp, mv, i as int + 1, mv.len() as int);
                    assert(spec_minimax(g, persp) == spec_best_max(g, persp, mv, mv.len() as int));
                }
                return ((index, pos), v);
            }
            if v > window_alpha {
                window_alpha = v;
            }
            i = i + 1;
        }
        proof {
            if alpha < v < beta {
                assert(moves@[best_k] == action);
            }
        }
        (action, v)
    }

    fn min(&self, game: Game, alpha: i32, beta: i32) -> (r: (Action, i32))
        requires
            game.wf(),
            alpha < beta,
            self.turn != game.turn,
        ensures
            spec_window(r.1 as int, alpha as int, beta as int, spec_minimax(game@, self.turn)),
            spec_ended(game@) ==> r.0 == NULL_ACTION && r.1 == spec_utility(game@, self.turn),
            !spec_ended(game@) && alpha < r.1 < beta ==> spec_first_best(game@, self.turn, false, r.0, r.1 as int),
        decreases spec_edges_left(game@.tiles),
    {
        if game.ended() {
            let mut leaf = game;
            return (NULL_ACTION, leaf.utility(self.turn));
        }
        let ghost g = game@;
        let ghost persp = self.turn;
        let moves = game.available_moves();
        let ghost mv = moves@;
        let mut window_beta = beta;
        let ghost b0 = beta as int;
        let mut action = NULL_ACTION;
        let mut v = i32::MAX;
        let ghost mut best_k: int = 0;
        let mut i: usize = 0;
        while i < moves.len()
            invariant
                game@ == g,
                game.wf(),
                self.turn == persp,
                g.turn != persp,
                !spec_ended(g),
                mv == spec_moves(g.tiles),
                moves@ == mv,
                i <= mv.len(),
                alpha < b0,
                b0 == beta as int,
                window_beta as int == (if (v as int) < b0 { v as int } else { b0 }),
                v > alpha,
                spec_best_min(g, persp, mv, i as int) >= v,
                (v as int) < b0 ==> spec_best_min(g, persp, mv, i as int) == v,
                (v as int) < b0 ==> 0 <= best_k < i && mv[best_k] == action && spec_child_value(g, persp, mv, best_k)
                    == v && forall|j: int| 0 <= j < best_k ==> #[trigger] spec_child_value(g, persp, mv, j) > v,
            decreases mv.len() - i,
        {
            let (index, pos) = moves[i];
            proof {
                lemma_child(g, persp, i as int);
            }
            let mut new_state = game;
            new_state.play(index, pos);
            proof {
                assert(0 <= spec_edges_left(new_state@.tiles) < spec_edges_left(game@.tiles));
            }
            let (_, val) = if game.player_to_play() == new_state.player_to_play() {
                self.min(new_state, alpha, window_beta)
            } else {
                self.max(new_state, alpha, window_beta)
            };
            if val < v {
                proof {
                    assert forall|j: int| 0 <= j < i implies #[trigger] spec_child_value(g, persp, mv, j) > val by {
                        lemma_child_ge_best_min(g, persp, mv, j, i as int);
                    }
                    best_k = i as int;
                }
                action = (index, pos);
                v = val;
            }
            proof {
                assert(spec_child_value(g, persp, mv, i as int) == spec_minimax(new_state@, persp));
                assert(spec_best_min(g, persp, mv, i as int + 1) == (if spec_child_value(g, persp, mv, i as int)
                    < spec_best_min(g, persp, mv, i as int) {
                    spec_child_value(g, persp, mv, i as int)
                } else {
                    spec_best_min(g, persp, mv, i as int)
                }));
            }
            if v <= alpha {
                proof {
                    lemma_best_min_monotone(g, persp, mv, i as int + 1, mv.len() as int);
                    assert(spec_minimax(g, persp) == spec_best_min(g, persp, mv, mv.len() as int));
                }
                return ((index, pos), v);
            }
            if v < window_beta {
                window_beta = v;
            }
            i = i + 1;
        }
        proof {
            if alpha < v < beta {
                assert(moves@[best_k] == action);
            }
        }
        (action, v)
    }
}

} // verus!
