use vstd::prelude::*;
use crate::board::{
    lemma_slot, lemma_chains_bounded, lemma_count_tiles_bounds, lemma_edges_left_zero, lemma_loops_bounded,
    lemma_mark_draws_one, lemma_mark_keeps_wf, spec_all_drawn, spec_board_mark, spec_board_wf, spec_chains,
    spec_edges_left, spec_free_edge_squares, spec_loops, spec_safe_moves_count, spec_tile_at, Board,
};
use crate::tile::{
    position_at, spec_chain_closed, spec_chain_half_open, spec_position_at, spec_valid_index, Position, Tile,
    TileIndex,
};

verus! {

/// One of the two players.
#[derive(Debug, Clone, Copy, PartialEq, Eq, Structural)]
pub enum Player {
    Odd,
    Even,
}

impl Player {
    pub open spec fn spec_opponent(self) -> Player {
        match self {
            Player::Odd => Player::Even,
            Player::Even => Player::Odd,
        }
    }

    /// The other player.
    pub fn opponent(&self) -> (r: Player)
        ensures
            r == self.spec_opponent(),
            r != *self,
    {
        match *self {
            Player::Odd => Player::Even,
            Player::Even => Player::Odd,
        }
    }
}

/// A move: a wall, named by a box and one of its sides.
pub type Action = (TileIndex, Position);

/// What a game is: its boxes, whose turn it is, and who took each box.
pub struct GameView {
    pub tiles: Seq<Tile>,
    pub turn: Player,
    pub squares: Seq<Option<Player>>,
}

/// A consistent board, and a box is taken exactly when it is enclosed.
pub open spec fn spec_game_wf(g: GameView) -> bool {
    &&& spec_board_wf(g.tiles)
    &&& g.squares.len() == 9
    &&& forall|k: int| 0 <= k < 9 ==> ((#[trigger] g.squares[k]) is Some <==> g.tiles[k].spec_open_count() == 0)
}

/// The game after the player to move draws wall `pos` of box `index`: each
/// box that this encloses goes to that player, and the turn passes.
pub open spec fn spec_play(g: GameView, index: TileIndex, pos: Position) -> GameView {
    let tiles = spec_board_mark(g.tiles, index, pos);
    GameView {
        tiles,
        turn: g.turn.spec_opponent(),
        squares: Seq::new(
            9,
            |k: int|
                if g.squares[k] is None && tiles[k].spec_open_count() == 0 {
                    Some(g.turn)
                } else {
                    g.squares[k]
                },
        ),
    }
}

/// The game is over when every box is enclosed.
pub open spec fn spec_ended(g: GameView) -> bool {
    spec_all_drawn(g.tiles)
}

/// The moves on box `t` among its first `j` sides, in enumeration order.
pub open spec fn spec_tile_moves(t: Tile, j: int) -> Seq<Action>
    decreases j,
{
    if j <= 0 {
        seq![]
    } else if t.spec_is_open(spec_position_at(j - 1)) {
        spec_tile_moves(t, j - 1).push((t.index, spec_position_at(j - 1)))
    } else {
        spec_tile_moves(t, j - 1)
    }
}

/// The moves on the first `n` boxes, box by box.
pub open spec fn spec_moves_upto(b: Seq<Tile>, n: int) -> Seq<Action>
    decreases n,
{
    if n <= 0 {
        seq![]
    } else {
        spec_moves_upto(b, n - 1) + spec_tile_moves(b[n - 1], 4)
    }
}

/// Every undrawn (box, side) pair; a wall between two boxes appears once
/// for each.
pub open spec fn spec_moves(b: Seq<Tile>) -> Seq<Action> {
    spec_moves_upto(b, 9)
}

/// How many boxes `p` has taken.
pub open spec fn spec_acquired(squares: Seq<Option<Player>>, p: Player, n: int) -> int
    decreases n,
{
    if n <= 0 {
        0
    } else {
        spec_acquired(squares, p, n - 1) + (if squares[n - 1] == Some(p) {
            1int
        } else {
            0int
        })
    }
}

/// What one chain is worth to the side in control.
pub open spec fn spec_chain_value(c: Seq<Tile>) -> int {
    if c.len() <= 2 {
        if spec_chain_closed(c) {
            2
        } else {
            -2
        }
    } else if spec_chain_closed(c) {
        c.len() as int
    } else if spec_chain_half_open(c) {
        c.len() - 4
    } else {
        -(4 - c.len())
    }
}

pub open spec fn spec_chains_value(cs: Seq<Seq<Tile>>, n: int) -> int
    decreases n,
{
    if n <= 0 {
        0
    } else {
        spec_chains_value(cs, n - 1) + spec_chain_value(cs[n - 1])
    }
}

pub open spec fn spec_loops_value(ls: Seq<Seq<Tile>>, n: int) -> int
    decreases n,
{
    if n <= 0 {
        0
    } else {
        spec_loops_value(ls, n - 1) - ls[n - 1].len()
    }
}

/// The sign of the structural term: minus one when the count of safe moves
/// is even, turned over when `player` is not the one to move.
pub open spec fn spec_factor(b: Seq<Tile>, to_move: bool) -> int {
    if (spec_safe_moves_count(b) % 2 == 0) == to_move {
        -1
    } else {
        1
    }
}

/// The heuristic worth of a game to `player`.
pub open spec fn spec_utility(g: GameView, player: Player) -> int {
    let chains = spec_chains(g.tiles);
    let loops = spec_loops(g.tiles);
    spec_acquired(g.squares, player, 9) - spec_acquired(g.squares, player.spec_opponent(), 9) + (
    spec_chains_value(chains, chains.len() as int) + spec_loops_value(loops, loops.len() as int)
        + spec_free_edge_squares(g.tiles)) * spec_factor(g.tiles, g.turn == player)
}

/// The largest heuristic worth a game can have, either way.
pub const UTILITY_BOUND: i32 = 250;

proof fn lemma_acquired_bounds(squares: Seq<Option<Player>>, p: Player, n: int)
    requires
        0 <= n,
    ensures
        0 <= spec_acquired(squares, p, n) <= n,
    decreases n,
{
    if n > 0 {
        lemma_acquired_bounds(squares, p, n - 1);
    }
}

proof fn lemma_chains_value_bounds(cs: Seq<Seq<Tile>>, n: int)
    requires
        0 <= n <= cs.len(),
        forall|i: int| 0 <= i < cs.len() ==> 2 <= (#[trigger] cs[i]).len() <= 10,
    ensures
        -10 * n <= spec_chains_value(cs, n) <= 10 * n,
    decreases n,
{
    if n > 0 {
        lemma_chains_value_bounds(cs, n - 1);
        assert(2 <= cs[n - 1].len() <= 10);
    }
}

proof fn lemma_loops_value_bounds(ls: Seq<Seq<Tile>>, n: int)
    requires
        0 <= n <= ls.len(),
        forall|i: int| 0 <= i < ls.len() ==> 4 <= (#[trigger] ls[i]).len() <= 10,
    ensures
        -10 * n <= spec_loops_value(ls, n) <= 0,
    decreases n,
{
    if n > 0 {
        lemma_loops_value_bounds(ls, n - 1);
        assert(4 <= ls[n - 1].len() <= 10);
    }
}

/// The heuristic stays within `UTILITY_BOUND` either way.
pub proof fn lemma_utility_bounded(g: GameView, player: Player)
    ensures
        -UTILITY_BOUND <= spec_utility(g, player) <= UTILITY_BOUND,
{
    let chains = spec_chains(g.tiles);
    let loops = spec_loops(g.tiles);
    lemma_chains_bounded(g.tiles);
    lemma_loops_bounded(g.tiles);
    lemma_chains_value_bounds(chains, chains.len() as int);
    lemma_loops_value_bounds(loops, loops.len() as int);
    lemma_count_tiles_bounds(g.tiles, |t: Tile| crate::board::spec_free_edge_square(t), 9);
    lemma_acquired_bounds(g.squares, player, 9);
    lemma_acquired_bounds(g.squares, player.spec_opponent(), 9);
    let s = spec_chains_value(chains, chains.len() as int) + spec_loops_value(loops, loops.len() as int)
        + spec_free_edge_squares(g.tiles);
    assert(-180 <= s <= 99);
    let f = spec_factor(g.tiles, g.turn == player);
    assert(f == 1 || f == -1);
    assert(-180 <= s * f <= 180) by (nonlinear_arith)
        requires
            -180 <= s <= 99,
            f == 1 || f == -1,
    ;
}

/// Playing keeps a game consistent.
pub proof fn lemma_play_keeps_wf(g: GameView, index: TileIndex, pos: Position)
    requires
        spec_game_wf(g),
        spec_valid_index(index),
    ensures
        spec_game_wf(spec_play(g, index, pos)),
{
    lemma_mark_keeps_wf(g.tiles, index, pos);
    let h = spec_play(g, index, pos);
    assert forall|k: int| 0 <= k < 9 implies ((#[trigger] h.squares[k]) is Some <==> h.tiles[k].spec_open_count()
        == 0) by {
        if g.squares[k] is Some {
            assert(g.tiles[k].spec_open_count() == 0);
            assert(h.tiles[k].spec_open_count() == 0);
        }
    }
}

proof fn lemma_tile_moves(t: Tile, j: int)
    requires
        0 <= j <= 4,
    ensures
        forall|i: int|
            0 <= i < spec_tile_moves(t, j).len() ==> (#[trigger] spec_tile_moves(t, j)[i]).0 == t.index
                && t.spec_is_open(spec_tile_moves(t, j)[i].1),
        spec_tile_moves(t, j).len() == (if j >= 1 && t.spec_is_open(spec_position_at(0)) { 1int } else { 0int })
            + (if j >= 2 && t.spec_is_open(spec_position_at(1)) { 1int } else { 0int }) + (if j >= 3
            && t.spec_is_open(spec_position_at(2)) { 1int } else { 0int }) + (if j >= 4 && t.spec_is_open(
            spec_position_at(3),
        ) { 1int } else { 0int }),
    decreases j,
{
    if j > 0 {
        lemma_tile_moves(t, j - 1);
    }
}

proof fn lemma_moves_upto(b: Seq<Tile>, n: int)
    requires
        spec_board_wf(b),
        0 <= n <= 9,
    ensures
        forall|i: int|
            0 <= i < spec_moves_upto(b, n).len() ==> spec_valid_index((#[trigger] spec_moves_upto(b, n)[i]).0)
                && spec_tile_at(b, spec_moves_upto(b, n)[i].0).spec_is_open(spec_moves_upto(b, n)[i].1),
        forall|k: int| 0 <= k < n ==> spec_moves_upto(b, n).len() >= (#[trigger] b[k]).spec_open_count(),
    decreases n,
{
    if n > 0 {
        lemma_moves_upto(b, n - 1);
        let t = b[n - 1];
        lemma_tile_moves(t, 4);
        lemma_slot(b, n - 1);
        let prev = spec_moves_upto(b, n - 1);
        let cur = spec_tile_moves(t, 4);
        assert forall|i: int| 0 <= i < spec_moves_upto(b, n).len() implies spec_valid_index(
            (#[trigger] spec_moves_upto(b, n)[i]).0,
        ) && spec_tile_at(b, spec_moves_upto(b, n)[i].0).spec_is_open(spec_moves_upto(b, n)[i].1) by {
            if i >= prev.len() {
                assert(spec_moves_upto(b, n)[i] == cur[i - prev.len()]);
            } else {
                assert(spec_moves_upto(b, n)[i] == prev[i]);
            }
        }
    }
}

/// Each listed move names a box of the grid and one of its undrawn sides.
pub proof fn lemma_moves_legal(b: Seq<Tile>, i: int)
    requires
        spec_board_wf(b),
        0 <= i < spec_moves(b).len(),
    ensures
        spec_valid_index(spec_moves(b)[i].0),
        spec_tile_at(b, spec_moves(b)[i].0).spec_is_open(spec_moves(b)[i].1),
{
    lemma_moves_upto(b, 9);
}

/// A game that is not over has a move.
pub proof fn lemma_moves_nonempty(b: Seq<Tile>)
    requires
        spec_board_wf(b),
        !spec_all_drawn(b),
    ensures
        spec_moves(b).len() > 0,
{
    lemma_moves_upto(b, 9);
    let k = choose|k: int| 0 <= k < 9 && (#[trigger] b[k]).spec_open_count() != 0;
    assert(spec_moves(b).len() >= b[k].spec_open_count());
}

/// The game after the moves of `moves`, in order.
pub open spec fn spec_play_all(g: GameView, moves: Seq<Action>) -> GameView
    decreases moves.len(),
{
    if moves.len() == 0 {
        g
    } else {
        let h = spec_play_all(g, moves.drop_last());
        spec_play(h, moves.last().0, moves.last().1)
    }
}

/// Each move of `moves` draws a wall that is undrawn when it is played.
pub open spec fn spec_legal_sequence(g: GameView, moves: Seq<Action>) -> bool
    decreases moves.len(),
{
    moves.len() == 0 || {
        &&& spec_legal_sequence(g, moves.drop_last())
        &&& spec_valid_index(moves.last().0)
        &&& spec_tile_at(spec_play_all(g, moves.drop_last()).tiles, moves.last().0).spec_is_open(
            moves.last().1,
        )
    }
}

/// Each legal move takes exactly one wall off the count of undrawn walls.
pub proof fn lemma_play_all(g: GameView, moves: Seq<Action>)
    requires
        spec_game_wf(g),
        spec_legal_sequence(g, moves),
    ensures
        spec_game_wf(spec_play_all(g, moves)),
        spec_edges_left(spec_play_all(g, moves).tiles) == spec_edges_left(g.tiles) - moves.len(),
    decreases moves.len(),
{
    if moves.len() > 0 {
        lemma_play_all(g, moves.drop_last());
        let h = spec_play_all(g, moves.drop_last());
        lemma_play_keeps_wf(h, moves.last().0, moves.last().1);
        lemma_mark_draws_one(h.tiles, moves.last().0, moves.last().1);
    }
}

/// From a new game, a sequence of legal moves has at most 24 moves, and the
/// game is over after it exactly when it has 24: each of the 24 walls is
/// drawn once, whichever the order.
pub proof fn lemma_terminal_convergence(g: GameView, moves: Seq<Action>)
    requires
        spec_game_wf(g),
        forall|k: int| 0 <= k < 9 ==> (#[trigger] g.tiles[k]).spec_open_count() == 4,
        spec_legal_sequence(g, moves),
    ensures
        moves.len() <= 24,
        spec_ended(spec_play_all(g, moves)) <==> moves.len() == 24,
{
    assert(g.tiles[0].spec_open_count() == 4);
    assert(g.tiles[1].spec_open_count() == 4);
    assert(g.tiles[2].spec_open_count() == 4);
    assert(g.tiles[3].spec_open_count() == 4);
    assert(g.tiles[4].spec_open_count() == 4);
    assert(g.tiles[5].spec_open_count() == 4);
    assert(g.tiles[6].spec_open_count() == 4);
    assert(g.tiles[7].spec_open_count() == 4);
    assert(g.tiles[8].spec_open_count() == 4);
    assert(spec_edges_left(g.tiles) == 24);
    lemma_play_all(g, moves);
    lemma_edges_left_zero(spec_play_all(g, moves).tiles);
}

/// A game: the board, the player to move, and who took each box.
#[derive(Debug, Clone, Copy)]
pub struct Game {
    pub board: Board,
    pub turn: Player,
    pub squares: [Option<Player>; 9],
}

impl View for Game {
    type V = GameView;

    open spec fn view(&self) -> GameView {
        GameView { tiles: self.board@, turn: self.turn, squares: self.squares@ }
    }
}

impl Game {
    pub open spec fn wf(&self) -> bool {
        spec_game_wf(self@)
    }

    /// An empty board, `Odd` to move, no box taken.
    pub fn new() -> (r: Self)
        ensures
            r.wf(),
            r.turn == Player::Odd,
            forall|k: int| 0 <= k < 9 ==> (#[trigger] r@.squares[k]) is None,
            forall|k: int| 0 <= k < 9 ==> (#[trigger] r@.tiles[k]).spec_open_count() == 4,
            spec_edges_left(r@.tiles) == 24,
    {
        let r = Self { board: Board::new(), turn: Player::Odd, squares: [None; 9] };
        proof {
            assert forall|k: int| 0 <= k < 9 implies (#[trigger] r@.squares[k]) is None by {
                assert(r.squares@[k] == r.squares[k]);
            }
        }
        r
    }

    pub fn player_to_play(&self) -> (r: Player)
        ensures
            r == self.turn,
    {
        self.turn
    }

    /// Draws wall `pos` of box `index` for the player to move, gives that
    /// player each box this encloses, and passes the turn.
    pub fn play(&mut self, index: TileIndex, pos: Position)
        requires
            old(self).wf(),
            spec_valid_index(index),
            spec_tile_at(old(self)@.tiles, index).spec_is_open(pos),
        ensures
            final(self).wf(),
            final(self)@ == spec_play(old(self)@, index, pos),
            spec_edges_left(final(self)@.tiles) == spec_edges_left(old(self)@.tiles) - 1,
    {
        let ghost g = self@;
        self.board.mark(index, pos);
        let acquired_squares = self.board.acquisitions();
        let mut k: usize = 0;
        while k < 9
            invariant
                k <= 9,
                self.board@ == spec_board_mark(g.tiles, index, pos),
                self.turn == g.turn,
                acquired_squares@.len() == 3,
                forall|x: int| 0 <= x < 3 ==> (#[trigger] acquired_squares@[x])@.len() == 3,
                forall|x: int, y: int|
                    0 <= x < 3 && 0 <= y < 3 ==> (#[trigger] acquired_squares@[x]@[y]) == (self.board@[3 * x
                        + y].spec_open_count() == 0),
                forall|j: int|
                    0 <= j < k ==> (#[trigger] self.squares@[j]) == spec_play(g, index, pos).squares[j],
                forall|j: int| k <= j < 9 ==> (#[trigger] self.squares@[j]) == g.squares[j],
            decreases 9 - k,
        {
            let x = k / 3;
            let y = k % 3;
            if self.squares[k].is_none() {
                if acquired_squares[x][y] {
                    self.squares[k] = Some(self.turn);
                }
            }
            k = k + 1;
        }
        self.switch();
        proof {
            lemma_mark_keeps_wf(g.tiles, index, pos);
            lemma_mark_draws_one(g.tiles, index, pos);
            assert(self.squares@ =~= spec_play(g, index, pos).squares);
        }
    }

    fn switch(&mut self)
        ensures
            final(self).turn == old(self).turn.spec_opponent(),
            final(self).board == old(self).board,
            final(self).squares == old(self).squares,
    {
        self.turn = self.turn.opponent();
    }

    /// True iff no undrawn wall remains.
    pub fn ended(&self) -> (r: bool)
        requires
            self.wf(),
        ensures
            r == spec_ended(self@),
            r == (spec_edges_left(self@.tiles) == 0),
    {
        proof {
            lemma_edges_left_zero(self@.tiles);
        }
        let mut k: usize = 0;
        while k < 9
            invariant
                k <= 9,
                self.wf(),
                forall|j: int| 0 <= j < k ==> (#[trigger] self@.tiles[j]).spec_open_count() == 0,
            decreases 9 - k,
        {
            if self.board.tiles[k].config.open_count() != 0 {
                return false;
            }
            k = k + 1;
        }
        true
    }

    /// Every undrawn (box, side) pair, box by box in row-major order and
    /// sides in enumeration order.
    pub fn available_moves(&self) -> (r: Vec<Action>)
        requires
            self.wf(),
        ensures
            r@ == spec_moves(self@.tiles),
    {
        let mut moves: Vec<Action> = Vec::new();
        let mut k: usize = 0;
        while k < 9
            invariant
                k <= 9,
                self.wf(),
                moves@ == spec_moves_upto(self@.tiles, k as int),
            decreases 9 - k,
        {
            let tile = self.board.tiles[k];
            let ghost before = moves@;
            let mut j: usize = 0;
            while j < 4
                invariant
                    k < 9,
                    j <= 4,
                    tile == self@.tiles[k as int],
                    moves@ == before + spec_tile_moves(tile, j as int),
                decreases 4 - j,
            {
                let pos = position_at(j);
                if tile.is_open(pos) {
                    moves.push((tile.index, pos));
                    proof {
                        assert(moves@ =~= before + spec_tile_moves(tile, j + 1));
                    }
                } else {
                    proof {
                        assert(moves@ =~= before + spec_tile_moves(tile, j + 1));
                    }
                }
                j = j + 1;
            }
            k = k + 1;
        }
        moves
    }

    fn acquired_squares(&self, player: Player) -> (r: i32)
        requires
            self.wf(),
        ensures
            r == spec_acquired(self@.squares, player, 9),
    {
        let mut s: i32 = 0;
        let mut k: usize = 0;
        while k < 9
            invariant
                k <= 9,
                self.wf(),
                s == spec_acquired(self@.squares, player, k as int),
            decreases 9 - k,
        {
            proof {
                lemma_acquired_bounds(self@.squares, player, k as int);
            }
            if self.squares[k] == Some(player) {
                s = s + 1;
            }
            k = k + 1;
        }
        s
    }

    /// The heuristic worth of the game to `player`: boxes taken by `player`
    /// less those of the other, plus the chain, loop and free-edge terms
    /// signed by who holds control.
    pub fn utility(&mut self, player: Player) -> (r: i32)
        requires
            old(self).wf(),
        ensures
            *final(self) == *old(self),
            r == spec_utility(old(self)@, player),
            -UTILITY_BOUND <= r <= UTILITY_BOUND,
    {
        let ghost g = self@;
        let chains = self.board.get_chains();
        let loops = self.board.get_loops();
        let mut chain_values: i32 = 0;
        let this_player_to_move = self.turn == player;
        let safe = self.board.safe_moves_count();
        let factor: i32 = if (safe % 2 == 0) == this_player_to_move {
            -1
        } else {
            1
        };
        let mut i: usize = 0;
        while i < chains.len()
            invariant
                i <= chains@.len(),
                chains@.len() <= 9,
                chains@.len() == spec_chains(g.tiles).len(),
                forall|j: int|
                    0 <= j < chains@.len() ==> (#[trigger] chains@[j]).wf() && chains@[j].tiles@ == spec_chains(
                        g.tiles,
                    )[j],
                forall|j: int| 0 <= j < chains@.len() ==> (#[trigger] chains@[j]).tiles@.len() <= 10,
                chain_values == spec_chains_value(spec_chains(g.tiles), i as int),
                -10 * i <= chain_values <= 10 * i,
            decreases chains@.len() - i,
        {
            let chain = &chains[i];
            let len = chain.len() as i32;
            if !chain.is_long() {
                if chain.is_closed() {
                    chain_values = chain_values + 2;
                } else {
                    chain_values = chain_values - 2;
                }
            } else {
                if chain.is_closed() {
                    chain_values = chain_values + len;
                } else if chain.is_half_open() {
                    chain_values = chain_values + (len - 4);
                } else {
                    chain_values = chain_values - (4 - len);
                }
            }
            i = i + 1;
        }
        let mut loop_values: i32 = 0;
        let mut i: usize = 0;
        while i < loops.len()
            invariant
                i <= loops@.len(),
                loops@.len() <= 9,
                loops@.len() == spec_loops(g.tiles).len(),
                forall|j: int|
                    0 <= j < loops@.len() ==> (#[trigger] loops@[j]).wf() && loops@[j].tiles@ == spec_loops(
                        g.tiles,
                    )[j],
                forall|j: int| 0 <= j < loops@.len() ==> 4 <= (#[trigger] loops@[j]).tiles@.len() <= 10,
                loop_values == spec_loops_value(spec_loops(g.tiles), i as int),
                -10 * i <= loop_values <= 0,
            decreases loops@.len() - i,
        {
            let lp = &loops[i];
            loop_values = loop_values - lp.len() as i32;
            i = i + 1;
        }
        let free = self.board.free_edge_squares();
        proof {
            lemma_count_tiles_bounds(g.tiles, |t: Tile| crate::board::spec_free_edge_square(t), 9);
            lemma_utility_bounded(g, player);
        }
        let structural = chain_values + loop_values + free;
        let mine = self.acquired_squares(player);
        let theirs = self.acquired_squares(player.opponent());
        proof {
            lemma_acquired_bounds(g.squares, player, 9);
            lemma_acquired_bounds(g.squares, player.spec_opponent(), 9);
            assert(-180 <= structural * factor <= 180) by (nonlinear_arith)
                requires
                    -180 <= structural <= 99,
                    factor == 1 || factor == -1,
            ;
        }
        mine - theirs + structural * factor
    }
}

} // verus!
