use vstd::prelude::*;
use crate::tile::{
    lemma_open_side_connects, position_at, spec_position_at, spec_step, spec_valid_index,
    Chain, ChainBuilder, Loop, LoopBuilder, Position, Tile, TileIndex,
};

verus! {

/// The 3×3 grid of boxes, stored row by row.
#[derive(Debug, Clone, Copy)]
pub struct Board {
    pub tiles: [Tile; 9],
}

impl View for Board {
    type V = Seq<Tile>;

    open spec fn view(&self) -> Seq<Tile> {
        self.tiles@
    }
}

/// Position in row-major order of a box index.
pub open spec fn spec_slot(index: TileIndex) -> int {
    3 * index.0 + index.1
}

pub open spec fn spec_tile_at(b: Seq<Tile>, index: TileIndex) -> Tile {
    b[spec_slot(index)]
}

/// Nine boxes in row-major order, each wall shared by two boxes drawn in both
/// or in neither.
pub open spec fn spec_board_wf(b: Seq<Tile>) -> bool {
    &&& b.len() == 9
    &&& b[0].index == (0usize, 0usize)
    &&& b[1].index == (0usize, 1usize)
    &&& b[2].index == (0usize, 2usize)
    &&& b[3].index == (1usize, 0usize)
    &&& b[4].index == (1usize, 1usize)
    &&& b[5].index == (1usize, 2usize)
    &&& b[6].index == (2usize, 0usize)
    &&& b[7].index == (2usize, 1usize)
    &&& b[8].index == (2usize, 2usize)
    &&& b[0].config.right == b[1].config.left
    &&& b[1].config.right == b[2].config.left
    &&& b[3].config.right == b[4].config.left
    &&& b[4].config.right == b[5].config.left
    &&& b[6].config.right == b[7].config.left
    &&& b[7].config.right == b[8].config.left
    &&& b[0].config.bottom == b[3].config.top
    &&& b[1].config.bottom == b[4].config.top
    &&& b[2].config.bottom == b[5].config.top
    &&& b[3].config.bottom == b[6].config.top
    &&& b[4].config.bottom == b[7].config.top
    &&& b[5].config.bottom == b[8].config.top
}

/// The board after drawing the wall `pos` of box `index`, and its mirror
/// in the neighbouring box if there is one.
pub open spec fn spec_board_mark(b: Seq<Tile>, index: TileIndex, pos: Position) -> Seq<Tile> {
    let k = spec_slot(index);
    let b1 = b.update(k, b[k].spec_mark(pos));
    match spec_step(index, pos) {
        Some(n) => b1.update(spec_slot(n), b1[spec_slot(n)].spec_mark(pos.spec_invert())),
        None => b1,
    }
}

pub open spec fn spec_bit(c: bool) -> int {
    if c {
        1
    } else {
        0
    }
}

/// The undrawn walls that a box owns when each wall is counted once: its top
/// and left, and its bottom or right where those face the boundary.
pub open spec fn spec_owned_open(t: Tile) -> int {
    spec_bit(t.spec_is_open(Position::Top)) + spec_bit(t.spec_is_open(Position::Left)) + (if t.index.0
        == 2 {
        spec_bit(t.spec_is_open(Position::Bottom))
    } else {
        0
    }) + (if t.index.1 == 2 {
        spec_bit(t.spec_is_open(Position::Right))
    } else {
        0
    })
}

/// The number of distinct undrawn walls of the grid.
pub open spec fn spec_edges_left(b: Seq<Tile>) -> int {
    spec_owned_open(b[0]) + spec_owned_open(b[1]) + spec_owned_open(b[2]) + spec_owned_open(b[3])
        + spec_owned_open(b[4]) + spec_owned_open(b[5]) + spec_owned_open(b[6]) + spec_owned_open(b[7])
        + spec_owned_open(b[8])
}

/// Every box enclosed.
pub open spec fn spec_all_drawn(b: Seq<Tile>) -> bool {
    forall|k: int| 0 <= k < 9 ==> (#[trigger] b[k]).spec_open_count() == 0
}

/// Counts the boxes among the first `n` that meet `f`.
pub open spec fn spec_count_tiles(b: Seq<Tile>, f: spec_fn(Tile) -> bool, n: int) -> int
    decreases n,
{
    if n <= 0 {
        0
    } else {
        spec_count_tiles(b, f, n - 1) + spec_bit(f(b[n - 1]))
    }
}

/// An end box whose one undrawn wall faces the boundary.
pub open spec fn spec_free_edge_square(t: Tile) -> bool {
    t.spec_is_end() && !t.spec_has_neighbor(t.spec_openings()[0])
}

pub open spec fn spec_free_edge_squares(b: Seq<Tile>) -> int {
    spec_count_tiles(b, |t: Tile| spec_free_edge_square(t), 9)
}

/// Drawing wall `pos` of box `t` would leave `t`, or the box across that
/// wall, with a single undrawn wall.
pub open spec fn spec_will_make_end(b: Seq<Tile>, t: Tile, pos: Position) -> bool {
    (t.spec_is_path() && t.spec_is_open(pos)) || match t.spec_at(pos) {
        Some(n) => spec_tile_at(b, n).spec_is_path() && spec_tile_at(b, n).spec_is_open(
            pos.spec_invert(),
        ),
        None => false,
    }
}

/// Whether box `t` is the one that counts its wall `pos`: boxes of the
/// middle row leave their top and bottom to the rows beside them, boxes of
/// the middle column their left and right.
pub open spec fn spec_owns(t: Tile, pos: Position) -> bool {
    !(t.index.0 == 1 && pos.spec_is_vertical()) && !(t.index.1 == 1 && !pos.spec_is_vertical())
}

/// The walls of box `t` among the first `j` sides that it owns and that are
/// safe to draw.
pub open spec fn spec_safe_in_tile(b: Seq<Tile>, t: Tile, j: int) -> int
    decreases j,
{
    if j <= 0 {
        0
    } else {
        spec_safe_in_tile(b, t, j - 1) + spec_bit(
            spec_owns(t, spec_position_at(j - 1)) && !spec_will_make_end(b, t, spec_position_at(j - 1)),
        )
    }
}

pub open spec fn spec_safe_moves(b: Seq<Tile>, n: int) -> int
    decreases n,
{
    if n <= 0 {
        0
    } else {
        spec_safe_moves(b, n - 1) + spec_safe_in_tile(b, b[n - 1], 4)
    }
}

pub open spec fn spec_safe_moves_count(b: Seq<Tile>) -> int {
    spec_safe_moves(b, 9)
}

pub proof fn lemma_count_tiles_bounds(b: Seq<Tile>, f: spec_fn(Tile) -> bool, n: int)
    requires
        n >= 0,
    ensures
        0 <= spec_count_tiles(b, f, n) <= n,
    decreases n,
{
    if n > 0 {
        lemma_count_tiles_bounds(b, f, n - 1);
    }
}

proof fn lemma_safe_in_tile_bounds(b: Seq<Tile>, t: Tile, j: int)
    requires
        0 <= j,
    ensures
        0 <= spec_safe_in_tile(b, t, j) <= j,
    decreases j,
{
    if j > 0 {
        lemma_safe_in_tile_bounds(b, t, j - 1);
    }
}

proof fn lemma_safe_moves_bounds(b: Seq<Tile>, n: int)
    requires
        0 <= n,
    ensures
        0 <= spec_safe_moves(b, n) <= 4 * n,
    decreases n,
{
    if n > 0 {
        lemma_safe_moves_bounds(b, n - 1);
        lemma_safe_in_tile_bounds(b, b[n - 1], 4);
    }
}

/// Drawing a wall on both of its sides keeps the board consistent.
#[verifier::spinoff_prover]
#[verifier::rlimit(40)]
pub proof fn lemma_mark_keeps_wf(b: Seq<Tile>, index: TileIndex, pos: Position)
    requires
        spec_board_wf(b),
        spec_valid_index(index),
    ensures
        spec_board_wf(spec_board_mark(b, index, pos)),
{
    let r = spec_board_mark(b, index, pos);
    // one case per box keeps each query small
    if index.0 == 0 {
        if index.1 == 0 {
            assert(spec_board_wf(r));
        } else if index.1 == 1 {
            assert(spec_board_wf(r));
        } else {
            assert(spec_board_wf(r));
        }
    } else if index.0 == 1 {
        if index.1 == 0 {
            assert(spec_board_wf(r));
        } else if index.1 == 1 {
            assert(spec_board_wf(r));
        } else {
            assert(spec_board_wf(r));
        }
    } else {
        if index.1 == 0 {
            assert(spec_board_wf(r));
        } else if index.1 == 1 {
            assert(spec_board_wf(r));
        } else {
            assert(spec_board_wf(r));
        }
    }
}

/// On a consistent board, the two boxes on either side of a wall see it
/// alike.
pub proof fn lemma_mirror(b: Seq<Tile>, index: TileIndex, pos: Position)
    requires
        spec_board_wf(b),
        spec_valid_index(index),
    ensures
        spec_step(index, pos) matches Some(n) ==> spec_tile_at(b, n).spec_is_open(pos.spec_invert())
            == spec_tile_at(b, index).spec_is_open(pos),
{
}

/// After `mark(index, pos)`, the neighbour across that wall sees it drawn
/// exactly when the marked box does.
pub proof fn lemma_mark_mirrored(b: Seq<Tile>, index: TileIndex, pos: Position)
    requires
        spec_board_wf(b),
        spec_valid_index(index),
    ensures
        spec_step(index, pos) matches Some(n) ==> spec_tile_at(spec_board_mark(b, index, pos), n).spec_is_open(
            pos.spec_invert(),
        ) == spec_tile_at(spec_board_mark(b, index, pos), index).spec_is_open(pos),
        !spec_tile_at(spec_board_mark(b, index, pos), index).spec_is_open(pos),
{
    lemma_mark_keeps_wf(b, index, pos);
    lemma_mirror(spec_board_mark(b, index, pos), index, pos);
}

/// Whether wall `pos` of box `t` is among the walls `t` owns in the count
/// of undrawn walls.
pub open spec fn spec_counts(t: Tile, pos: Position) -> bool {
    match pos {
        Position::Top => true,
        Position::Left => true,
        Position::Bottom => t.index.0 == 2,
        Position::Right => t.index.1 == 2,
    }
}

proof fn lemma_owned_open_mark(t: Tile, pos: Position)
    ensures
        spec_owned_open(t.spec_mark(pos)) == spec_owned_open(t) - spec_bit(t.spec_is_open(pos) && spec_counts(t, pos)),
{
}

proof fn lemma_edges_left_update(b: Seq<Tile>, k: int, t: Tile)
    requires
        b.len() == 9,
        0 <= k < 9,
    ensures
        spec_edges_left(b.update(k, t)) == spec_edges_left(b) - spec_owned_open(b[k]) + spec_owned_open(t),
{
    let u = b.update(k, t);
    assert(forall|j: int| 0 <= j < 9 && j != k ==> u[j] == b[j]);
    assert(u[k] == t);
}

/// Drawing an undrawn wall takes exactly one wall off the count of undrawn
/// walls, whether one box or two see it.
pub proof fn lemma_mark_draws_one(b: Seq<Tile>, index: TileIndex, pos: Position)
    requires
        spec_board_wf(b),
        spec_valid_index(index),
        spec_tile_at(b, index).spec_is_open(pos),
    ensures
        spec_edges_left(spec_board_mark(b, index, pos)) == spec_edges_left(b) - 1,
{
    let k = spec_slot(index);
    let b1 = b.update(k, b[k].spec_mark(pos));
    lemma_owned_open_mark(b[k], pos);
    lemma_edges_left_update(b, k, b[k].spec_mark(pos));
    assert(b[k].index == index);
    match spec_step(index, pos) {
        Some(n) => {
            let m = spec_slot(n);
            lemma_mirror(b, index, pos);
            assert(m != k);
            assert(b1[m] == b[m]);
            assert(b[m].index == n);
            lemma_owned_open_mark(b1[m], pos.spec_invert());
            lemma_edges_left_update(b1, m, b1[m].spec_mark(pos.spec_invert()));
        },
        None => {},
    }
}

/// The count of undrawn walls is zero exactly when every box is enclosed.
pub proof fn lemma_edges_left_zero(b: Seq<Tile>)
    requires
        spec_board_wf(b),
    ensures
        0 <= spec_edges_left(b) <= 24,
        (spec_edges_left(b) == 0) == spec_all_drawn(b),
{
    if spec_edges_left(b) == 0 {
        assert forall|k: int| 0 <= k < 9 implies (#[trigger] b[k]).spec_open_count() == 0 by {
            lemma_slot(b, k);
        }
    }
    if spec_all_drawn(b) {
        assert(b[0].spec_open_count() == 0);
        assert(b[1].spec_open_count() == 0);
        assert(b[2].spec_open_count() == 0);
        assert(b[3].spec_open_count() == 0);
        assert(b[4].spec_open_count() == 0);
        assert(b[5].spec_open_count() == 0);
        assert(b[6].spec_open_count() == 0);
        assert(b[7].spec_open_count() == 0);
        assert(b[8].spec_open_count() == 0);
    }
}

/// How many entries of `ev` are still unset.
pub open spec fn spec_unvisited(ev: Seq<bool>) -> nat
    decreases ev.len(),
{
    if ev.len() == 0 {
        0
    } else {
        spec_unvisited(ev.drop_last()) + (if ev.last() {
            0nat
        } else {
            1nat
        })
    }
}

pub proof fn lemma_unvisited_update(ev: Seq<bool>, k: int)
    requires
        0 <= k < ev.len(),
        !ev[k],
    ensures
        spec_unvisited(ev.update(k, true)) + 1 == spec_unvisited(ev),
    decreases ev.len(),
{
    let u = ev.update(k, true);
    if k == ev.len() - 1 {
        assert(u.drop_last() =~= ev.drop_last());
    } else {
        lemma_unvisited_update(ev.drop_last(), k);
        assert(u.drop_last() =~= ev.drop_last().update(k, true));
    }
}

pub proof fn lemma_unvisited_bound(ev: Seq<bool>)
    ensures
        spec_unvisited(ev) <= ev.len(),
    decreases ev.len(),
{
    if ev.len() > 0 {
        lemma_unvisited_bound(ev.drop_last());
    }
}

/// No box visited yet.
pub open spec fn spec_fresh() -> Seq<bool> {
    Seq::new(9, |i: int| false)
}

/// The box that extends a chain whose last box is `t`, reached through side
/// `last_pos` of the box before it (`None` when `t` is the first box), with
/// the side of `t` that leads to it.
pub open spec fn spec_next_chain_tile(b: Seq<Tile>, t: Tile, last_pos: Option<Position>) -> Option<
    (TileIndex, Position),
> {
    let ops = t.spec_openings();
    let cand: Option<Position> = if ops.len() == 1 {
        if last_pos is Some {
            None
        } else {
            Some(ops[0])
        }
    } else if ops.len() == 2 {
        match last_pos {
            Some(lp) => Some(
                if ops[0] == lp.spec_invert() {
                    ops[1]
                } else {
                    ops[0]
                },
            ),
            None => if t.spec_is_edge_path_chain_end() {
                Some(t.spec_edge_path_chain_pos())
            } else {
                None
            },
        }
    } else {
        None
    };
    match cand {
        None => None,
        Some(p) => match t.spec_at(p) {
            None => None,
            Some(n) => if spec_tile_at(b, n).spec_can_be_chained() {
                Some((n, p))
            } else {
                None
            },
        },
    }
}

#[via_fn]
proof fn spec_grow_decreases(
    b: Seq<Tile>,
    ev: Seq<bool>,
    tiles: Seq<Tile>,
    next: Option<(TileIndex, Position)>,
) {
    if let Some(np) = next {
        let k = spec_slot(np.0);
        if 0 <= k < ev.len() && !ev[k] {
            lemma_unvisited_update(ev, k);
        }
    }
}

/// Grows a chain whose boxes so far are `tiles` towards `next`, with `ev`
/// the boxes visited in this scan. Gives the visited boxes after growth,
/// and the chain unless it has a single box or runs into a visited box.
pub open spec fn spec_grow(
    b: Seq<Tile>,
    ev: Seq<bool>,
    tiles: Seq<Tile>,
    next: Option<(TileIndex, Position)>,
) -> (Seq<bool>, Option<Seq<Tile>>)
    decreases spec_unvisited(ev),
    via spec_grow_decreases
{
    match next {
        None => (ev, if tiles.len() >= 2 {
            Some(tiles)
        } else {
            None
        }),
        Some(np) => {
            let k = spec_slot(np.0);
            if 0 <= k < ev.len() && !ev[k] {
                let nt = spec_tile_at(b, np.0);
                spec_grow(b, ev.update(k, true), tiles.push(nt), spec_next_chain_tile(b, nt, Some(np.1)))
            } else {
                (ev, None)
            }
        },
    }
}

/// A box from which a chain is grown: an end box, or a corridor on the
/// perimeter with one open side facing the outside.
pub open spec fn spec_chain_seed(t: Tile) -> bool {
    t.spec_is_end() || t.spec_is_edge_path_chain_end()
}

/// The chain scan from box `k` on (row-major order), with visited boxes
/// `ev` and the chains found so far.
pub open spec fn spec_chain_scan(b: Seq<Tile>, k: int, ev: Seq<bool>, chains: Seq<Seq<Tile>>) -> Seq<
    Seq<Tile>,
>
    decreases 9 - k,
{
    if k < 0 || k >= 9 {
        chains
    } else if ev[k] {
        spec_chain_scan(b, k + 1, ev, chains)
    } else if spec_chain_seed(b[k]) {
        let g = spec_grow(b, ev.update(k, true), seq![b[k]], spec_next_chain_tile(b, b[k], None));
        spec_chain_scan(
            b,
            k + 1,
            g.0,
            match g.1 {
                Some(c) => chains.push(c),
                None => chains,
            },
        )
    } else {
        spec_chain_scan(b, k + 1, ev, chains)
    }
}

/// The chains of the board, as found by one scan of its boxes.
pub open spec fn spec_chains(b: Seq<Tile>) -> Seq<Seq<Tile>> {
    spec_chain_scan(b, 0, spec_fresh(), seq![])
}

/// Box `k` of a consistent board has index `(k / 3, k % 3)`.
pub proof fn lemma_slot(b: Seq<Tile>, k: int)
    requires
        spec_board_wf(b),
        0 <= k < 9,
    ensures
        spec_slot(b[k].index) == k,
        spec_tile_at(b, b[k].index) == b[k],
        b[k].wf(),
{
    if k == 0 {
    } else if k == 1 {
    } else if k == 2 {
    } else if k == 3 {
    } else if k == 4 {
    } else if k == 5 {
    } else if k == 6 {
    } else if k == 7 {
    } else {
    }
}

/// The boxes of a consistent board stand at their own index.
pub proof fn lemma_tile_at(b: Seq<Tile>, n: TileIndex)
    requires
        spec_board_wf(b),
        spec_valid_index(n),
    ensures
        spec_tile_at(b, n).index == n,
        spec_tile_at(b, n).wf(),
        0 <= spec_slot(n) < 9,
{
}

proof fn lemma_grow(b: Seq<Tile>, ev: Seq<bool>, tiles: Seq<Tile>, next: Option<(TileIndex, Position)>)
    requires
        ev.len() == 9,
        tiles.len() >= 1,
    ensures
        spec_grow(b, ev, tiles, next).0.len() == 9,
        spec_grow(b, ev, tiles, next).1 matches Some(c) ==> 2 <= c.len() <= tiles.len() + spec_unvisited(
            ev,
        ),
    decreases spec_unvisited(ev),
{
    if let Some(np) = next {
        let k = spec_slot(np.0);
        if 0 <= k < ev.len() && !ev[k] {
            let nt = spec_tile_at(b, np.0);
            lemma_unvisited_update(ev, k);
            lemma_grow(b, ev.update(k, true), tiles.push(nt), spec_next_chain_tile(b, nt, Some(np.1)));
        }
    }
}

proof fn lemma_chain_scan(b: Seq<Tile>, k: int, ev: Seq<bool>, chains: Seq<Seq<Tile>>)
    requires
        ev.len() == 9,
        0 <= k <= 9,
        forall|i: int| 0 <= i < chains.len() ==> 2 <= (#[trigger] chains[i]).len() <= 10,
    ensures
        spec_chain_scan(b, k, ev, chains).len() <= chains.len() + 9 - k,
        forall|i: int|
            0 <= i < spec_chain_scan(b, k, ev, chains).len() ==> 2 <= (#[trigger] spec_chain_scan(
                b,
                k,
                ev,
                chains,
            )[i]).len() <= 10,
    decreases 9 - k,
{
    if k < 9 {
        if ev[k] {
            lemma_chain_scan(b, k + 1, ev, chains);
        } else if spec_chain_seed(b[k]) {
            let ev1 = ev.update(k, true);
            let g = spec_grow(b, ev1, seq![b[k]], spec_next_chain_tile(b, b[k], None));
            lemma_grow(b, ev1, seq![b[k]], spec_next_chain_tile(b, b[k], None));
            lemma_unvisited_bound(ev1);
            let c2 = match g.1 {
                Some(c) => chains.push(c),
                None => chains,
            };
            lemma_chain_scan(b, k + 1, g.0, c2);
        } else {
            lemma_chain_scan(b, k + 1, ev, chains);
        }
    }
}

/// The scan finds at most nine chains, each of two to ten boxes.
pub proof fn lemma_chains_bounded(b: Seq<Tile>)
    ensures
        spec_chains(b).len() <= 9,
        forall|i: int| 0 <= i < spec_chains(b).len() ==> 2 <= (#[trigger] spec_chains(b)[i]).len() <= 10,
{
    lemma_chain_scan(b, 0, spec_fresh(), seq![]);
}

/// The first side of `t` from the `j`-th on, in enumeration order, other
/// than the way back through `without`, that leads to a neighbour over an
/// undrawn wall; with that neighbour's index.
pub open spec fn spec_connected_from(b: Seq<Tile>, t: Tile, without: Option<Position>, j: int) -> Option<
    (TileIndex, Position),
>
    decreases 4 - j,
{
    if j < 0 || j >= 4 {
        None
    } else {
        let pos = spec_position_at(j);
        let excluded = match without {
            Some(w) => pos == w.spec_invert(),
            None => false,
        };
        if !excluded && t.spec_at(pos) is Some && t.spec_connected_to(
            spec_tile_at(b, t.spec_at(pos).unwrap()),
        ) {
            Some((t.spec_at(pos).unwrap(), pos))
        } else {
            spec_connected_from(b, t, without, j + 1)
        }
    }
}

pub open spec fn spec_connected_neighbor(b: Seq<Tile>, t: Tile, without: Option<Position>) -> Option<
    (TileIndex, Position),
> {
    spec_connected_from(b, t, without, 0)
}

/// The longest walk a loop probe takes: a cycle on the 3×3 grid has at most
/// eight boxes.
pub const PROBE_STEPS: usize = 9;

/// Walks from `cur` (reached through side `last_pos` of the box before it)
/// along undrawn walls, never straight back, with `tiles` the boxes walked
/// so far from `origin`. Gives the loop if the walk comes back to `origin`
/// through corridor boxes alone, within `fuel` steps, with at least four
/// boxes.
pub open spec fn spec_probe(
    b: Seq<Tile>,
    origin: TileIndex,
    cur: Tile,
    last_pos: Option<Position>,
    tiles: Seq<Tile>,
    fuel: nat,
) -> Option<Seq<Tile>>
    decreases fuel,
{
    if fuel == 0 {
        None
    } else {
        match spec_connected_neighbor(b, cur, last_pos) {
            None => None,
            Some(np) => if np.0 == origin {
                if tiles.len() >= 4 {
                    Some(tiles)
                } else {
                    None
                }
            } else {
                let nt = spec_tile_at(b, np.0);
                if nt.spec_is_path() {
                    spec_probe(b, origin, nt, Some(np.1), tiles.push(nt), (fuel - 1) as nat)
                } else {
                    None
                }
            },
        }
    }
}

/// `ev` with the boxes of `tiles` set.
pub open spec fn spec_mark_tiles(ev: Seq<bool>, tiles: Seq<Tile>) -> Seq<bool>
    decreases tiles.len(),
{
    if tiles.len() == 0 {
        ev
    } else {
        let m = spec_mark_tiles(ev, tiles.drop_last());
        let k = spec_slot(tiles.last().index);
        if 0 <= k < m.len() {
            m.update(k, true)
        } else {
            m
        }
    }
}

/// The loop scan from box `k` on (row-major order), with visited boxes
/// `ev` and the loops found so far. A probe that fails leaves the visited
/// boxes as they were before it, but for its starting box.
pub open spec fn spec_loop_scan(b: Seq<Tile>, k: int, ev: Seq<bool>, loops: Seq<Seq<Tile>>) -> Seq<
    Seq<Tile>,
>
    decreases 9 - k,
{
    if k < 0 || k >= 9 {
        loops
    } else if ev[k] {
        spec_loop_scan(b, k + 1, ev, loops)
    } else {
        let ev1 = ev.update(k, true);
        if !b[k].spec_is_path() {
            spec_loop_scan(b, k + 1, ev1, loops)
        } else {
            match spec_probe(b, b[k].index, b[k], None, seq![b[k]], PROBE_STEPS as nat) {
                Some(lp) => spec_loop_scan(b, k + 1, spec_mark_tiles(ev1, lp), loops.push(lp)),
                None => spec_loop_scan(b, k + 1, ev1, loops),
            }
        }
    }
}

/// The loops of the board, as found by one scan of its boxes.
pub open spec fn spec_loops(b: Seq<Tile>) -> Seq<Seq<Tile>> {
    spec_loop_scan(b, 0, spec_fresh(), seq![])
}

proof fn lemma_mark_tiles_len(ev: Seq<bool>, tiles: Seq<Tile>)
    ensures
        spec_mark_tiles(ev, tiles).len() == ev.len(),
    decreases tiles.len(),
{
    if tiles.len() > 0 {
        lemma_mark_tiles_len(ev, tiles.drop_last());
    }
}

proof fn lemma_probe(
    b: Seq<Tile>,
    origin: TileIndex,
    cur: Tile,
    last_pos: Option<Position>,
    tiles: Seq<Tile>,
    fuel: nat,
)
    ensures
        spec_probe(b, origin, cur, last_pos, tiles, fuel) matches Some(lp) ==> 4 <= lp.len() <= tiles.len()
            + fuel,
    decreases fuel,
{
    if fuel > 0 {
        if let Some(np) = spec_connected_neighbor(b, cur, last_pos) {
            if np.0 != origin {
                let nt = spec_tile_at(b, np.0);
                lemma_probe(b, origin, nt, Some(np.1), tiles.push(nt), (fuel - 1) as nat);
            }
        }
    }
}

proof fn lemma_loop_scan(b: Seq<Tile>, k: int, ev: Seq<bool>, loops: Seq<Seq<Tile>>)
    requires
        ev.len() == 9,
        0 <= k <= 9,
        forall|i: int| 0 <= i < loops.len() ==> 4 <= (#[trigger] loops[i]).len() <= 10,
    ensures
        spec_loop_scan(b, k, ev, loops).len() <= loops.len() + 9 - k,
        forall|i: int|
            0 <= i < spec_loop_scan(b, k, ev, loops).len() ==> 4 <= (#[trigger] spec_loop_scan(
                b,
                k,
                ev,
                loops,
            )[i]).len() <= 10,
    decreases 9 - k,
{
    if k < 9 {
        if ev[k] {
            lemma_loop_scan(b, k + 1, ev, loops);
        } else {
            let ev1 = ev.update(k, true);
            if !b[k].spec_is_path() {
                lemma_loop_scan(b, k + 1, ev1, loops);
            } else {
                lemma_probe(b, b[k].index, b[k], None, seq![b[k]], PROBE_STEPS as nat);
                match spec_probe(b, b[k].index, b[k], None, seq![b[k]], PROBE_STEPS as nat) {
                    Some(lp) => {
                        lemma_mark_tiles_len(ev1, lp);
                        lemma_loop_scan(b, k + 1, spec_mark_tiles(ev1, lp), loops.push(lp));
                    },
                    None => {
                        lemma_loop_scan(b, k + 1, ev1, loops);
                    },
                }
            }
        }
    }
}

/// The scan finds at most nine loops, each of four to ten boxes.
pub proof fn lemma_loops_bounded(b: Seq<Tile>)
    ensures
        spec_loops(b).len() <= 9,
        forall|i: int| 0 <= i < spec_loops(b).len() ==> 4 <= (#[trigger] spec_loops(b)[i]).len() <= 10,
{
    lemma_loop_scan(b, 0, spec_fresh(), seq![]);
}

/// On a consistent board, an undrawn wall links its two boxes both ways.
pub proof fn lemma_connected_symmetric(b: Seq<Tile>, x: TileIndex, y: TileIndex)
    requires
        spec_board_wf(b),
        spec_valid_index(x),
        spec_valid_index(y),
        spec_tile_at(b, x).spec_connected_to(spec_tile_at(b, y)),
    ensures
        spec_tile_at(b, y).spec_connected_to(spec_tile_at(b, x)),
{
    let p = spec_tile_at(b, x).spec_relative_position(spec_tile_at(b, y)).unwrap();
    lemma_mirror(b, x, p);
}

impl Board {
    pub open spec fn wf(&self) -> bool {
        spec_board_wf(self@)
    }

    /// A board with no wall drawn.
    pub fn new() -> (r: Self)
        ensures
            r.wf(),
            forall|k: int| 0 <= k < 9 ==> (#[trigger] r@[k]).spec_open_count() == 4,
            spec_edges_left(r@) == 24,
    {
        let tiles: [Tile; 9] = [
            Tile::new((0, 0)),
            Tile::new((0, 1)),
            Tile::new((0, 2)),
            Tile::new((1, 0)),
            Tile::new((1, 1)),
            Tile::new((1, 2)),
            Tile::new((2, 0)),
            Tile::new((2, 1)),
            Tile::new((2, 2)),
        ];
        let r = Self { tiles };
        proof {
            assert(r@ == tiles@);
        }
        r
    }

    /// A copy of box `index`.
    fn get_tile(&self, index: TileIndex) -> (r: Tile)
        requires
            self.wf(),
            spec_valid_index(index),
        ensures
            r == spec_tile_at(self@, index),
            r.wf(),
            r.index == index,
    {
        self.tiles[3 * index.0 + index.1]
    }

    /// Draws wall `pos` of box `index`, and the same wall as seen from the
    /// neighbouring box if there is one.
    pub fn mark(&mut self, index: TileIndex, pos: Position)
        requires
            old(self).wf(),
            spec_valid_index(index),
        ensures
            final(self).wf(),
            final(self)@ == spec_board_mark(old(self)@, index, pos),
    {
        let k = 3 * index.0 + index.1;
        let mut tile = self.tiles[k];
        tile.mark(pos);
        self.tiles[k] = tile;
        if tile.has_neighbor(pos) {
            let n = tile.at_unchecked(pos);
            let m = 3 * n.0 + n.1;
            let mut neighbor = self.tiles[m];
            neighbor.mark(pos.invert());
            self.tiles[m] = neighbor;
        }
        proof {
            assert(self@ =~= spec_board_mark(old(self)@, index, pos));
            lemma_mark_keeps_wf(old(self)@, index, pos);
        }
    }

    /// For each box, whether all four of its walls are drawn.
    pub fn acquisitions(&self) -> (r: Vec<Vec<bool>>)
        requires
            self.wf(),
        ensures
            r@.len() == 3,
            forall|x: int| 0 <= x < 3 ==> (#[trigger] r@[x])@.len() == 3,
            forall|x: int, y: int|
                0 <= x < 3 && 0 <= y < 3 ==> (#[trigger] r@[x]@[y]) == (self@[3 * x + y].spec_open_count()
                    == 0),
    {
        let mut rows: Vec<Vec<bool>> = Vec::new();
        let mut x: usize = 0;
        while x < 3
            invariant
                x <= 3,
                rows@.len() == x,
                self.wf(),
                forall|i: int| 0 <= i < x ==> (#[trigger] rows@[i])@.len() == 3,
                forall|i: int, y: int|
                    0 <= i < x && 0 <= y < 3 ==> (#[trigger] rows@[i]@[y]) == (self@[3 * i + y].spec_open_count()
                        == 0),
            decreases 3 - x,
        {
            let mut row: Vec<bool> = Vec::new();
            let mut y: usize = 0;
            while y < 3
                invariant
                    x < 3,
                    y <= 3,
                    row@.len() == y,
                    self.wf(),
                    forall|j: int| 0 <= j < y ==> (#[trigger] row@[j]) == (self@[3 * x + j].spec_open_count() == 0),
                decreases 3 - y,
            {
                row.push(self.tiles[3 * x + y].config.open_count() == 0);
                y = y + 1;
            }
            rows.push(row);
            x = x + 1;
        }
        rows
    }

    /// The number of end boxes whose one undrawn wall faces the boundary.
    pub fn free_edge_squares(&mut self) -> (r: i32)
        requires
            old(self).wf(),
        ensures
            *final(self) == *old(self),
            r == spec_free_edge_squares(old(self)@),
    {
        let mut sq: i32 = 0;
        let mut k: usize = 0;
        while k < 9
            invariant
                k <= 9,
                self.wf(),
                sq == spec_count_tiles(self@, |t: Tile| spec_free_edge_square(t), k as int),
            decreases 9 - k,
        {
            proof {
                lemma_count_tiles_bounds(self@, |t: Tile| spec_free_edge_square(t), k as int);
            }
            let tile = self.tiles[k];
            if tile.is_end() {
                let openings = tile.openings();
                let opening = openings[0];
                if !tile.has_neighbor(opening) {
                    sq = sq + 1;
                }
            }
            k = k + 1;
        }
        sq
    }

    fn will_make_end(&self, tile: &Tile, mark_pos: Position) -> (r: bool)
        requires
            self.wf(),
            tile.wf(),
        ensures
            r == spec_will_make_end(self@, *tile, mark_pos),
    {
        if tile.is_path() && tile.is_open(mark_pos) {
            return true;
        }
        if tile.has_neighbor(mark_pos) {
            let neighbor = self.get_tile(tile.at_unchecked(mark_pos));
            if neighbor.is_path() && neighbor.is_open(mark_pos.invert()) {
                return true;
            }
        }
        false
    }

    /// The number of walls, each counted once, whose drawing would not leave
    /// a box with a single undrawn wall.
    pub fn safe_moves_count(&mut self) -> (r: i32)
        requires
            old(self).wf(),
        ensures
            *final(self) == *old(self),
            r == spec_safe_moves_count(old(self)@),
    {
        let mut safe_moves: i32 = 0;
        let mut k: usize = 0;
        while k < 9
            invariant
                k <= 9,
                self.wf(),
                safe_moves == spec_safe_moves(self@, k as int),
            decreases 9 - k,
        {
            let tile = self.tiles[k];
            let x = k / 3;
            let y = k % 3;
            assert(tile.index == (x, y));
            let mut i: usize = 0;
            while i < 4
                invariant
                    k < 9,
                    i <= 4,
                    self.wf(),
                    tile == self@[k as int],
                    tile.index == (x, y),
                    safe_moves == spec_safe_moves(self@, k as int) + spec_safe_in_tile(self@, tile, i as int),
                decreases 4 - i,
            {
                proof {
                    lemma_safe_moves_bounds(self@, k as int);
                    lemma_safe_in_tile_bounds(self@, tile, i as int);
                }
                let pos = position_at(i);
                let skip = (x == 1 && pos.is_vertical()) || (y == 1 && pos.is_horizontal());
                if !skip && !self.will_make_end(&tile, pos) {
                    safe_moves = safe_moves + 1;
                }
                i = i + 1;
            }
            k = k + 1;
        }
        safe_moves
    }

    /// The box that extends a chain whose last box is `last_tile`, reached
    /// through side `last_pos` of the box before it, with the side that
    /// leads to it.
    fn next_chain_tile(&self, last_tile: &Tile, last_pos: Option<Position>) -> (r: Option<(TileIndex, Position)>)
        requires
            self.wf(),
            last_tile.wf(),
        ensures
            r == spec_next_chain_tile(self@, *last_tile, last_pos),
            r matches Some(np) ==> spec_valid_index(np.0) && last_tile.spec_at(np.1) == Some(np.0)
                && last_tile.spec_is_open(np.1)
                && spec_tile_at(self@, np.0).spec_can_be_chained(),
    {
        let openings = last_tile.openings();
        let cand: Option<Position> = if openings.len() == 1 {
            if last_pos.is_some() {
                None
            } else {
                Some(openings[0])
            }
        } else if openings.len() == 2 {
            match last_pos {
                Some(lp) => Some(
                    if openings[0] == lp.invert() {
                        openings[1]
                    } else {
                        openings[0]
                    },
                ),
                None => if last_tile.is_edge_path_chain_end() {
                    Some(last_tile.get_edge_path_chain_pos())
                } else {
                    None
                },
            }
        } else {
            None
        };
        match cand {
            None => None,
            Some(p) => match last_tile.at(p) {
                None => None,
                Some(n) => if self.get_tile(n).can_be_chained() {
                    Some((n, p))
                } else {
                    None
                },
            },
        }
    }

    /// The chains of the board, found by one scan of its boxes in row-major
    /// order; each box belongs to at most one chain.
    pub fn get_chains(&mut self) -> (r: Vec<Chain>)
        requires
            old(self).wf(),
        ensures
            *final(self) == *old(self),
            r@.len() == spec_chains(old(self)@).len(),
            forall|i: int|
                0 <= i < r@.len() ==> (#[trigger] r@[i]).wf() && r@[i].tiles@ == spec_chains(old(self)@)[i],
            r@.len() <= 9,
            forall|i: int| 0 <= i < r@.len() ==> (#[trigger] r@[i]).tiles@.len() <= 10,
    {
        let ghost b = self@;
        let mut has_evaluated: [bool; 9] = [false; 9];
        let mut chains: Vec<Chain> = Vec::new();
        let ghost mut found: Seq<Seq<Tile>> = seq![];
        proof {
            assert(has_evaluated@ =~= spec_fresh());
        }
        let mut k: usize = 0;
        while k < 9
            invariant
                k <= 9,
                self.wf(),
                self@ == b,
                has_evaluated@.len() == 9,
                chains@.len() == found.len(),
                forall|i: int| 0 <= i < chains@.len() ==> (#[trigger] chains@[i]).wf() && chains@[i].tiles@ == found[i],
                spec_chain_scan(b, k as int, has_evaluated@, found) == spec_chains(b),
            decreases 9 - k,
        {
            if !has_evaluated[k] {
                let tile = self.tiles[k];
                if tile.is_end() || tile.is_edge_path_chain_end() {
                    has_evaluated[k] = true;
                    let ghost ev1 = has_evaluated@;
                    let mut builder = ChainBuilder::new(tile);
                    let mut next = self.next_chain_tile(&tile, None);
                    let ghost target = spec_grow(b, ev1, seq![tile], next);
                    let mut discarded = false;
                    let mut done = false;
                    while !done
                        invariant
                            self.wf(),
                            self@ == b,
                            has_evaluated@.len() == 9,
                            builder.wf(),
                            done ==> target == (has_evaluated@, if !discarded && builder.tiles@.len() >= 2 {
                                Some(builder.tiles@)
                            } else {
                                None
                            }),
                            !done ==> !discarded,
                            !done ==> spec_grow(b, has_evaluated@, builder.tiles@, next) == target,
                            !done ==> (next matches Some(np) ==> spec_valid_index(np.0)
                                && builder.tiles@.last().spec_at(np.1) == Some(np.0)
                                && builder.tiles@.last().spec_is_open(np.1)
                                && spec_tile_at(b, np.0).spec_can_be_chained()),
                        decreases spec_unvisited(has_evaluated@), if done { 0int } else { 1int },
                    {
                        match next {
                            None => {
                                proof {
                                    assert(spec_grow(b, has_evaluated@, builder.tiles@, next) == (
                                    has_evaluated@, if builder.tiles@.len() >= 2 {
                                        Some(builder.tiles@)
                                    } else {
                                        None
                                    }));
                                }
                                done = true;
                            },
                            Some((index, pos)) => {
                                let m = 3 * index.0 + index.1;
                                if has_evaluated[m] {
                                    proof {
                                        assert(spec_slot(index) == m);
                                        assert(spec_grow(b, has_evaluated@, builder.tiles@, next) == (
                                        has_evaluated@, None::<Seq<Tile>>));
                                    }
                                    discarded = true;
                                    done = true;
                                } else {
                                    proof {
                                        lemma_unvisited_update(has_evaluated@, m as int);
                                        lemma_tile_at(b, index);
                                    }
                                    has_evaluated[m] = true;
                                    let nt = self.tiles[m];
                                    proof {
                                        lemma_open_side_connects(builder.tiles@.last(), nt, pos);
                                    }
                                    builder.add(&nt);
                                    next = self.next_chain_tile(&nt, Some(pos));
                                }
                            },
                        }
                    }
                    if !discarded && builder.tiles.len() >= 2 {
                        let chain = builder.build();
                        proof {
                            found = found.push(chain.tiles@);
                        }
                        chains.push(chain);
                    }
                }
            }
            k = k + 1;
        }
        proof {
            lemma_chains_bounded(b);
        }
        chains
    }


    /// The first neighbour of `tile`, sides taken in enumeration order and
    /// the way back through `without` left out, that lies across an undrawn
    /// wall; with the side that leads to it.
    fn get_connected_neighbor(&self, tile: &Tile, without: Option<Position>) -> (r: Option<(TileIndex, Position)>)
        requires
            self.wf(),
            tile.wf(),
        ensures
            r == spec_connected_neighbor(self@, *tile, without),
            r matches Some(np) ==> spec_valid_index(np.0) && tile.spec_connected_to(spec_tile_at(self@, np.0))
                && tile.spec_at(np.1) == Some(np.0),
    {
        let mut j: usize = 0;
        while j < 4
            invariant
                j <= 4,
                self.wf(),
                tile.wf(),
                spec_connected_from(self@, *tile, without, j as int) == spec_connected_neighbor(
                    self@,
                    *tile,
                    without,
                ),
            decreases 4 - j,
        {
            let pos = position_at(j);
            let excluded = match without {
                Some(w) => pos == w.invert(),
                None => false,
            };
            if !excluded {
                if let Some(n) = tile.at(pos) {
                    let neighbor = self.get_tile(n);
                    if tile.connected_to(&neighbor) {
                        return Some((n, pos));
                    }
                }
            }
            j = j + 1;
        }
        None
    }

    /// The loops of the board, found by one scan of its boxes in row-major
    /// order: from each unvisited corridor box, a walk along undrawn walls
    /// that must come back to it through corridor boxes alone.
    pub fn get_loops(&mut self) -> (r: Vec<Loop>)
        requires
            old(self).wf(),
        ensures
            *final(self) == *old(self),
            r@.len() == spec_loops(old(self)@).len(),
            forall|i: int|
                0 <= i < r@.len() ==> (#[trigger] r@[i]).wf() && r@[i].tiles@ == spec_loops(old(self)@)[i],
            r@.len() <= 9,
            forall|i: int| 0 <= i < r@.len() ==> 4 <= (#[trigger] r@[i]).tiles@.len() <= 10,
    {
        let ghost b = self@;
        let mut has_evaluated: [bool; 9] = [false; 9];
        let mut loops: Vec<Loop> = Vec::new();
        let ghost mut found: Seq<Seq<Tile>> = seq![];
        proof {
            assert(has_evaluated@ =~= spec_fresh());
        }
        let mut k: usize = 0;
        while k < 9
            invariant
                k <= 9,
                self.wf(),
                self@ == b,
                has_evaluated@.len() == 9,
                loops@.len() == found.len(),
                forall|i: int| 0 <= i < loops@.len() ==> (#[trigger] loops@[i]).wf() && loops@[i].tiles@ == found[i],
                spec_loop_scan(b, k as int, has_evaluated@, found) == spec_loops(b),
            decreases 9 - k,
        {
            if !has_evaluated[k] {
                has_evaluated[k] = true;
                let tile = self.tiles[k];
                if tile.is_path() {
                    let saved = has_evaluated;
                    let origin = tile.index();
                    let mut builder = LoopBuilder::new(tile);
                    let mut cur = tile;
                    let mut last_pos: Option<Position> = None;
                    let mut steps: usize = 0;
                    let mut is_loop = false;
                    let mut done = false;
                    let ghost target = spec_probe(b, origin, tile, None, seq![tile], PROBE_STEPS as nat);
                    proof {
                        lemma_slot(b, k as int);
                        assert(builder.tiles@.last() == cur);
                        assert(builder.tiles@.drop_last() =~= Seq::<Tile>::empty());
                        assert(spec_mark_tiles(saved@, Seq::<Tile>::empty()) == saved@);
                        assert(spec_mark_tiles(saved@, builder.tiles@) == saved@.update(k as int, true));
                        assert(saved@.update(k as int, true) =~= saved@);
                    }
                    while !done && steps < PROBE_STEPS
                        invariant
                            self.wf(),
                            self@ == b,
                            k < 9,
                            tile == b[k as int],
                            origin == tile.index,
                            saved@.len() == 9,
                            saved@[k as int],
                            steps <= PROBE_STEPS,
                            builder.wf(),
                            builder.tiles@[0] == tile,
                            builder.tiles@.last() == cur,
                            cur.wf(),
                            cur == spec_tile_at(b, cur.index),
                            tile == spec_tile_at(b, origin),
                            has_evaluated@ == spec_mark_tiles(saved@, builder.tiles@),
                            done ==> (target == (if is_loop {
                                Some(builder.tiles@)
                            } else {
                                None
                            })),
                            done && is_loop ==> cur.spec_connected_to(tile) && builder.tiles@.len() >= 4,
                            !done ==> !is_loop,
                            !done ==> spec_probe(b, origin, cur, last_pos, builder.tiles@, (PROBE_STEPS - steps) as nat)
                                == target,
                        decreases PROBE_STEPS - steps, if done { 0int } else { 1int },
                    {
                        match self.get_connected_neighbor(&cur, last_pos) {
                            None => {
                                done = true;
                            },
                            Some((n, p)) => {
                                if n.0 == origin.0 && n.1 == origin.1 {
                                    if builder.tiles.len() >= 4 {
                                        is_loop = true;
                                    }
                                    done = true;
                                } else {
                                    let nt = self.get_tile(n);
                                    if !nt.is_path() {
                                        done = true;
                                    } else {
                                        proof {
                                            lemma_tile_at(b, n);
                                        }
                                        has_evaluated[3 * n.0 + n.1] = true;
                                        let ghost before = builder.tiles@;
                                        builder.add(&nt);
                                        proof {
                                            assert(builder.tiles@.drop_last() =~= before);
                                        }
                                        cur = nt;
                                        last_pos = Some(p);
                                        steps = steps + 1;
                                    }
                                }
                            },
                        }
                    }
                    if is_loop {
                        proof {
                            lemma_tile_at(b, origin);
                            lemma_tile_at(b, cur.index);
                            lemma_connected_symmetric(b, cur.index, origin);
                        }
                        let lp = builder.build();
                        proof {
                            found = found.push(lp.tiles@);
                        }
                        loops.push(lp);
                    } else {
                        has_evaluated = saved;
                    }
                }
            }
            k = k + 1;
        }
        proof {
            lemma_loops_bounded(b);
        }
        loops
    }

}

} // verus!
