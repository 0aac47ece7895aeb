//! What the chain and loop scans find: simple, linked structures that
//! share no box.

use vstd::prelude::*;
use vstd::set_lib::{lemma_int_range, lemma_len_subset, set_int_range};
use crate::board::{
    lemma_connected_symmetric, lemma_slot, lemma_tile_at, spec_board_wf, spec_chain_scan, spec_chain_seed,
    spec_chains, spec_connected_from, spec_connected_neighbor, spec_fresh, spec_grow, spec_loop_scan, spec_loops,
    spec_mark_tiles, spec_next_chain_tile, spec_probe, spec_slot, spec_tile_at, PROBE_STEPS,
};
use crate::tile::{
    lemma_open_side_connects, lemma_openings, lemma_path_closure, lemma_step_injective, spec_position_at,
    spec_valid_index, Position, Tile, TileIndex,
};

verus! {

/// `t` is the box that the board holds at its index.
pub open spec fn spec_on_board(b: Seq<Tile>, t: Tile) -> bool {
    spec_valid_index(t.index) && spec_tile_at(b, t.index) == t
}

/// A chain as the scan grows it: boxes of the board that can be chained, the
/// first a seed, each linked to the next by an undrawn wall.
pub open spec fn spec_chain_linked(b: Seq<Tile>, c: Seq<Tile>) -> bool {
    &&& c.len() >= 1
    &&& forall|a: int| 0 <= a < c.len() ==> spec_on_board(b, #[trigger] c[a]) && c[a].spec_can_be_chained()
    &&& forall|a: int| 0 <= a < c.len() - 1 ==> (#[trigger] c[a]).spec_connected_to(c[a + 1])
    &&& spec_chain_seed(c[0])
}

/// No two entries of `c` are the same box.
pub open spec fn spec_distinct(c: Seq<Tile>) -> bool {
    forall|a: int, d: int|
        0 <= a < c.len() && 0 <= d < c.len() && a != d ==> (#[trigger] c[a]).index != (#[trigger] c[d]).index
}

/// A simple cycle of at least four corridor boxes of the board, each linked
/// to the next and the last to the first.
pub open spec fn spec_loop_ok(b: Seq<Tile>, l: Seq<Tile>) -> bool {
    &&& l.len() >= 4
    &&& forall|a: int| 0 <= a < l.len() ==> spec_on_board(b, #[trigger] l[a]) && l[a].spec_is_path()
    &&& forall|a: int| 0 <= a < l.len() - 1 ==> (#[trigger] l[a]).spec_connected_to(l[a + 1])
    &&& l[l.len() - 1].spec_connected_to(l[0])
    &&& spec_distinct(l)
}

/// No box appears twice among the structures `ss`, within one or across two.
pub open spec fn spec_no_shared_box(ss: Seq<Seq<Tile>>) -> bool {
    forall|i: int, a: int, j: int, d: int|
        0 <= i < ss.len() && 0 <= j < ss.len() && 0 <= a < ss[i].len() && 0 <= d < ss[j].len() && (i != j || a
            != d) ==> (#[trigger] ss[i][a]).index != (#[trigger] ss[j][d]).index
}

/// Every box of the structures `ss` is on the grid and set in `ev`.
pub open spec fn spec_all_marked(ss: Seq<Seq<Tile>>, ev: Seq<bool>) -> bool {
    forall|i: int, a: int|
        0 <= i < ss.len() && 0 <= a < ss[i].len() ==> spec_valid_index((#[trigger] ss[i][a]).index) && ev[spec_slot(
            ss[i][a].index,
        )]
}

proof fn lemma_slot_injective(x: TileIndex, y: TileIndex)
    requires
        spec_valid_index(x),
        spec_valid_index(y),
        spec_slot(x) == spec_slot(y),
    ensures
        x == y,
{
}

proof fn lemma_next_chain_tile(b: Seq<Tile>, t: Tile, lp: Option<Position>)
    requires
        spec_board_wf(b),
        t.wf(),
    ensures
        spec_next_chain_tile(b, t, lp) matches Some(np) ==> spec_valid_index(np.0) && t.spec_at(np.1) == Some(
            np.0,
        ) && t.spec_is_open(np.1) && spec_tile_at(b, np.0).spec_can_be_chained(),
{
    lemma_openings(t);
    lemma_step_injective(t, Position::Top, Position::Top);
    lemma_step_injective(t, Position::Bottom, Position::Top);
    lemma_step_injective(t, Position::Left, Position::Top);
    lemma_step_injective(t, Position::Right, Position::Top);
}

proof fn lemma_grow_structure(
    b: Seq<Tile>,
    ev: Seq<bool>,
    acc: Seq<Seq<Tile>>,
    tiles: Seq<Tile>,
    next: Option<(TileIndex, Position)>,
)
    requires
        spec_board_wf(b),
        ev.len() == 9,
        spec_no_shared_box(acc.push(tiles)),
        spec_all_marked(acc.push(tiles), ev),
        spec_chain_linked(b, tiles),
        next matches Some(np) ==> spec_valid_index(np.0) && tiles.last().spec_at(np.1) == Some(np.0)
            && tiles.last().spec_is_open(np.1) && spec_tile_at(b, np.0).spec_can_be_chained(),
    ensures
        spec_grow(b, ev, tiles, next).0.len() == 9,
        spec_all_marked(acc, spec_grow(b, ev, tiles, next).0),
        spec_grow(b, ev, tiles, next).1 matches Some(c) ==> spec_no_shared_box(acc.push(c)) && spec_all_marked(
            acc.push(c),
            spec_grow(b, ev, tiles, next).0,
        ) && spec_chain_linked(b, c),
    decreases crate::board::spec_unvisited(ev),
{
    let ss = acc.push(tiles);
    assert forall|i: int, a: int| 0 <= i < acc.len() && 0 <= a < acc[i].len() implies spec_valid_index(
        (#[trigger] acc[i][a]).index,
    ) && ev[spec_slot(acc[i][a].index)] by {
        assert(ss[i] == acc[i]);
    }
    if let Some(np) = next {
        let k = spec_slot(np.0);
        if 0 <= k < ev.len() && !ev[k] {
            let nt = spec_tile_at(b, np.0);
            let ev2 = ev.update(k, true);
            let tiles2 = tiles.push(nt);
            let ss2 = acc.push(tiles2);
            lemma_tile_at(b, np.0);
            crate::board::lemma_unvisited_update(ev, k);
            let last = tiles.last();
            assert(spec_on_board(b, tiles[tiles.len() - 1]));
            lemma_open_side_connects(last, nt, np.1);
            // the new box is in no structure so far: they are all marked
            assert forall|i: int, a: int|
                0 <= i < ss.len() && 0 <= a < ss[i].len() implies (#[trigger] ss[i][a]).index != np.0 by {
                if ss[i][a].index == np.0 {
                    assert(ev[spec_slot(ss[i][a].index)]);
                }
            }
            assert forall|i: int, a: int, j: int, d: int|
                0 <= i < ss2.len() && 0 <= j < ss2.len() && 0 <= a < ss2[i].len() && 0 <= d < ss2[j].len() && (i
                    != j || a != d) implies (#[trigger] ss2[i][a]).index != (#[trigger] ss2[j][d]).index by {
                let ia = if i == acc.len() && a == tiles.len() { true } else { false };
                let jd = if j == acc.len() && d == tiles.len() { true } else { false };
                if ia && jd {
                } else if ia {
                    assert(ss2[j][d] == ss[j][d]);
                    assert(ss[j][d].index != np.0);
                } else if jd {
                    assert(ss2[i][a] == ss[i][a]);
                    assert(ss[i][a].index != np.0);
                } else {
                    assert(ss2[i][a] == ss[i][a]);
                    assert(ss2[j][d] == ss[j][d]);
                }
            }
            assert forall|i: int, a: int| 0 <= i < ss2.len() && 0 <= a < ss2[i].len() implies spec_valid_index(
                (#[trigger] ss2[i][a]).index,
            ) && ev2[spec_slot(ss2[i][a].index)] by {
                if i == acc.len() && a == tiles.len() {
                } else {
                    assert(ss2[i][a] == ss[i][a]);
                }
            }
            assert forall|a: int| 0 <= a < tiles2.len() implies spec_on_board(b, #[trigger] tiles2[a])
                && tiles2[a].spec_can_be_chained() by {
                if a < tiles.len() {
                    assert(tiles2[a] == tiles[a]);
                }
            }
            assert forall|a: int| 0 <= a < tiles2.len() - 1 implies (#[trigger] tiles2[a]).spec_connected_to(
                tiles2[a + 1],
            ) by {
                if a < tiles.len() - 1 {
                    assert(tiles2[a] == tiles[a]);
                    assert(tiles2[a + 1] == tiles[a + 1]);
                }
            }
            lemma_next_chain_tile(b, nt, Some(np.1));
            lemma_grow_structure(b, ev2, acc, tiles2, spec_next_chain_tile(b, nt, Some(np.1)));
        }
    }
}

proof fn lemma_chain_scan_structure(b: Seq<Tile>, k: int, ev: Seq<bool>, chains: Seq<Seq<Tile>>)
    requires
        spec_board_wf(b),
        ev.len() == 9,
        0 <= k <= 9,
        spec_no_shared_box(chains),
        spec_all_marked(chains, ev),
        forall|i: int| 0 <= i < chains.len() ==> spec_chain_linked(b, #[trigger] chains[i]),
    ensures
        spec_no_shared_box(spec_chain_scan(b, k, ev, chains)),
        forall|i: int|
            0 <= i < spec_chain_scan(b, k, ev, chains).len() ==> spec_chain_linked(
                b,
                #[trigger] spec_chain_scan(b, k, ev, chains)[i],
            ),
    decreases 9 - k,
{
    if k < 9 {
        if ev[k] {
            lemma_chain_scan_structure(b, k + 1, ev, chains);
        } else if spec_chain_seed(b[k]) {
            lemma_slot(b, k);
            let t = b[k];
            let ev1 = ev.update(k, true);
            let tiles = seq![t];
            let ss = chains.push(tiles);
            assert forall|i: int, a: int|
                0 <= i < chains.len() && 0 <= a < chains[i].len() implies (#[trigger] chains[i][a]).index != t.index by {
                if chains[i][a].index == t.index {
                    assert(ev[spec_slot(chains[i][a].index)]);
                }
            }
            assert forall|i: int, a: int, j: int, d: int|
                0 <= i < ss.len() && 0 <= j < ss.len() && 0 <= a < ss[i].len() && 0 <= d < ss[j].len() && (i != j
                    || a != d) implies (#[trigger] ss[i][a]).index != (#[trigger] ss[j][d]).index by {
                if i == chains.len() && j == chains.len() {
                } else if i == chains.len() {
                    assert(ss[j][d] == chains[j][d]);
                } else if j == chains.len() {
                    assert(ss[i][a] == chains[i][a]);
                } else {
                    assert(ss[i][a] == chains[i][a]);
                    assert(ss[j][d] == chains[j][d]);
                }
            }
            assert forall|i: int, a: int| 0 <= i < ss.len() && 0 <= a < ss[i].len() implies spec_valid_index(
                (#[trigger] ss[i][a]).index,
            ) && ev1[spec_slot(ss[i][a].index)] by {
                if i < chains.len() {
                    assert(ss[i][a] == chains[i][a]);
                }
            }
            assert(spec_chain_linked(b, tiles));
            lemma_next_chain_tile(b, t, None);
            let next = spec_next_chain_tile(b, t, None);
            lemma_grow_structure(b, ev1, chains, tiles, next);
            let g = spec_grow(b, ev1, tiles, next);
            match g.1 {
                Some(c) => {
                    let c2 = chains.push(c);
                    assert forall|i: int| 0 <= i < c2.len() implies spec_chain_linked(b, #[trigger] c2[i]) by {
                        if i < chains.len() {
                            assert(c2[i] == chains[i]);
                        }
                    }
                    lemma_chain_scan_structure(b, k + 1, g.0, c2);
                },
                None => {
                    lemma_chain_scan_structure(b, k + 1, g.0, chains);
                },
            }
        } else {
            lemma_chain_scan_structure(b, k + 1, ev, chains);
        }
    }
}

/// The box before `a` on a cycle of `n` boxes.
pub open spec fn spec_cycle_prev(a: int, n: int) -> int {
    if a == 0 {
        n - 1
    } else {
        a - 1
    }
}

/// The box after `a` on a cycle of `n` boxes.
pub open spec fn spec_cycle_next(a: int, n: int) -> int {
    if a == n - 1 {
        0
    } else {
        a + 1
    }
}

/// Every undrawn side of a box of a loop leads to the box before it or the
/// box after it on the loop.
pub proof fn lemma_loop_closure(b: Seq<Tile>, l: Seq<Tile>, a: int, pos: Position)
    requires
        spec_board_wf(b),
        spec_loop_ok(b, l),
        0 <= a < l.len(),
        l[a].spec_is_open(pos),
    ensures
        l[a].spec_at(pos) == Some(l[spec_cycle_prev(a, l.len() as int)].index) || l[a].spec_at(pos) == Some(
            l[spec_cycle_next(a, l.len() as int)].index,
        ),
{
    let n = l.len() as int;
    let p = spec_cycle_prev(a, n);
    let q = spec_cycle_next(a, n);
    assert(spec_on_board(b, l[a]));
    assert(spec_on_board(b, l[p]));
    assert(spec_on_board(b, l[q]));
    assert(l[p].spec_connected_to(l[a]));
    assert(l[a].spec_connected_to(l[q]));
    lemma_connected_symmetric(b, l[p].index, l[a].index);
    assert(p != q);
    assert(l[p].index != l[q].index);
    lemma_path_closure(l[a], l[p], l[q], pos);
}

/// A box of the board linked to a box of a loop is on that loop.
#[verifier::spinoff_prover]
proof fn lemma_linked_to_loop(b: Seq<Tile>, l: Seq<Tile>, a: int, x: Tile)
    requires
        spec_board_wf(b),
        spec_loop_ok(b, l),
        0 <= a < l.len(),
        spec_on_board(b, x),
        x.spec_connected_to(l[a]),
    ensures
        x.index == l[spec_cycle_prev(a, l.len() as int)].index || x.index == l[spec_cycle_next(
            a,
            l.len() as int,
        )].index,
{
    let la = l[a];
    assert(spec_on_board(b, la));
    assert(spec_tile_at(b, x.index).spec_connected_to(spec_tile_at(b, la.index)));
    lemma_connected_symmetric(b, x.index, la.index);
    assert(la.spec_connected_to(x));
    let q = la.spec_relative_position(x).unwrap();
    assert(la.spec_at(q) == Some(x.index));
    assert(la.spec_is_open(q));
    lemma_loop_closure(b, l, a, q);
}

proof fn lemma_connected_from(b: Seq<Tile>, t: Tile, without: Option<Position>, j: int)
    requires
        spec_board_wf(b),
        t.wf(),
    ensures
        spec_connected_from(b, t, without, j) matches Some(np) ==> spec_valid_index(np.0) && t.spec_at(np.1)
            == Some(np.0) && t.spec_connected_to(spec_tile_at(b, np.0)) && (without matches Some(w) ==> np.1
            != w.spec_invert()),
    decreases 4 - j,
{
    if 0 <= j < 4 {
        lemma_step_injective(t, spec_position_at(j), Position::Top);
        lemma_connected_from(b, t, without, j + 1);
    }
}

/// The facts about a walk of the loop probe, `tiles` from the start box to
/// `cur`, reached through side `lp` of the box before it.
pub open spec fn spec_walk(b: Seq<Tile>, cur: Tile, lp: Option<Position>, tiles: Seq<Tile>) -> bool {
    &&& tiles.len() >= 1
    &&& cur == tiles.last()
    &&& forall|a: int| 0 <= a < tiles.len() ==> spec_on_board(b, #[trigger] tiles[a]) && tiles[a].spec_is_path()
    &&& forall|a: int| 0 <= a < tiles.len() - 1 ==> (#[trigger] tiles[a]).spec_connected_to(tiles[a + 1])
    &&& spec_distinct(tiles)
    &&& tiles.len() == 1 ==> lp is None
    &&& tiles.len() >= 2 ==> (lp matches Some(d) && tiles[tiles.len() - 2].spec_at(d) == Some(cur.index))
}

/// An inner box of the walk is linked only to the boxes before and after it.
#[verifier::spinoff_prover]
proof fn lemma_walk_inner(b: Seq<Tile>, cur: Tile, lp: Option<Position>, tiles: Seq<Tile>, j: int, x: Tile)
    requires
        spec_board_wf(b),
        spec_walk(b, cur, lp, tiles),
        1 <= j < tiles.len() - 1,
        spec_on_board(b, x),
        x.spec_connected_to(tiles[j]),
    ensures
        x.index == tiles[j - 1].index || x.index == tiles[j + 1].index,
{
    let t0 = tiles[j - 1];
    let t1 = tiles[j];
    let t2 = tiles[j + 1];
    assert(spec_on_board(b, t0));
    assert(spec_on_board(b, t1));
    assert(spec_on_board(b, t2));
    assert(t0.spec_connected_to(t1));
    assert(t1.spec_connected_to(t2));
    assert(t1.spec_is_path());
    lemma_connected_symmetric(b, t0.index, t1.index);
    assert(spec_tile_at(b, x.index).spec_connected_to(spec_tile_at(b, t1.index)));
    lemma_connected_symmetric(b, x.index, t1.index);
    assert(t1.spec_connected_to(x));
    let q = t1.spec_relative_position(x).unwrap();
    assert(t1.spec_at(q) == Some(x.index));
    assert(t1.spec_is_open(q));
    assert(t0.index != t2.index);
    lemma_path_closure(t1, t0, t2, q);
}

/// The box that the walk moves to is not already on it, unless it is the
/// start box.
#[verifier::spinoff_prover]
proof fn lemma_walk_fresh(
    b: Seq<Tile>,
    cur: Tile,
    lp: Option<Position>,
    tiles: Seq<Tile>,
    n: TileIndex,
    p: Position,
)
    requires
        spec_board_wf(b),
        spec_walk(b, cur, lp, tiles),
        spec_valid_index(n),
        cur.spec_at(p) == Some(n),
        cur.spec_connected_to(spec_tile_at(b, n)),
        lp matches Some(w) ==> p != w.spec_invert(),
        n != tiles[0].index,
    ensures
        forall|j: int| 0 <= j < tiles.len() ==> (#[trigger] tiles[j]).index != n,
{
    let m = tiles.len() - 1;
    assert(spec_on_board(b, tiles[m]));
    lemma_step_injective(cur, p, p);
    assert forall|j: int| 0 <= j < tiles.len() implies (#[trigger] tiles[j]).index != n by {
        if tiles[j].index == n && j != 0 && j != m {
            assert(spec_on_board(b, tiles[j]));
            if j == m - 1 {
                let d = lp.unwrap();
                assert(spec_on_board(b, tiles[m - 1]));
                lemma_step_injective(tiles[m - 1], d, d);
                lemma_step_injective(cur, p, d.spec_invert());
            } else {
                assert(spec_tile_at(b, n) == tiles[j]);
                lemma_walk_inner(b, cur, lp, tiles, j, cur);
                assert(tiles[j - 1].index != tiles[m].index);
                assert(tiles[j + 1].index != tiles[m].index);
            }
        }
    }
}

/// The box that the walk moves to is on no earlier loop, since the box it
/// comes from is not.
#[verifier::spinoff_prover]
proof fn lemma_walk_off_loops(b: Seq<Tile>, cur: Tile, n: TileIndex, prev: Seq<Seq<Tile>>)
    requires
        spec_board_wf(b),
        spec_on_board(b, cur),
        spec_valid_index(n),
        cur.spec_connected_to(spec_tile_at(b, n)),
        forall|i: int| 0 <= i < prev.len() ==> spec_loop_ok(b, #[trigger] prev[i]),
        forall|i: int, c: int| 0 <= i < prev.len() && 0 <= c < prev[i].len() ==> (#[trigger] prev[i][c]).index != cur.index,
    ensures
        forall|i: int, c: int| 0 <= i < prev.len() && 0 <= c < prev[i].len() ==> (#[trigger] prev[i][c]).index != n,
{
    assert forall|i: int, c: int| 0 <= i < prev.len() && 0 <= c < prev[i].len() implies (#[trigger] prev[i][c]).index
        != n by {
        if prev[i][c].index == n {
            let l = prev[i];
            assert(spec_loop_ok(b, l));
            assert(spec_on_board(b, l[c]));
            lemma_linked_to_loop(b, l, c, cur);
            let pl = l.len() as int;
            let c1 = spec_cycle_prev(c, pl);
            let c2 = spec_cycle_next(c, pl);
            assert(prev[i][c1].index != cur.index);
            assert(prev[i][c2].index != cur.index);
        }
    }
}

proof fn lemma_walk_extend(
    b: Seq<Tile>,
    cur: Tile,
    lp: Option<Position>,
    tiles: Seq<Tile>,
    n: TileIndex,
    p: Position,
)
    requires
        spec_board_wf(b),
        spec_walk(b, cur, lp, tiles),
        spec_valid_index(n),
        cur.spec_at(p) == Some(n),
        cur.spec_connected_to(spec_tile_at(b, n)),
        spec_tile_at(b, n).spec_is_path(),
        forall|j: int| 0 <= j < tiles.len() ==> (#[trigger] tiles[j]).index != n,
    ensures
        spec_walk(b, spec_tile_at(b, n), Some(p), tiles.push(spec_tile_at(b, n))),
{
    let nt = spec_tile_at(b, n);
    let tiles2 = tiles.push(nt);
    lemma_tile_at(b, n);
    assert forall|a: int| 0 <= a < tiles2.len() implies spec_on_board(b, #[trigger] tiles2[a])
        && tiles2[a].spec_is_path() by {
        if a < tiles.len() {
            assert(tiles2[a] == tiles[a]);
        }
    }
    assert forall|a: int| 0 <= a < tiles2.len() - 1 implies (#[trigger] tiles2[a]).spec_connected_to(tiles2[a + 1]) by {
        if a < tiles.len() - 1 {
            assert(tiles2[a] == tiles[a]);
            assert(tiles2[a + 1] == tiles[a + 1]);
        }
    }
    assert forall|a: int, d: int| 0 <= a < tiles2.len() && 0 <= d < tiles2.len() && a != d implies (#[trigger] tiles2[a]).index
        != (#[trigger] tiles2[d]).index by {
        if a < tiles.len() {
            assert(tiles2[a] == tiles[a]);
        }
        if d < tiles.len() {
            assert(tiles2[d] == tiles[d]);
        }
    }
}

proof fn lemma_probe_structure(
    b: Seq<Tile>,
    origin: TileIndex,
    cur: Tile,
    lp: Option<Position>,
    tiles: Seq<Tile>,
    fuel: nat,
    prev: Seq<Seq<Tile>>,
)
    requires
        spec_board_wf(b),
        spec_walk(b, cur, lp, tiles),
        tiles[0].index == origin,
        forall|i: int| 0 <= i < prev.len() ==> spec_loop_ok(b, #[trigger] prev[i]),
        forall|i: int, c: int, a: int|
            0 <= i < prev.len() && 0 <= c < prev[i].len() && 0 <= a < tiles.len() ==> (#[trigger] prev[i][c]).index
                != (#[trigger] tiles[a]).index,
    ensures
        spec_probe(b, origin, cur, lp, tiles, fuel) matches Some(l) ==> spec_loop_ok(b, l) && (forall|
            i: int,
            c: int,
            a: int,
        |
            0 <= i < prev.len() && 0 <= c < prev[i].len() && 0 <= a < l.len() ==> (#[trigger] prev[i][c]).index
                != (#[trigger] l[a]).index),
    decreases fuel,
{
    if fuel > 0 {
        let m = tiles.len() - 1;
        assert(spec_on_board(b, tiles[m]));
        lemma_connected_from(b, cur, lp, 0);
        if let Some(np) = spec_connected_neighbor(b, cur, lp) {
            let n = np.0;
            let p = np.1;
            if n == origin {
                if tiles.len() >= 4 {
                    assert(spec_on_board(b, tiles[0]));
                }
            } else {
                let nt = spec_tile_at(b, n);
                if nt.spec_is_path() {
                    lemma_walk_fresh(b, cur, lp, tiles, n, p);
                    assert forall|i: int, c: int| 0 <= i < prev.len() && 0 <= c < prev[i].len() implies (#[trigger] prev[i][c]).index
                        != cur.index by {
                        assert(tiles[m].index == cur.index);
                    }
                    lemma_walk_off_loops(b, cur, n, prev);
                    lemma_walk_extend(b, cur, lp, tiles, n, p);
                    let tiles2 = tiles.push(nt);
                    assert forall|i: int, c: int, a: int|
                        0 <= i < prev.len() && 0 <= c < prev[i].len() && 0 <= a < tiles2.len() implies (#[trigger] prev[i][c]).index
                            != (#[trigger] tiles2[a]).index by {
                        if a < tiles.len() {
                            assert(tiles2[a] == tiles[a]);
                        }
                    }
                    lemma_probe_structure(b, origin, nt, Some(p), tiles2, (fuel - 1) as nat, prev);
                }
            }
        }
    }
}

proof fn lemma_mark_tiles(ev: Seq<bool>, tiles: Seq<Tile>)
    requires
        ev.len() == 9,
        forall|a: int| 0 <= a < tiles.len() ==> spec_valid_index((#[trigger] tiles[a]).index),
    ensures
        spec_mark_tiles(ev, tiles).len() == 9,
        forall|s: int| 0 <= s < 9 && ev[s] ==> #[trigger] spec_mark_tiles(ev, tiles)[s],
        forall|a: int| 0 <= a < tiles.len() ==> spec_mark_tiles(ev, tiles)[spec_slot((#[trigger] tiles[a]).index)],
    decreases tiles.len(),
{
    if tiles.len() > 0 {
        let front = tiles.drop_last();
        assert forall|a: int| 0 <= a < front.len() implies spec_valid_index((#[trigger] front[a]).index) by {
            assert(front[a] == tiles[a]);
        }
        lemma_mark_tiles(ev, front);
        assert(spec_valid_index(tiles[tiles.len() - 1].index));
        assert forall|a: int| 0 <= a < tiles.len() implies spec_mark_tiles(ev, tiles)[spec_slot(
            (#[trigger] tiles[a]).index,
        )] by {
            if a < front.len() {
                assert(front[a] == tiles[a]);
            }
        }
    }
}

proof fn lemma_loop_scan_structure(b: Seq<Tile>, k: int, ev: Seq<bool>, loops: Seq<Seq<Tile>>)
    requires
        spec_board_wf(b),
        ev.len() == 9,
        0 <= k <= 9,
        spec_no_shared_box(loops),
        spec_all_marked(loops, ev),
        forall|i: int| 0 <= i < loops.len() ==> spec_loop_ok(b, #[trigger] loops[i]),
    ensures
        spec_no_shared_box(spec_loop_scan(b, k, ev, loops)),
        forall|i: int|
            0 <= i < spec_loop_scan(b, k, ev, loops).len() ==> spec_loop_ok(
                b,
                #[trigger] spec_loop_scan(b, k, ev, loops)[i],
            ),
    decreases 9 - k,
{
    if k < 9 {
        if ev[k] {
            lemma_loop_scan_structure(b, k + 1, ev, loops);
        } else {
            let ev1 = ev.update(k, true);
            assert forall|i: int, a: int| 0 <= i < loops.len() && 0 <= a < loops[i].len() implies spec_valid_index(
                (#[trigger] loops[i][a]).index,
            ) && ev1[spec_slot(loops[i][a].index)] by {
                assert(ev[spec_slot(loops[i][a].index)]);
            }
            if !b[k].spec_is_path() {
                lemma_loop_scan_structure(b, k + 1, ev1, loops);
            } else {
                let t = b[k];
                lemma_slot(b, k);
                let tiles = seq![t];
                assert(spec_walk(b, t, None, tiles));
                assert forall|i: int, c: int, a: int|
                    0 <= i < loops.len() && 0 <= c < loops[i].len() && 0 <= a < tiles.len() implies (#[trigger] loops[i][c]).index
                        != (#[trigger] tiles[a]).index by {
                    if loops[i][c].index == t.index {
                        assert(ev[spec_slot(loops[i][c].index)]);
                    }
                }
                lemma_probe_structure(b, t.index, t, None, tiles, PROBE_STEPS as nat, loops);
                match spec_probe(b, t.index, t, None, tiles, PROBE_STEPS as nat) {
                    Some(l) => {
                        let l2 = loops.push(l);
                        let ev2 = spec_mark_tiles(ev1, l);
                        assert forall|a: int| 0 <= a < l.len() implies spec_valid_index((#[trigger] l[a]).index) by {
                            assert(spec_on_board(b, l[a]));
                        }
                        lemma_mark_tiles(ev1, l);
                        assert forall|i: int, a: int, j: int, d: int|
                            0 <= i < l2.len() && 0 <= j < l2.len() && 0 <= a < l2[i].len() && 0 <= d < l2[j].len()
                                && (i != j || a != d) implies (#[trigger] l2[i][a]).index != (#[trigger] l2[j][d]).index by {
                            if i < loops.len() {
                                assert(l2[i] == loops[i]);
                            }
                            if j < loops.len() {
                                assert(l2[j] == loops[j]);
                            }
                        }
                        assert forall|i: int, a: int| 0 <= i < l2.len() && 0 <= a < l2[i].len() implies spec_valid_index(
                            (#[trigger] l2[i][a]).index,
                        ) && ev2[spec_slot(l2[i][a].index)] by {
                            if i < loops.len() {
                                assert(l2[i] == loops[i]);
                                assert(ev1[spec_slot(loops[i][a].index)]);
                            }
                        }
                        assert forall|i: int| 0 <= i < l2.len() implies spec_loop_ok(b, #[trigger] l2[i]) by {
                            if i < loops.len() {
                                assert(l2[i] == loops[i]);
                            }
                        }
                        lemma_loop_scan_structure(b, k + 1, ev2, l2);
                    },
                    None => {
                        lemma_loop_scan_structure(b, k + 1, ev1, loops);
                    },
                }
            }
        }
    }
}

/// No box of a chain lies on a loop: following the chain back from such a
/// box would stay on the loop up to the chain's seed, which no loop holds.
proof fn lemma_chain_off_loop(b: Seq<Tile>, c: Seq<Tile>, l: Seq<Tile>, a: int)
    requires
        spec_board_wf(b),
        spec_chain_linked(b, c),
        spec_loop_ok(b, l),
        0 <= a < c.len(),
    ensures
        forall|d: int| 0 <= d < l.len() ==> c[a].index != (#[trigger] l[d]).index,
    decreases a,
{
    if a > 0 {
        lemma_chain_off_loop(b, c, l, a - 1);
    }
    assert forall|d: int| 0 <= d < l.len() implies c[a].index != (#[trigger] l[d]).index by {
        if c[a].index == l[d].index {
            assert(spec_on_board(b, c[a]));
            assert(spec_on_board(b, l[d]));
            assert(c[a] == l[d]);
            if a == 0 {
                let t = c[0];
                lemma_openings(t);
                if t.spec_is_edge_path_chain_end() {
                    let o0 = t.spec_openings()[0];
                    let o1 = t.spec_openings()[1];
                    lemma_loop_closure(b, l, d, o0);
                    lemma_loop_closure(b, l, d, o1);
                }
            } else {
                assert(c[a - 1].spec_connected_to(c[a]));
                assert(spec_on_board(b, c[a - 1]));
                lemma_linked_to_loop(b, l, d, c[a - 1]);
                let n = l.len() as int;
                assert(c[a - 1].index != l[spec_cycle_prev(d, n)].index);
                assert(c[a - 1].index != l[spec_cycle_next(d, n)].index);
            }
        }
    }
}

/// After one scan for chains and one for loops, no box is counted twice:
/// each box lies on at most one chain or loop, and at most once on it. Each
/// such box is still open (one or two undrawn walls), each chain starts at a
/// seed and runs along undrawn walls, and each loop is a simple cycle of at
/// least four corridor boxes.
pub proof fn lemma_chain_loop_partition(b: Seq<Tile>)
    requires
        spec_board_wf(b),
    ensures
        spec_no_shared_box(spec_chains(b) + spec_loops(b)),
        forall|i: int, a: int|
            0 <= i < (spec_chains(b) + spec_loops(b)).len() && 0 <= a < (spec_chains(b) + spec_loops(b))[i].len()
                ==> (#[trigger] (spec_chains(b) + spec_loops(b))[i][a]).spec_can_be_chained(),
        forall|i: int| 0 <= i < spec_loops(b).len() ==> spec_loop_ok(b, #[trigger] spec_loops(b)[i]),
        forall|i: int| 0 <= i < spec_chains(b).len() ==> spec_chain_linked(b, #[trigger] spec_chains(b)[i]),
{
    let cs = spec_chains(b);
    let ls = spec_loops(b);
    let ss = cs + ls;
    let e: Seq<Seq<Tile>> = seq![];
    lemma_chain_scan_structure(b, 0, spec_fresh(), e);
    lemma_loop_scan_structure(b, 0, spec_fresh(), e);
    assert forall|i: int, a: int, j: int, d: int|
        0 <= i < ss.len() && 0 <= j < ss.len() && 0 <= a < ss[i].len() && 0 <= d < ss[j].len() && (i != j || a
            != d) implies (#[trigger] ss[i][a]).index != (#[trigger] ss[j][d]).index by {
        if i < cs.len() && j < cs.len() {
            assert(ss[i] == cs[i]);
            assert(ss[j] == cs[j]);
        } else if i >= cs.len() && j >= cs.len() {
            assert(ss[i] == ls[i - cs.len()]);
            assert(ss[j] == ls[j - cs.len()]);
        } else if i < cs.len() {
            assert(ss[i] == cs[i]);
            assert(ss[j] == ls[j - cs.len()]);
            assert(spec_chain_linked(b, cs[i]));
            assert(spec_loop_ok(b, ls[j - cs.len()]));
            lemma_chain_off_loop(b, cs[i], ls[j - cs.len()], a);
        } else {
            assert(ss[j] == cs[j]);
            assert(ss[i] == ls[i - cs.len()]);
            assert(spec_chain_linked(b, cs[j]));
            assert(spec_loop_ok(b, ls[i - cs.len()]));
            lemma_chain_off_loop(b, cs[j], ls[i - cs.len()], d);
        }
    }
    assert forall|i: int, a: int| 0 <= i < ss.len() && 0 <= a < ss[i].len() implies (#[trigger] ss[i][a]).spec_can_be_chained() by {
        if i < cs.len() {
            assert(ss[i] == cs[i]);
            assert(spec_chain_linked(b, cs[i]));
        } else {
            assert(ss[i] == ls[i - cs.len()]);
            assert(spec_loop_ok(b, ls[i - cs.len()]));
        }
    }
}

/// A walk visits each of the nine boxes at most once.
proof fn lemma_walk_short(tiles: Seq<Tile>)
    requires
        forall|a: int| 0 <= a < tiles.len() ==> spec_valid_index((#[trigger] tiles[a]).index),
        spec_distinct(tiles),
    ensures
        tiles.len() <= 9,
{
    let s = tiles.map_values(|t: Tile| spec_slot(t.index));
    assert forall|i: int, j: int| 0 <= i < s.len() && 0 <= j < s.len() && i != j implies s[i] != s[j] by {
        if s[i] == s[j] {
            lemma_slot_injective(tiles[i].index, tiles[j].index);
        }
    }
    assert(s.no_duplicates());
    s.unique_seq_to_set();
    assert forall|x: int| s.to_set().contains(x) implies set_int_range(0, 9).contains(x) by {
        let i = choose|i: int| 0 <= i < s.len() && s[i] == x;
        assert(spec_valid_index(tiles[i].index));
    }
    lemma_int_range(0, 9);
    lemma_len_subset(s.to_set(), set_int_range(0, 9));
}

proof fn lemma_probe_fuel(
    b: Seq<Tile>,
    origin: TileIndex,
    cur: Tile,
    lp: Option<Position>,
    tiles: Seq<Tile>,
    f1: nat,
    f2: nat,
)
    requires
        spec_board_wf(b),
        spec_walk(b, cur, lp, tiles),
        tiles[0].index == origin,
        f1 + tiles.len() >= 10,
        f2 >= f1,
    ensures
        spec_probe(b, origin, cur, lp, tiles, f1) == spec_probe(b, origin, cur, lp, tiles, f2),
    decreases f1,
{
    assert forall|a: int| 0 <= a < tiles.len() implies spec_valid_index((#[trigger] tiles[a]).index) by {
        assert(spec_on_board(b, tiles[a]));
    }
    lemma_walk_short(tiles);
    let m = tiles.len() - 1;
    assert(spec_on_board(b, tiles[m]));
    lemma_connected_from(b, cur, lp, 0);
    if let Some(np) = spec_connected_neighbor(b, cur, lp) {
        let n = np.0;
        let p = np.1;
        let nt = spec_tile_at(b, n);
        if n != origin && nt.spec_is_path() {
            lemma_walk_fresh(b, cur, lp, tiles, n, p);
            lemma_walk_extend(b, cur, lp, tiles, n, p);
            lemma_probe_fuel(b, origin, nt, Some(p), tiles.push(nt), (f1 - 1) as nat, (f2 - 1) as nat);
        }
    }
}

/// The loop probe's step bound never decides its outcome: on a consistent
/// board a walk from a corridor box ends within nine steps, so a longer
/// bound gives the same result.
pub proof fn lemma_probe_steps_suffice(b: Seq<Tile>, k: int, extra: nat)
    requires
        spec_board_wf(b),
        0 <= k < 9,
        b[k].spec_is_path(),
    ensures
        spec_probe(b, b[k].index, b[k], None, seq![b[k]], PROBE_STEPS as nat) == spec_probe(
            b,
            b[k].index,
            b[k],
            None,
            seq![b[k]],
            (PROBE_STEPS + extra) as nat,
        ),
{
    lemma_slot(b, k);
    assert(spec_walk(b, b[k], None, seq![b[k]]));
    lemma_probe_fuel(b, b[k].index, b[k], None, seq![b[k]], PROBE_STEPS as nat, (PROBE_STEPS + extra) as nat);
}

} // verus!
