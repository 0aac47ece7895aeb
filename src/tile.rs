use vstd::prelude::*;

verus! {

/// A box of the grid, as (row, column).
pub type TileIndex = (usize, usize);

/// One of the four sides of a box.
#[derive(Debug, Clone, Copy, PartialEq, Eq, Structural)]
pub enum Position {
    Top,
    Bottom,
    Left,
    Right,
}

impl Position {
    pub open spec fn spec_invert(self) -> Position {
        match self {
            Position::Top => Position::Bottom,
            Position::Bottom => Position::Top,
            Position::Left => Position::Right,
            Position::Right => Position::Left,
        }
    }

    /// The same wall seen from the box on its other side.
    pub fn invert(&self) -> (r: Position)
        ensures
            r == self.spec_invert(),
    {
        match *self {
            Position::Top => Position::Bottom,
            Position::Bottom => Position::Top,
            Position::Left => Position::Right,
            Position::Right => Position::Left,
        }
    }

    pub open spec fn spec_is_vertical(self) -> bool {
        self == Position::Top || self == Position::Bottom
    }

    /// True for the walls that separate a box from the rows above and below.
    pub fn is_vertical(&self) -> (r: bool)
        ensures
            r == self.spec_is_vertical(),
    {
        *self == Position::Top || *self == Position::Bottom
    }

    /// True for the walls that separate a box from the columns beside it.
    pub fn is_horizontal(&self) -> (r: bool)
        ensures
            r == !self.spec_is_vertical(),
    {
        *self == Position::Left || *self == Position::Right
    }
}

/// The order in which the sides of a box are enumerated.
pub open spec fn spec_position_at(i: int) -> Position {
    if i == 0 {
        Position::Top
    } else if i == 1 {
        Position::Bottom
    } else if i == 2 {
        Position::Right
    } else {
        Position::Left
    }
}

/// The `i`-th side in enumeration order: top, bottom, right, left.
pub fn position_at(i: usize) -> (r: Position)
    requires
        i < 4,
    ensures
        r == spec_position_at(i as int),
{
    if i == 0 {
        Position::Top
    } else if i == 1 {
        Position::Bottom
    } else if i == 2 {
        Position::Right
    } else {
        Position::Left
    }
}

/// A direction of travel between boxes.
#[derive(Debug, Clone, Copy, PartialEq, Eq, Structural)]
pub enum Direction {
    Up,
    Down,
    Left,
    Right,
}

/// The two directions by which a corridor box is left.
pub struct TilePath {
    pub first_dir: Direction,
    pub second_dir: Direction,
}

impl TilePath {
    pub fn new(first_dir: Direction, second_dir: Direction) -> (r: Self)
        ensures
            r.first_dir == first_dir,
            r.second_dir == second_dir,
    {
        Self { first_dir, second_dir }
    }

    /// The other direction of the corridor, if `dir` is one of its two.
    pub fn without(&self, dir: Direction) -> (r: Option<Direction>)
        ensures
            r == (if dir == self.first_dir {
                Some(self.second_dir)
            } else if dir == self.second_dir {
                Some(self.first_dir)
            } else {
                None
            }),
    {
        if dir == self.first_dir {
            return Some(self.second_dir);
        }
        if dir == self.second_dir {
            return Some(self.first_dir);
        }
        None
    }
}

/// Which of the four walls of a box are drawn.
#[derive(Debug, Clone, Copy, PartialEq, Eq, Structural)]
pub struct TileConfig {
    pub top: bool,
    pub bottom: bool,
    pub left: bool,
    pub right: bool,
}

impl TileConfig {
    pub open spec fn spec_is_open(self, pos: Position) -> bool {
        match pos {
            Position::Top => !self.top,
            Position::Bottom => !self.bottom,
            Position::Left => !self.left,
            Position::Right => !self.right,
        }
    }

    pub open spec fn spec_open_count(self) -> int {
        (if self.top { 0int } else { 1int }) + (if self.bottom { 0int } else { 1int }) + (if self.left {
            0int
        } else {
            1int
        }) + (if self.right { 0int } else { 1int })
    }

    pub open spec fn spec_mark(self, pos: Position) -> TileConfig {
        match pos {
            Position::Top => TileConfig { top: true, ..self },
            Position::Bottom => TileConfig { bottom: true, ..self },
            Position::Left => TileConfig { left: true, ..self },
            Position::Right => TileConfig { right: true, ..self },
        }
    }

    /// No wall drawn.
    pub fn new() -> (r: Self)
        ensures
            !r.top && !r.bottom && !r.left && !r.right,
    {
        Self { top: false, bottom: false, left: false, right: false }
    }

    /// The given walls drawn.
    pub fn of(top: bool, bottom: bool, left: bool, right: bool) -> (r: Self)
        ensures
            r == (TileConfig { top, bottom, left, right }),
    {
        Self { top, bottom, left, right }
    }

    /// How many of the four walls are still undrawn.
    pub fn open_count(&self) -> (r: i32)
        ensures
            r == self.spec_open_count(),
    {
        let mut n: i32 = 0;
        if !self.top {
            n = n + 1;
        }
        if !self.bottom {
            n = n + 1;
        }
        if !self.left {
            n = n + 1;
        }
        if !self.right {
            n = n + 1;
        }
        n
    }

    pub fn is_open(&self, pos: Position) -> (r: bool)
        ensures
            r == self.spec_is_open(pos),
    {
        match pos {
            Position::Top => !self.top,
            Position::Bottom => !self.bottom,
            Position::Left => !self.left,
            Position::Right => !self.right,
        }
    }

    pub fn mark_top(&mut self)
        ensures
            *final(self) == old(self).spec_mark(Position::Top),
    {
        self.top = true;
    }

    pub fn mark_bottom(&mut self)
        ensures
            *final(self) == old(self).spec_mark(Position::Bottom),
    {
        self.bottom = true;
    }

    pub fn mark_left(&mut self)
        ensures
            *final(self) == old(self).spec_mark(Position::Left),
    {
        self.left = true;
    }

    pub fn mark_right(&mut self)
        ensures
            *final(self) == old(self).spec_mark(Position::Right),
    {
        self.right = true;
    }
}

/// One box of the grid: where it stands and which of its walls are drawn.
#[derive(Debug, Clone, Copy)]
pub struct Tile {
    pub index: TileIndex,
    pub config: TileConfig,
}

/// The sides of `config` that are undrawn, in enumeration order.
pub open spec fn spec_openings_of(config: TileConfig) -> Seq<Position> {
    (if config.spec_is_open(Position::Top) { seq![Position::Top] } else { Seq::empty() }) + (if config.spec_is_open(Position::Bottom) {
        seq![Position::Bottom]
    } else {
        Seq::empty()
    }) + (if config.spec_is_open(Position::Right) { seq![Position::Right] } else { Seq::empty() }) + (
    if config.spec_is_open(Position::Left) {
        seq![Position::Left]
    } else {
        Seq::empty()
    })
}

/// The index one step from `index` towards `pos`, if it is on the grid.
pub open spec fn spec_step(index: TileIndex, pos: Position) -> Option<TileIndex> {
    match pos {
        Position::Top => if index.0 == 0 { None } else { Some(((index.0 - 1) as usize, index.1)) },
        Position::Bottom => if index.0 == 2 { None } else { Some(((index.0 + 1) as usize, index.1)) },
        Position::Left => if index.1 == 0 { None } else { Some((index.0, (index.1 - 1) as usize)) },
        Position::Right => if index.1 == 2 { None } else { Some((index.0, (index.1 + 1) as usize)) },
    }
}

pub open spec fn spec_valid_index(index: TileIndex) -> bool {
    index.0 < 3 && index.1 < 3
}

impl Tile {
    pub open spec fn wf(self) -> bool {
        spec_valid_index(self.index)
    }

    pub open spec fn spec_is_open(self, pos: Position) -> bool {
        self.config.spec_is_open(pos)
    }

    pub open spec fn spec_open_count(self) -> int {
        self.config.spec_open_count()
    }

    pub open spec fn spec_is_end(self) -> bool {
        self.spec_open_count() == 1
    }

    pub open spec fn spec_is_path(self) -> bool {
        self.spec_open_count() == 2
    }

    pub open spec fn spec_can_be_chained(self) -> bool {
        self.spec_is_end() || self.spec_is_path()
    }

    pub open spec fn spec_at(self, pos: Position) -> Option<TileIndex> {
        spec_step(self.index, pos)
    }

    pub open spec fn spec_has_neighbor(self, pos: Position) -> bool {
        self.spec_at(pos) is Some
    }

    pub open spec fn spec_openings(self) -> Seq<Position> {
        spec_openings_of(self.config)
    }

    pub open spec fn spec_mark(self, pos: Position) -> Tile {
        Tile { index: self.index, config: self.config.spec_mark(pos) }
    }

    pub open spec fn spec_adjacent_to(self, other: Tile) -> bool {
        (if self.index.0 >= other.index.0 {
            self.index.0 - other.index.0
        } else {
            other.index.0 - self.index.0
        }) + (if self.index.1 >= other.index.1 {
            self.index.1 - other.index.1
        } else {
            other.index.1 - self.index.1
        }) == 1
    }

    /// The first side, in enumeration order, through which `other` is reached.
    pub open spec fn spec_relative_position(self, other: Tile) -> Option<Position> {
        if self.spec_at(Position::Top) == Some(other.index) {
            Some(Position::Top)
        } else if self.spec_at(Position::Bottom) == Some(other.index) {
            Some(Position::Bottom)
        } else if self.spec_at(Position::Right) == Some(other.index) {
            Some(Position::Right)
        } else if self.spec_at(Position::Left) == Some(other.index) {
            Some(Position::Left)
        } else {
            None
        }
    }

    pub open spec fn spec_connected_to(self, other: Tile) -> bool {
        match self.spec_relative_position(other) {
            Some(pos) => self.spec_is_open(pos),
            None => false,
        }
    }

    pub open spec fn spec_is_in_edge(self) -> bool {
        self.index != (1usize, 1usize)
    }

    pub open spec fn spec_is_edge_path_chain_end(self) -> bool {
        self.spec_is_path() && self.spec_is_in_edge() && (!self.spec_has_neighbor(
            self.spec_openings()[0],
        ) != !self.spec_has_neighbor(self.spec_openings()[1]))
    }

    pub open spec fn spec_edge_path_chain_pos(self) -> Position {
        if self.spec_has_neighbor(self.spec_openings()[0]) {
            self.spec_openings()[0]
        } else {
            self.spec_openings()[1]
        }
    }

    pub open spec fn spec_open_to_outside(self) -> bool {
        exists|pos: Position| self.spec_is_open(pos) && !self.spec_has_neighbor(pos)
    }

    /// A box with no wall drawn.
    pub fn new(index: TileIndex) -> (r: Self)
        requires
            spec_valid_index(index),
        ensures
            r.index == index,
            r.config == (TileConfig { top: false, bottom: false, left: false, right: false }),
            r.wf(),
            r.spec_open_count() == 4,
    {
        Self { index, config: TileConfig::new() }
    }

    pub fn index(&self) -> (r: TileIndex)
        ensures
            r == self.index,
    {
        self.index
    }

    /// Exactly one wall undrawn.
    pub fn is_end(&self) -> (r: bool)
        ensures
            r == self.spec_is_end(),
    {
        self.config.open_count() == 1
    }

    /// Exactly two walls undrawn.
    pub fn is_path(&self) -> (r: bool)
        ensures
            r == self.spec_is_path(),
    {
        self.config.open_count() == 2
    }

    pub fn can_be_chained(&self) -> (r: bool)
        ensures
            r == self.spec_can_be_chained(),
    {
        self.is_end() || self.is_path()
    }

    /// False where the side faces the outside of the grid.
    pub fn has_neighbor(&self, pos: Position) -> (r: bool)
        ensures
            r == self.spec_has_neighbor(pos),
    {
        match pos {
            Position::Top => self.has_top_neighbor(),
            Position::Bottom => self.has_bottom_neighbor(),
            Position::Left => self.has_left_neighbor(),
            Position::Right => self.has_right_neighbor(),
        }
    }

    fn has_top_neighbor(&self) -> (r: bool)
        ensures
            r == (self.index.0 != 0),
    {
        self.index.0 != 0
    }

    fn has_bottom_neighbor(&self) -> (r: bool)
        ensures
            r == (self.index.0 != 2),
    {
        self.index.0 != 2
    }

    fn has_left_neighbor(&self) -> (r: bool)
        ensures
            r == (self.index.1 != 0),
    {
        self.index.1 != 0
    }

    fn has_right_neighbor(&self) -> (r: bool)
        ensures
            r == (self.index.1 != 2),
    {
        self.index.1 != 2
    }

    /// Draws the wall on side `pos`.
    pub fn mark(&mut self, pos: Position)
        ensures
            *final(self) == old(self).spec_mark(pos),
    {
        match pos {
            Position::Top => self.config.mark_top(),
            Position::Bottom => self.config.mark_bottom(),
            Position::Left => self.config.mark_left(),
            Position::Right => self.config.mark_right(),
        }
    }

    /// The neighbouring box on side `pos`, or `None` at the boundary.
    pub fn at(&self, pos: Position) -> (r: Option<TileIndex>)
        requires
            self.wf(),
        ensures
            r == self.spec_at(pos),
            r matches Some(n) ==> spec_valid_index(n),
    {
        let mut x = self.index.0;
        let mut y = self.index.1;
        match pos {
            Position::Top => {
                if x == 0 {
                    return None;
                } else {
                    x -= 1;
                }
            },
            Position::Bottom => {
                if x == 2 {
                    return None;
                } else {
                    x += 1;
                }
            },
            Position::Left => {
                if y == 0 {
                    return None;
                } else {
                    y -= 1;
                }
            },
            Position::Right => {
                if y == 2 {
                    return None;
                } else {
                    y += 1;
                }
            },
        };
        Some((x, y))
    }

    /// The neighbouring box on side `pos`, which must exist.
    pub fn at_unchecked(&self, pos: Position) -> (r: TileIndex)
        requires
            self.wf(),
            self.spec_has_neighbor(pos),
        ensures
            self.spec_at(pos) == Some(r),
            spec_valid_index(r),
    {
        match self.at(pos) {
            Some(r) => r,
            None => (0, 0),
        }
    }

    /// True iff the two boxes share a wall.
    pub fn adjacent_to(&self, other: &Tile) -> (r: bool)
        requires
            self.wf(),
            other.wf(),
        ensures
            r == self.spec_adjacent_to(*other),
    {
        let x_diff = if self.index.0 >= other.index.0 {
            self.index.0 - other.index.0
        } else {
            other.index.0 - self.index.0
        };
        let y_diff = if self.index.1 >= other.index.1 {
            self.index.1 - other.index.1
        } else {
            other.index.1 - self.index.1
        };
        x_diff + y_diff == 1
    }

    /// The side of this box through which `other` is reached, if any.
    pub fn relative_position(&self, other: &Tile) -> (r: Option<Position>)
        requires
            self.wf(),
        ensures
            r == self.spec_relative_position(*other),
    {
        let mut i: usize = 0;
        while i < 4
            invariant
                self.wf(),
                i <= 4,
                forall|j: int| 0 <= j < i ==> self.spec_at(#[trigger] spec_position_at(j)) != Some(other.index),
            decreases 4 - i,
        {
            let pos = position_at(i);
            if let Some(index) = self.at(pos) {
                if index.0 == other.index.0 && index.1 == other.index.1 {
                    return Some(pos);
                }
            }
            i = i + 1;
        }
        proof {
            assert(self.spec_at(spec_position_at(0)) != Some(other.index));
            assert(self.spec_at(spec_position_at(1)) != Some(other.index));
            assert(self.spec_at(spec_position_at(2)) != Some(other.index));
            assert(self.spec_at(spec_position_at(3)) != Some(other.index));
        }
        None
    }

    /// The undrawn sides, in enumeration order.
    pub fn openings(&self) -> (r: Vec<Position>)
        ensures
            r@ == self.spec_openings(),
            r@.len() == self.spec_open_count(),
    {
        let mut openings: Vec<Position> = Vec::new();
        if self.config.is_open(Position::Top) {
            openings.push(Position::Top);
        }
        if self.config.is_open(Position::Bottom) {
            openings.push(Position::Bottom);
        }
        if self.config.is_open(Position::Right) {
            openings.push(Position::Right);
        }
        if self.config.is_open(Position::Left) {
            openings.push(Position::Left);
        }
        proof {
            assert(openings@ =~= self.spec_openings());
        }
        openings
    }

    /// Every box but the centre touches the boundary.
    pub fn is_in_edge(&self) -> (r: bool)
        ensures
            r == self.spec_is_in_edge(),
    {
        !(self.index.0 == 1 && self.index.1 == 1)
    }

    /// A corridor box on the perimeter with exactly one of its two open sides
    /// facing the outside.
    pub fn is_edge_path_chain_end(&self) -> (r: bool)
        ensures
            r == self.spec_is_edge_path_chain_end(),
    {
        if !self.is_path() || !self.is_in_edge() {
            return false;
        }
        let openings = self.openings();
        let opening1 = openings[0];
        let opening2 = openings[1];
        self.opening_in_edge(opening1) != self.opening_in_edge(opening2)
    }

    fn opening_in_edge(&self, pos: Position) -> (r: bool)
        ensures
            r == !self.spec_has_neighbor(pos),
    {
        match pos {
            Position::Top => self.index.0 == 0,
            Position::Bottom => self.index.0 == 2,
            Position::Left => self.index.1 == 0,
            Position::Right => self.index.1 == 2,
        }
    }

    /// Of the two open sides of a corridor box, the one that leads to a
    /// neighbour (the second one if neither does).
    pub fn get_edge_path_chain_pos(&self) -> (r: Position)
        requires
            self.spec_open_count() >= 2,
        ensures
            r == self.spec_edge_path_chain_pos(),
    {
        let openings = self.openings();
        let opening1 = openings[0];
        let opening2 = openings[1];
        if self.has_neighbor(opening1) {
            opening1
        } else {
            opening2
        }
    }

    /// True iff `other` is a neighbour and the wall between them is undrawn.
    pub fn connected_to(&self, other: &Tile) -> (r: bool)
        requires
            self.wf(),
        ensures
            r == self.spec_connected_to(*other),
    {
        let relpos = self.relative_position(other);
        if let Some(pos) = relpos {
            return self.config.is_open(pos);
        }
        false
    }

    pub fn is_open(&self, pos: Position) -> (r: bool)
        ensures
            r == self.spec_is_open(pos),
    {
        self.config.is_open(pos)
    }

    /// True iff some undrawn side faces the outside of the grid.
    pub fn open_to_outside(&self) -> (r: bool)
        ensures
            r == self.spec_open_to_outside(),
    {
        let mut i: usize = 0;
        while i < 4
            invariant
                i <= 4,
                forall|j: int|
                    0 <= j < i ==> !(self.spec_is_open(#[trigger] spec_position_at(j))
                        && !self.spec_has_neighbor(spec_position_at(j))),
            decreases 4 - i,
        {
            let pos = position_at(i);
            if self.is_open(pos) && !self.has_neighbor(pos) {
                return true;
            }
            i = i + 1;
        }
        proof {
            assert forall|pos: Position| !(self.spec_is_open(pos) && !self.spec_has_neighbor(pos)) by {
                let j: int = match pos {
                    Position::Top => 0,
                    Position::Bottom => 1,
                    Position::Right => 2,
                    Position::Left => 3,
                };
                assert(spec_position_at(j) == pos);
            }
        }
        false
    }
}

/// Two boxes that share a wall reach each other through one side.
pub proof fn lemma_adjacent_relative_position(a: Tile, b: Tile)
    requires
        a.wf(),
        b.wf(),
        a.spec_adjacent_to(b),
    ensures
        a.spec_relative_position(b) is Some,
        a.spec_at(a.spec_relative_position(b).unwrap()) == Some(b.index),
{
}

/// The undrawn side of a corridor box other than `pos`.
pub open spec fn spec_other_opening(t: Tile, pos: Position) -> Position {
    if t.spec_openings()[0] == pos {
        t.spec_openings()[1]
    } else {
        t.spec_openings()[0]
    }
}

/// The free opening at the first end of a chain, if its first box is a corridor.
pub open spec fn spec_chain_first_pos(tiles: Seq<Tile>) -> Option<Position> {
    if tiles[0].spec_is_path() {
        Some(spec_other_opening(tiles[0], tiles[0].spec_relative_position(tiles[1]).unwrap()))
    } else {
        None
    }
}

/// The free opening at the last end of a chain, if its last box is a corridor.
pub open spec fn spec_chain_second_pos(tiles: Seq<Tile>) -> Option<Position> {
    let n = tiles.len() - 1;
    if tiles[n].spec_is_path() {
        Some(spec_other_opening(tiles[n], tiles[n].spec_relative_position(tiles[n - 1]).unwrap()))
    } else {
        None
    }
}

/// A chain with no free end.
pub open spec fn spec_chain_closed(tiles: Seq<Tile>) -> bool {
    spec_chain_first_pos(tiles) is None && spec_chain_second_pos(tiles) is None
}

/// A chain with exactly one free end.
pub open spec fn spec_chain_half_open(tiles: Seq<Tile>) -> bool {
    (spec_chain_first_pos(tiles) is None) != (spec_chain_second_pos(tiles) is None)
}

/// Boxes of a chain: at least two, on the grid, each next to the one before.
pub open spec fn spec_chain_tiles(tiles: Seq<Tile>) -> bool {
    &&& tiles.len() >= 2
    &&& forall|i: int| 0 <= i < tiles.len() ==> (#[trigger] tiles[i]).wf()
    &&& forall|i: int| 0 <= i < tiles.len() - 1 ==> (#[trigger] tiles[i]).spec_adjacent_to(tiles[i + 1])
        && tiles[i].spec_connected_to(tiles[i + 1])
}

/// A sequence of boxes linked by undrawn shared walls.
pub struct Chain {
    pub first_end: (Tile, Option<Position>),
    pub second_end: (Tile, Option<Position>),
    pub tiles: Vec<Tile>,
}

impl Chain {
    pub open spec fn wf(&self) -> bool {
        &&& spec_chain_tiles(self.tiles@)
        &&& self.first_end == (self.tiles@[0], spec_chain_first_pos(self.tiles@))
        &&& self.second_end == (self.tiles@.last(), spec_chain_second_pos(self.tiles@))
    }

    pub fn len(&self) -> (r: usize)
        ensures
            r == self.tiles@.len(),
    {
        self.tiles.len()
    }

    /// More than two boxes.
    pub fn is_long(&self) -> (r: bool)
        ensures
            r == (self.tiles@.len() > 2),
    {
        self.tiles.len() > 2
    }

    pub fn is_closed(&self) -> (r: bool)
        requires
            self.wf(),
        ensures
            r == spec_chain_closed(self.tiles@),
    {
        self.first_end.1.is_none() && self.second_end.1.is_none()
    }

    pub fn is_half_open(&self) -> (r: bool)
        requires
            self.wf(),
        ensures
            r == spec_chain_half_open(self.tiles@),
    {
        self.first_end.1.is_none() != self.second_end.1.is_none()
    }
}

/// Collects the boxes of a chain one at a time.
pub struct ChainBuilder {
    pub tiles: Vec<Tile>,
    pub first_end_pos: Option<Position>,
    pub second_end_pos: Option<Position>,
}

impl ChainBuilder {
    pub open spec fn wf(&self) -> bool {
        &&& self.tiles@.len() >= 1
        &&& forall|i: int| 0 <= i < self.tiles@.len() ==> (#[trigger] self.tiles@[i]).wf()
        &&& forall|i: int|
            0 <= i < self.tiles@.len() - 1 ==> (#[trigger] self.tiles@[i]).spec_adjacent_to(
                self.tiles@[i + 1],
            ) && self.tiles@[i].spec_connected_to(self.tiles@[i + 1])
        &&& self.first_end_pos == (if self.tiles@.len() >= 2 {
            spec_chain_first_pos(self.tiles@)
        } else {
            None
        })
        &&& self.second_end_pos is None
    }

    pub fn new(first: Tile) -> (r: Self)
        requires
            first.wf(),
        ensures
            r.wf(),
            r.tiles@ == seq![first],
    {
        Self { tiles: vec![first], first_end_pos: None, second_end_pos: None }
    }

    /// Appends a box that can be chained and lies next to the last one.
    pub fn add(&mut self, tile: &Tile)
        requires
            old(self).wf(),
            tile.wf(),
            tile.spec_can_be_chained(),
            old(self).tiles@.last().spec_adjacent_to(*tile),
            old(self).tiles@.last().spec_connected_to(*tile),
        ensures
            final(self).wf(),
            final(self).tiles@ == old(self).tiles@.push(*tile),
    {
        let n = self.tiles.len();
        let last = self.tiles[n - 1];
        if n == 1 {
            if last.is_path() {
                let openings = last.openings();
                proof {
                    lemma_adjacent_relative_position(last, *tile);
                }
                let relpos = last.relative_position(tile).unwrap();
                let free = if openings[0] == relpos {
                    openings[1]
                } else {
                    openings[0]
                };
                self.first_end_pos = Some(free);
            }
        }
        self.tiles.push(*tile);
        proof {
            assert(self.tiles@[0] == old(self).tiles@[0]);
            if n >= 2 {
                assert(self.tiles@[1] == old(self).tiles@[1]);
            }
        }
    }

    /// Finishes a chain of at least two boxes.
    pub fn build(self) -> (r: Chain)
        requires
            self.wf(),
            self.tiles@.len() >= 2,
        ensures
            r.wf(),
            r.tiles@ == self.tiles@,
    {
        let len = self.tiles.len();
        let last = self.tiles[len - 1];
        let second_last = self.tiles[len - 2];
        let mut second_end_pos = self.second_end_pos;
        if last.is_path() {
            let openings = last.openings();
            proof {
                assert(second_last.spec_adjacent_to(last));
                lemma_adjacent_relative_position(last, second_last);
            }
            let relpos = last.relative_position(&second_last).unwrap();
            let free = if openings[0] == relpos {
                openings[1]
            } else {
                openings[0]
            };
            second_end_pos = Some(free);
        }
        let first = self.tiles[0];
        Chain { first_end: (first, self.first_end_pos), second_end: (last, second_end_pos), tiles: self.tiles }
    }
}

/// Boxes of a loop: corridors on the grid, each linked to the next by an
/// undrawn wall.
pub open spec fn spec_loop_tiles(tiles: Seq<Tile>) -> bool {
    &&& tiles.len() >= 1
    &&& forall|i: int| 0 <= i < tiles.len() ==> (#[trigger] tiles[i]).wf()
    &&& forall|i: int| 1 <= i < tiles.len() ==> (#[trigger] tiles[i]).spec_is_path()
    &&& forall|i: int| 0 <= i < tiles.len() - 1 ==> (#[trigger] tiles[i]).spec_connected_to(tiles[i + 1])
}

/// A cycle of at least four boxes linked by undrawn shared walls.
pub struct Loop {
    pub tiles: Vec<Tile>,
}

impl Loop {
    pub open spec fn wf(&self) -> bool {
        &&& spec_loop_tiles(self.tiles@)
        &&& self.tiles@.len() >= 4
        &&& self.tiles@[0].spec_connected_to(self.tiles@.last())
    }

    pub fn len(&self) -> (r: usize)
        ensures
            r == self.tiles@.len(),
    {
        self.tiles.len()
    }
}

/// Collects the boxes of a loop one at a time.
pub struct LoopBuilder {
    pub tiles: Vec<Tile>,
}

impl LoopBuilder {
    pub open spec fn wf(&self) -> bool {
        spec_loop_tiles(self.tiles@)
    }

    pub fn new(first: Tile) -> (r: Self)
        requires
            first.wf(),
        ensures
            r.wf(),
            r.tiles@ == seq![first],
    {
        Self { tiles: vec![first] }
    }

    /// Appends a corridor box linked to the last one by an undrawn wall.
    pub fn add(&mut self, tile: &Tile)
        requires
            old(self).wf(),
            tile.wf(),
            tile.spec_is_path(),
            old(self).tiles@.last().spec_connected_to(*tile),
        ensures
            final(self).wf(),
            final(self).tiles@ == old(self).tiles@.push(*tile),
    {
        self.tiles.push(*tile);
    }

    /// Finishes a loop of at least four boxes whose first box is linked to
    /// its last.
    pub fn build(self) -> (r: Loop)
        requires
            self.wf(),
            self.tiles@.len() >= 4,
            self.tiles@[0].spec_connected_to(self.tiles@.last()),
        ensures
            r.wf(),
            r.tiles@ == self.tiles@,
    {
        Loop { tiles: self.tiles }
    }
}

/// Distinct sides of a box lead to distinct neighbours, and none to itself.
pub proof fn lemma_step_injective(t: Tile, p: Position, q: Position)
    requires
        t.wf(),
    ensures
        t.spec_at(p) is Some && t.spec_at(p) == t.spec_at(q) ==> p == q,
        t.spec_at(p) != Some(t.index),
        t.spec_at(p) matches Some(n) ==> spec_valid_index(n) && spec_step(n, p.spec_invert()) == Some(t.index),
{
}

/// An undrawn side towards a neighbour links the box to it.
pub proof fn lemma_open_side_connects(t: Tile, x: Tile, p: Position)
    requires
        t.wf(),
        t.spec_at(p) == Some(x.index),
        t.spec_is_open(p),
    ensures
        t.spec_connected_to(x),
        t.spec_relative_position(x) == Some(p),
{
    lemma_step_injective(t, p, Position::Top);
    lemma_step_injective(t, p, Position::Bottom);
    lemma_step_injective(t, p, Position::Left);
    lemma_step_injective(t, p, Position::Right);
}

/// A corridor box linked to two different boxes has no other undrawn side.
pub proof fn lemma_path_closure(t: Tile, x: Tile, y: Tile, pos: Position)
    requires
        t.wf(),
        t.spec_is_path(),
        t.spec_connected_to(x),
        t.spec_connected_to(y),
        x.index != y.index,
        t.spec_is_open(pos),
    ensures
        t.spec_at(pos) == Some(x.index) || t.spec_at(pos) == Some(y.index),
{
    let p = t.spec_relative_position(x).unwrap();
    let q = t.spec_relative_position(y).unwrap();
    assert(t.spec_at(p) == Some(x.index));
    assert(t.spec_at(q) == Some(y.index));
    assert(p != q);
}

/// The undrawn sides of a box, each undrawn, as many as it has.
pub proof fn lemma_openings(t: Tile)
    ensures
        t.spec_openings().len() == t.spec_open_count(),
        forall|i: int| 0 <= i < t.spec_openings().len() ==> t.spec_is_open(#[trigger] t.spec_openings()[i]),
{
    let c = t.config;
    let s0: Seq<Position> = if c.spec_is_open(Position::Top) { seq![Position::Top] } else { Seq::empty() };
    let s1: Seq<Position> = if c.spec_is_open(Position::Bottom) { seq![Position::Bottom] } else { Seq::empty() };
    let s2: Seq<Position> = if c.spec_is_open(Position::Right) { seq![Position::Right] } else { Seq::empty() };
    let s3: Seq<Position> = if c.spec_is_open(Position::Left) { seq![Position::Left] } else { Seq::empty() };
    assert(t.spec_openings() == s0 + s1 + s2 + s3);
    assert forall|i: int| 0 <= i < t.spec_openings().len() implies t.spec_is_open(#[trigger] t.spec_openings()[i]) by {
        let o = t.spec_openings();
        if i < s0.len() {
            assert(o[i] == s0[i]);
        } else if i < s0.len() + s1.len() {
            assert(o[i] == s1[i - s0.len()]);
        } else if i < s0.len() + s1.len() + s2.len() {
            assert(o[i] == s2[i - s0.len() - s1.len()]);
        } else {
            assert(o[i] == s3[i - s0.len() - s1.len() - s2.len()]);
        }
    }
}

pub const TOP_LEFT: TileIndex = (0, 0);
pub const TOP_CENTER: TileIndex = (0, 1);
pub const TOP_RIGHT: TileIndex = (0, 2);
pub const MIDDLE_LEFT: TileIndex = (1, 0);
pub const CENTER: TileIndex = (1, 1);
pub const MIDDLE_RIGHT: TileIndex = (1, 2);
pub const BOTTOM_LEFT: TileIndex = (2, 0);
pub const BOTTOM_CENTER: TileIndex = (2, 1);
pub const BOTTOM_RIGHT: TileIndex = (2, 2);

} // verus!
