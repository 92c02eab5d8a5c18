//! Grid directions and positions.
use vstd::prelude::*;

verus! {

/// A position on the tile grid (or a size, in tiles or chunks).
#[derive(Clone, Copy, PartialEq, Eq, Structural, Debug, Hash)]
pub struct UVec2 {
    pub x: u32,
    pub y: u32,
}

impl UVec2 {
    pub fn new(x: u32, y: u32) -> (r: UVec2)
        ensures
            r.x == x,
            r.y == y,
    {
        UVec2 { x, y }
    }
}

/// One of the four sides of a tile. North is towards negative y.
#[derive(Clone, Copy, PartialEq, Eq, Structural, Debug, Hash)]
pub enum Direction {
    North,
    East,
    South,
    West,
}

/// The four directions in the order neighbours are visited.
pub open spec fn spec_directions() -> Seq<Direction> {
    seq![Direction::North, Direction::South, Direction::East, Direction::West]
}

/// The four directions in the order neighbours are visited: north, south, east, west.
pub fn directions() -> (r: [Direction; 4])
    ensures
        r@ == spec_directions(),
{
    [Direction::North, Direction::South, Direction::East, Direction::West]
}

impl Direction {
    /// Clockwise position starting from north.
    pub open spec fn spec_index(self) -> nat {
        match self {
            Direction::North => 0,
            Direction::East => 1,
            Direction::South => 2,
            Direction::West => 3,
        }
    }

    /// Grid offset one step in this direction.
    pub open spec fn spec_offset(self) -> (int, int) {
        match self {
            Direction::North => (0, -1),
            Direction::South => (0, 1),
            Direction::East => (1, 0),
            Direction::West => (-1, 0),
        }
    }

    /// The direction an offset points in, favouring the horizontal component.
    pub open spec fn spec_from_offset(x: int, y: int) -> Direction {
        if x > 0 {
            Direction::East
        } else if x < 0 {
            Direction::West
        } else if y > 0 {
            Direction::South
        } else {
            Direction::North
        }
    }

    pub open spec fn spec_try_from_index(value: int) -> Option<Direction> {
        if value == 0 {
            Some(Direction::North)
        } else if value == 1 {
            Some(Direction::East)
        } else if value == 2 {
            Some(Direction::South)
        } else if value == 3 {
            Some(Direction::West)
        } else {
            None
        }
    }

    /// Clockwise position starting from north.
    pub fn index(self) -> (r: u8)
        ensures
            r == self.spec_index(),
    {
        match self {
            Direction::North => 0,
            Direction::East => 1,
            Direction::South => 2,
            Direction::West => 3,
        }
    }

    /// Grid offset one step in this direction.
    pub fn offset(self) -> (r: (i32, i32))
        ensures
            r.0 == self.spec_offset().0,
            r.1 == self.spec_offset().1,
    {
        match self {
            Direction::North => (0, -1),
            Direction::South => (0, 1),
            Direction::East => (1, 0),
            Direction::West => (-1, 0),
        }
    }

    /// The direction an offset points in, favouring the horizontal component.
    pub fn from_offset(x: i32, y: i32) -> (r: Direction)
        ensures
            r == Direction::spec_from_offset(x as int, y as int),
    {
        if x > 0 {
            Direction::East
        } else if x < 0 {
            Direction::West
        } else if y > 0 {
            Direction::South
        } else {
            Direction::North
        }
    }

    /// The direction with the given clockwise index; `Err` past 3.
    pub fn try_from_index(value: usize) -> (r: Result<Direction, ()>)
        ensures
            r matches Ok(d) ==> Direction::spec_try_from_index(value as int) == Some(d),
            r is Err <==> Direction::spec_try_from_index(value as int) is None,
    {
        match value {
            0 => Ok(Direction::North),
            1 => Ok(Direction::East),
            2 => Ok(Direction::South),
            3 => Ok(Direction::West),
            _ => Err(()),
        }
    }
}

/// A direction turned back into an offset gives that direction again.
pub proof fn lemma_offset_round_trip(d: Direction)
    ensures
        Direction::spec_from_offset(d.spec_offset().0, d.spec_offset().1) == d,
{
}

/// The index of a direction leads back to it.
pub proof fn lemma_index_round_trip(d: Direction)
    ensures
        Direction::spec_try_from_index(d.spec_index() as int) == Some(d),
{
}

/// Whether one step from `p` in direction `d` stays on the grid.
pub open spec fn in_bounds(p: UVec2, d: Direction) -> bool {
    p.x + d.spec_offset().0 >= 0 && p.y + d.spec_offset().1 >= 0
}

/// The position one step from `p` in direction `d`.
pub open spec fn step(p: UVec2, d: Direction) -> UVec2 {
    UVec2 { x: (p.x + d.spec_offset().0) as u32, y: (p.y + d.spec_offset().1) as u32 }
}

/// The neighbour in direction `d`, if it is on the grid.
pub open spec fn neighbour_entry(p: UVec2, d: Direction) -> Seq<(Direction, UVec2)> {
    if in_bounds(p, d) {
        seq![(d, step(p, d))]
    } else {
        Seq::empty()
    }
}

/// The on-grid neighbours of a position, north, south, east and west in that order.
pub open spec fn spec_neighbours(p: UVec2) -> Seq<(Direction, UVec2)> {
    neighbour_entry(p, Direction::North) + neighbour_entry(p, Direction::South) + neighbour_entry(
        p,
        Direction::East,
    ) + neighbour_entry(p, Direction::West)
}

fn push_neighbour(out: &mut Vec<(Direction, UVec2)>, p: UVec2, d: Direction)
    requires
        p.x < 0x7fff_ffff,
        p.y < 0x7fff_ffff,
    ensures
        final(out)@ == old(out)@ + neighbour_entry(p, d),
{
    let (dx, dy) = d.offset();
    let x: i64 = p.x as i64 + dx as i64;
    let y: i64 = p.y as i64 + dy as i64;
    if x >= 0 && y >= 0 {
        out.push((d, UVec2 { x: x as u32, y: y as u32 }));
    }
    assert(final(out)@ =~= old(out)@ + neighbour_entry(p, d));
}

/// The on-grid neighbours of a position with the direction they lie in.
/// Positions are taken to be below `i32::MAX`, as grid offsets are signed.
pub fn tile_neighbours(position: UVec2) -> (r: Vec<(Direction, UVec2)>)
    requires
        position.x < 0x7fff_ffff,
        position.y < 0x7fff_ffff,
    ensures
        r@ == spec_neighbours(position),
{
    let mut out: Vec<(Direction, UVec2)> = Vec::new();
    push_neighbour(&mut out, position, Direction::North);
    push_neighbour(&mut out, position, Direction::South);
    push_neighbour(&mut out, position, Direction::East);
    push_neighbour(&mut out, position, Direction::West);
    assert(out@ =~= spec_neighbours(position));
    out
}

/// Every neighbour lies one step away in its direction, and a step is undone by the
/// opposite step.
pub proof fn lemma_neighbours_adjacent(p: UVec2, i: int)
    requires
        p.x < 0x7fff_ffff,
        p.y < 0x7fff_ffff,
        0 <= i < spec_neighbours(p).len(),
    ensures
        spec_neighbours(p)[i].1 == step(p, spec_neighbours(p)[i].0),
        in_bounds(p, spec_neighbours(p)[i].0),
{
    let n = neighbour_entry(p, Direction::North);
    let s = neighbour_entry(p, Direction::South);
    let e = neighbour_entry(p, Direction::East);
    let w = neighbour_entry(p, Direction::West);
    assert(spec_neighbours(p) == n + s + e + w);
    if i < n.len() {
        assert(spec_neighbours(p)[i] == n[i]);
    } else if i < n.len() + s.len() {
        assert(spec_neighbours(p)[i] == s[i - n.len()]);
    } else if i < n.len() + s.len() + e.len() {
        assert(spec_neighbours(p)[i] == e[i - n.len() - s.len()]);
    } else {
        assert(spec_neighbours(p)[i] == w[i - n.len() - s.len() - e.len()]);
    }
}

/// Every neighbour on the grid is listed.
pub proof fn lemma_neighbours_complete(p: UVec2, d: Direction)
    requires
        in_bounds(p, d),
    ensures
        exists|j: int| 0 <= j < spec_neighbours(p).len() && spec_neighbours(p)[j] == (d, step(p, d)),
{
    let n = neighbour_entry(p, Direction::North);
    let s = neighbour_entry(p, Direction::South);
    let e = neighbour_entry(p, Direction::East);
    let w = neighbour_entry(p, Direction::West);
    let all = spec_neighbours(p);
    assert(all == n + s + e + w);
    let j = match d {
        Direction::North => 0,
        Direction::South => n.len() as int,
        Direction::East => (n.len() + s.len()) as int,
        Direction::West => (n.len() + s.len() + e.len()) as int,
    };
    assert(all[j] == (d, step(p, d)));
}

} // verus!
