//! Which sides of a tile are connected to matching neighbours, and which mesh variant
//! and facing follow from that.
use vstd::prelude::*;
use crate::maps::direction::{
    in_bounds, lemma_neighbours_adjacent, lemma_neighbours_complete, spec_neighbours, step, tile_neighbours,
    Direction, UVec2,
};

verus! {

/// The neighbour bits: starting at the tile above and going clockwise, two bits per
/// side, the upper one of each pair for the side itself.
pub open spec fn side_bit(d: Direction) -> u8 {
    match d {
        Direction::North => 0b10000000,
        Direction::East => 0b00100000,
        Direction::South => 0b00001000,
        Direction::West => 0b00000010,
    }
}

/// The mask of the four straight sides (diagonals are ignored for now).
pub open spec fn sides_mask() -> u8 {
    0b10101010
}

/// The bitfield turned by 90 degrees clockwise.
pub open spec fn rotated(d: u8) -> u8 {
    ((d & 3u8) << 6u8) | (d >> 2u8)
}

/// The next direction clockwise.
pub open spec fn clockwise(d: Direction) -> Direction {
    match d {
        Direction::North => Direction::East,
        Direction::East => Direction::South,
        Direction::South => Direction::West,
        Direction::West => Direction::North,
    }
}

/// Which way a shape given by `pattern` (drawn facing north) faces in `bits`, if it
/// appears there at all; the rotations are tried in the order north, east, south, west.
pub open spec fn pattern_facing(bits: u8, pattern: u8) -> Option<Direction> {
    let m = bits & sides_mask();
    if m == pattern {
        Some(Direction::North)
    } else if m == rotated(pattern) {
        Some(Direction::East)
    } else if m == rotated(rotated(pattern)) {
        Some(Direction::South)
    } else if m == rotated(rotated(rotated(pattern))) {
        Some(Direction::West)
    } else {
        None
    }
}

/// A single connection (U).
pub open spec fn pattern_u() -> u8 {
    0b10000000
}

/// Two connections at a corner (L).
pub open spec fn pattern_l() -> u8 {
    0b10100000
}

/// Three connections (T).
pub open spec fn pattern_t() -> u8 {
    0b10100010
}

/// Two opposite connections (I).
pub open spec fn pattern_i() -> u8 {
    0b10001000
}

/// Quarter turns of the mesh for a shape facing `d`.
pub open spec fn spec_quarter_turns(d: Direction) -> u8 {
    match d {
        Direction::North => 2,
        Direction::East => 1,
        Direction::South => 0,
        Direction::West => 3,
    }
}

/// Stores in what directions an object is surrounded.
pub struct AdjacencyInformation {
    /// Represents a bitfield of the neighbours presence.
    /// Starts at the tile right above and goes clockwise.
    directions: u8,
}

impl AdjacencyInformation {
    /// The neighbour bitfield.
    pub closed spec fn bits(&self) -> u8 {
        self.directions
    }

    /// No neighbours.
    pub fn new() -> (r: Self)
        ensures
            r.bits() == 0,
    {
        AdjacencyInformation { directions: 0 }
    }

    /// Information with the given neighbour bitfield.
    pub fn from_bits(bits: u8) -> (r: Self)
        ensures
            r.bits() == bits,
    {
        AdjacencyInformation { directions: bits }
    }

    /// Marks the side `direction` as connected.
    pub fn add(&mut self, direction: Direction)
        ensures
            final(self).bits() == old(self).bits() | side_bit(direction),
    {
        let add: u8 = match direction {
            Direction::North => 0b10000000,
            Direction::East => 0b00100000,
            Direction::South => 0b00001000,
            Direction::West => 0b00000010,
        };
        self.directions = self.directions | add;
    }

    /// No side is connected.
    pub fn is_o(&self) -> (r: bool)
        ensures
            r == (self.bits() & sides_mask() == 0),
    {
        self.directions & 0b10101010 == 0
    }

    /// Exactly one side is connected; gives that side.
    pub fn is_u(&self) -> (r: Option<Direction>)
        ensures
            r == pattern_facing(self.bits(), pattern_u()),
    {
        match_pattern(self.directions, 0b10000000)
    }

    /// Two sides at a corner are connected; gives the first of them clockwise.
    pub fn is_l(&self) -> (r: Option<Direction>)
        ensures
            r == pattern_facing(self.bits(), pattern_l()),
    {
        match_pattern(self.directions, 0b10100000)
    }

    /// Three sides are connected; gives the middle one.
    pub fn is_t(&self) -> (r: Option<Direction>)
        ensures
            r == pattern_facing(self.bits(), pattern_t()),
    {
        match_pattern(self.directions, 0b10100010)
    }

    /// Two opposite sides are connected: north/south gives north, east/west gives east.
    pub fn is_i(&self) -> (r: Option<Direction>)
        ensures
            r == pattern_facing(self.bits(), pattern_i()),
    {
        match_pattern(self.directions, 0b10001000)
    }

    /// All four sides are connected.
    pub fn is_x(&self) -> (r: bool)
        ensures
            r == (self.bits() & sides_mask() == sides_mask()),
    {
        self.directions & 0b10101010 == 0b10101010
    }

    /// The number of quarter turns (counterclockwise seen from above, as a positive angle
    /// about the up axis) that make a mesh drawn facing south face `direction`.
    pub fn quarter_turns_from_dir(direction: Direction) -> (r: u8)
        ensures
            r == spec_quarter_turns(direction),
    {
        match direction {
            Direction::North => 2,
            Direction::East => 1,
            Direction::South => 0,
            Direction::West => 3,
        }
    }

    /// Rotates the directional map by 90 degrees clockwise.
    pub fn rotate_right(directions: u8) -> (r: u8)
        ensures
            r == rotated(directions),
    {
        // Move the lowest two bits all the way to the left,
        // combined with the rest shifted to the right.
        ((directions & 0b11) << 6) | (directions >> 2)
    }
}

fn match_pattern(bits: u8, pattern: u8) -> (r: Option<Direction>)
    ensures
        r == pattern_facing(bits, pattern),
{
    let pat_r = AdjacencyInformation::rotate_right(pattern);
    let pat_rr = AdjacencyInformation::rotate_right(pat_r);
    let pat_rrr = AdjacencyInformation::rotate_right(pat_rr);
    let m = bits & 0b10101010;
    if m == pattern {
        Some(Direction::North)
    } else if m == pat_r {
        Some(Direction::East)
    } else if m == pat_rr {
        Some(Direction::South)
    } else if m == pat_rrr {
        Some(Direction::West)
    } else {
        None
    }
}

/// Side `d` is marked connected in `bits`.
pub open spec fn connected(bits: u8, d: Direction) -> bool {
    bits & side_bit(d) != 0
}

/// Marking one side connected marks that side and keeps the others as they were.
proof fn lemma_mark_side(bits: u8, d: Direction, e: Direction)
    requires
        bits & !sides_mask() == 0,
    ensures
        connected(bits | side_bit(d), e) == (connected(bits, e) || d == e),
        (bits | side_bit(d)) & !sides_mask() == 0,
{
    lemma_or_side_bits(bits, side_bit(d), side_bit(e));
}

/// Or-ing in one side bit sets that bit and keeps the other side bits.
proof fn lemma_or_side_bits(b: u8, m: u8, n: u8)
    by (bit_vector)
    requires
        m == 0x80u8 || m == 0x20u8 || m == 0x08u8 || m == 0x02u8,
        n == 0x80u8 || n == 0x20u8 || n == 0x08u8 || n == 0x02u8,
        b & !0xaau8 == 0,
    ensures
        (((b | m) & n) != 0) == ((b & n) != 0 || m == n),
        (b | m) & !0xaau8 == 0,
{
}

/// The sides of the tile at `position` whose neighbour on the grid `connects` to it
/// (a tile meshes with neighbours of its own category).
pub fn surroundings(position: UVec2, connects: impl Fn(UVec2) -> bool) -> (r: AdjacencyInformation)
    requires
        position.x < 0x7fff_ffff,
        position.y < 0x7fff_ffff,
        forall|p: UVec2| call_requires(connects, (p,)),
        forall|p: UVec2, a: bool, b: bool| call_ensures(connects, (p,), a) && call_ensures(connects, (p,), b) ==> a == b,
    ensures
        r.bits() & !sides_mask() == 0,
        forall|d: Direction| #[trigger] connected(r.bits(), d) == (in_bounds(position, d) && call_ensures(
            connects,
            (step(position, d),),
            true,
        )),
{
    let neighbours = tile_neighbours(position);
    let mut info = AdjacencyInformation::new();
    let mut k: usize = 0;
    assert(0u8 & !0xaau8 == 0 && 0u8 & 0x80u8 == 0 && 0u8 & 0x20u8 == 0 && 0u8 & 0x08u8 == 0 && 0u8 & 0x02u8 == 0)
        by (bit_vector);
    while k < neighbours.len()
        invariant
            neighbours@ == spec_neighbours(position),
            k <= neighbours.len(),
            info.bits() & !sides_mask() == 0,
            forall|p: UVec2| call_requires(connects, (p,)),
            forall|p: UVec2, a: bool, b: bool| call_ensures(connects, (p,), a) && call_ensures(connects, (p,), b) ==> a == b,
            forall|d: Direction| #[trigger] connected(info.bits(), d) == (exists|j: int| 0 <= j < k && neighbours@[j].0 == d
                && call_ensures(connects, (neighbours@[j].1,), true)),
        decreases neighbours.len() - k,
    {
        let (d, n) = neighbours[k];
        let ghost before = info.bits();
        if connects(n) {
            info.add(d);
            proof {
                assert forall|e: Direction| #[trigger] connected(info.bits(), e) == (exists|j: int| 0 <= j < k + 1 && neighbours@[j].0 == e
                    && call_ensures(connects, (neighbours@[j].1,), true)) by {
                    lemma_mark_side(before, d, e);
                    if e == d {
                        assert(neighbours@[k as int].0 == e && call_ensures(connects, (neighbours@[k as int].1,), true));
                    } else if exists|j: int| 0 <= j < k + 1 && neighbours@[j].0 == e && call_ensures(connects, (neighbours@[j].1,), true) {
                        let j = choose|j: int| 0 <= j < k + 1 && neighbours@[j].0 == e && call_ensures(connects, (neighbours@[j].1,), true);
                        assert(j != k);
                    }
                }
                lemma_mark_side(before, d, d);
            }
        } else {
            proof {
                assert forall|e: Direction| #[trigger] connected(info.bits(), e) == (exists|j: int| 0 <= j < k + 1 && neighbours@[j].0 == e
                    && call_ensures(connects, (neighbours@[j].1,), true)) by {
                    if exists|j: int| 0 <= j < k + 1 && neighbours@[j].0 == e && call_ensures(connects, (neighbours@[j].1,), true) {
                        let j = choose|j: int| 0 <= j < k + 1 && neighbours@[j].0 == e && call_ensures(connects, (neighbours@[j].1,), true);
                        if j == k {
                            assert(call_ensures(connects, (n,), false));
                        }
                    }
                }
            }
        }
        k = k + 1;
    }
    proof {
        assert forall|d: Direction| #[trigger] connected(info.bits(), d) == (in_bounds(position, d) && call_ensures(
            connects,
            (step(position, d),),
            true,
        )) by {
            let s = spec_neighbours(position);
            if in_bounds(position, d) {
                lemma_neighbours_complete(position, d);
            }
            if exists|j: int| 0 <= j < s.len() && s[j].0 == d && call_ensures(connects, (s[j].1,), true) {
                let j = choose|j: int| 0 <= j < s.len() && s[j].0 == d && call_ensures(connects, (s[j].1,), true);
                lemma_neighbours_adjacent(position, j);
            }
        }
    }
    info
}

/// Which mesh variant a tile takes.
#[derive(Clone, Copy, PartialEq, Eq, Structural, Debug)]
pub enum AdjacencyKind {
    O,
    U,
    I,
    L,
    T,
    X,
    Default,
}

/// The variant and facing picked for a neighbour bitfield: the first that fits of
/// O, U, I, L, T, X, else the default; O, X and the default face south (no turn).
pub open spec fn spec_select(bits: u8) -> (AdjacencyKind, u8) {
    if bits & sides_mask() == 0 {
        (AdjacencyKind::O, 0)
    } else if pattern_facing(bits, pattern_u()) is Some {
        (AdjacencyKind::U, spec_quarter_turns(pattern_facing(bits, pattern_u())->0))
    } else if pattern_facing(bits, pattern_i()) is Some {
        (AdjacencyKind::I, spec_quarter_turns(pattern_facing(bits, pattern_i())->0))
    } else if pattern_facing(bits, pattern_l()) is Some {
        (AdjacencyKind::L, spec_quarter_turns(pattern_facing(bits, pattern_l())->0))
    } else if pattern_facing(bits, pattern_t()) is Some {
        (AdjacencyKind::T, spec_quarter_turns(pattern_facing(bits, pattern_t())->0))
    } else if bits & sides_mask() == sides_mask() {
        (AdjacencyKind::X, 0)
    } else {
        (AdjacencyKind::Default, 0)
    }
}

/// Defines data that depends on what sides a tile is surrounded.
pub struct AdjacencyVariants<T> {
    pub default: T,
    /// No neighbours
    pub o: T,
    /// Connected north
    pub u: T,
    /// Connected north & south
    pub i: T,
    /// Connected north & east
    pub l: T,
    /// Connected north & east & west
    pub t: T,
    /// Connected in all 4 directions
    pub x: T,
}

impl<T> AdjacencyVariants<T> {
    /// The data of the given variant.
    pub open spec fn variant(&self, kind: AdjacencyKind) -> T {
        match kind {
            AdjacencyKind::O => self.o,
            AdjacencyKind::U => self.u,
            AdjacencyKind::I => self.i,
            AdjacencyKind::L => self.l,
            AdjacencyKind::T => self.t,
            AdjacencyKind::X => self.x,
            AdjacencyKind::Default => self.default,
        }
    }
}

/// Picks the variant and the quarter turns of its mesh for `adjacency`.
pub fn select(adjacency: &AdjacencyInformation) -> (r: (AdjacencyKind, u8))
    ensures
        r == spec_select(adjacency.bits()),
{
    if adjacency.is_o() {
        (AdjacencyKind::O, 0)
    } else if let Some(dir) = adjacency.is_u() {
        (AdjacencyKind::U, AdjacencyInformation::quarter_turns_from_dir(dir))
    } else if let Some(dir) = adjacency.is_i() {
        (AdjacencyKind::I, AdjacencyInformation::quarter_turns_from_dir(dir))
    } else if let Some(dir) = adjacency.is_l() {
        (AdjacencyKind::L, AdjacencyInformation::quarter_turns_from_dir(dir))
    } else if let Some(dir) = adjacency.is_t() {
        (AdjacencyKind::T, AdjacencyInformation::quarter_turns_from_dir(dir))
    } else if adjacency.is_x() {
        (AdjacencyKind::X, 0)
    } else {
        (AdjacencyKind::Default, 0)
    }
}

impl<T: Clone> AdjacencyVariants<T> {
    /// The data for `adjacency` and the quarter turns to apply to it.
    pub fn get(&self, adjacency: &AdjacencyInformation) -> (r: (T, u8))
        ensures
            cloned(self.variant(spec_select(adjacency.bits()).0), r.0),
            r.1 == spec_select(adjacency.bits()).1,
    {
        let (kind, turns) = select(adjacency);
        let data = match kind {
            AdjacencyKind::O => self.o.clone(),
            AdjacencyKind::U => self.u.clone(),
            AdjacencyKind::I => self.i.clone(),
            AdjacencyKind::L => self.l.clone(),
            AdjacencyKind::T => self.t.clone(),
            AdjacencyKind::X => self.x.clone(),
            AdjacencyKind::Default => self.default.clone(),
        };
        (data, turns)
    }
}

/// Four clockwise turns bring every bitfield back to itself.
pub proof fn lemma_rotate_four_times(d: u8)
    ensures
        rotated(rotated(rotated(rotated(d)))) == d,
{
    assert(rotated(rotated(rotated(rotated(d)))) == d) by (bit_vector);
}

/// A tile connected on one side only is a U facing that side.
pub proof fn lemma_single_side_is_u(d: Direction)
    ensures
        pattern_facing(side_bit(d), pattern_u()) == Some(d),
{
    assert(rotated(0x80u8) == 0x20u8) by (bit_vector);
    assert(rotated(0x20u8) == 0x08u8) by (bit_vector);
    assert(rotated(0x08u8) == 0x02u8) by (bit_vector);
    assert(0x80u8 & 0xAAu8 == 0x80u8) by (bit_vector);
    assert(0x20u8 & 0xAAu8 == 0x20u8) by (bit_vector);
    assert(0x08u8 & 0xAAu8 == 0x08u8) by (bit_vector);
    assert(0x02u8 & 0xAAu8 == 0x02u8) by (bit_vector);
}

/// Turning the neighbours of a tile clockwise turns the facing of its U, L or T shape
/// clockwise too.
pub proof fn lemma_rotation_turns_facing(bits: u8, pattern: u8)
    requires
        pattern == pattern_u() || pattern == pattern_l() || pattern == pattern_t(),
    ensures
        pattern_facing(rotated(bits), pattern) == (match pattern_facing(bits, pattern) {
            Some(d) => Some(clockwise(d)),
            None => None,
        }),
{
    let m = bits & 0xAAu8;
    assert(rotated(bits) & 0xAAu8 == rotated(bits & 0xAAu8)) by (bit_vector);
    assert(forall|a: u8, b: u8| #[trigger] rotated(a) == #[trigger] rotated(b) ==> a == b) by (bit_vector);
    lemma_rotate_four_times(pattern);
    assert(rotated(0x80u8) == 0x20u8) by (bit_vector);
    assert(rotated(0x20u8) == 0x08u8) by (bit_vector);
    assert(rotated(0x08u8) == 0x02u8) by (bit_vector);
    assert(rotated(0xA0u8) == 0x28u8) by (bit_vector);
    assert(rotated(0x28u8) == 0x0Au8) by (bit_vector);
    assert(rotated(0x0Au8) == 0x82u8) by (bit_vector);
    assert(rotated(0xA2u8) == 0xA8u8) by (bit_vector);
    assert(rotated(0xA8u8) == 0x2Au8) by (bit_vector);
    assert(rotated(0x2Au8) == 0x8Au8) by (bit_vector);
}

/// The quarter turns of a facing: facing south takes none, and each side further
/// clockwise takes one turn less (three more, modulo four), so that the four sides take
/// four different turns and a shape turned with its neighbours turns with them.
pub proof fn lemma_quarter_turns_follow_facing(d: Direction)
    ensures
        spec_quarter_turns(Direction::South) == 0,
        spec_quarter_turns(clockwise(d)) == (spec_quarter_turns(d) + 3) % 4,
        spec_quarter_turns(d) < 4,
        forall|e: Direction| spec_quarter_turns(e) == spec_quarter_turns(d) ==> e == d,
{
}

/// Turning a tile's neighbours clockwise keeps its U, L or T variant and turns its mesh
/// with them: one side further clockwise, which is three more quarter turns modulo four.
pub proof fn lemma_select_turns_with_neighbours(bits: u8)
    requires
        spec_select(bits).0 == AdjacencyKind::U || spec_select(bits).0 == AdjacencyKind::L
            || spec_select(bits).0 == AdjacencyKind::T,
    ensures
        spec_select(rotated(bits)).0 == spec_select(bits).0,
        spec_select(rotated(bits)).1 == (spec_select(bits).1 + 3) % 4,
{
    assert(rotated(bits) & 0xAAu8 == rotated(bits & 0xAAu8)) by (bit_vector);
    assert(forall|a: u8, b: u8| #[trigger] rotated(a) == #[trigger] rotated(b) ==> a == b) by (bit_vector);
    assert(rotated(0u8) == 0u8 && rotated(0x88u8) == 0x22u8 && rotated(0x22u8) == 0x88u8) by (bit_vector);
    lemma_rotation_turns_facing(bits, pattern_u());
    lemma_rotation_turns_facing(bits, pattern_l());
    lemma_rotation_turns_facing(bits, pattern_t());
    let m = bits & 0xAAu8;
    assert(m != 0u8);
    assert(rotated(m) != 0u8);
    if spec_select(bits).0 != AdjacencyKind::U {
        assert(m != 0x88u8 && m != 0x22u8);
        assert(rotated(m) != 0x88u8 && rotated(m) != 0x22u8);
    }
    if spec_select(bits).0 == AdjacencyKind::U {
        lemma_quarter_turns_follow_facing(pattern_facing(bits, pattern_u())->0);
    } else if spec_select(bits).0 == AdjacencyKind::L {
        lemma_quarter_turns_follow_facing(pattern_facing(bits, pattern_l())->0);
    } else {
        lemma_quarter_turns_follow_facing(pattern_facing(bits, pattern_t())->0);
    }
}

} // verus!
