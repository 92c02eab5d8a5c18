//! Grid containers: items stored at cell positions, and whether another item fits.
use vstd::prelude::*;
use crate::entity::Entity;
use crate::maps::direction::UVec2;

verus! {

/// No two entries are at the same position.
pub open spec fn distinct_positions(s: Seq<(UVec2, Entity)>) -> bool {
    forall|i: int, j: int| 0 <= i < j < s.len() ==> s[i].0 != s[j].0
}

/// Some entry is at `p`.
pub open spec fn has_position(s: Seq<(UVec2, Entity)>, p: UVec2) -> bool {
    exists|i: int| 0 <= i < s.len() && (#[trigger] s[i]).0 == p
}

/// The entity stored at `p`, if any.
pub open spec fn stored_at(s: Seq<(UVec2, Entity)>, p: UVec2) -> Option<Entity> {
    if has_position(s, p) {
        Some(s[choose|i: int| 0 <= i < s.len() && (#[trigger] s[i]).0 == p].1)
    } else {
        None
    }
}

/// `i` is the first entry at `p`.
pub open spec fn first_at(s: Seq<(UVec2, Entity)>, p: UVec2, i: int) -> bool {
    &&& 0 <= i < s.len()
    &&& s[i].0 == p
    &&& forall|j: int| 0 <= j < i ==> (#[trigger] s[j]).0 != p
}

/// `i` is the first entry holding `e`.
pub open spec fn first_holding(s: Seq<(UVec2, Entity)>, e: Entity, i: int) -> bool {
    &&& 0 <= i < s.len()
    &&& s[i].1 == e
    &&& forall|j: int| 0 <= j < i ==> (#[trigger] s[j]).1 != e
}

/// `after` is `before` with `e` put at `p`: in place of the entry at `p`, or at the end.
pub open spec fn placed(before: Seq<(UVec2, Entity)>, after: Seq<(UVec2, Entity)>, e: Entity, p: UVec2) -> bool {
    ||| exists|i: int| first_at(before, p, i) && after == before.update(i, (p, e))
    ||| !has_position(before, p) && after == before.push((p, e))
}

/// `after` is `before` without its first entry holding `e`, if there is one.
pub open spec fn taken_out(before: Seq<(UVec2, Entity)>, after: Seq<(UVec2, Entity)>, e: Entity) -> bool {
    ||| exists|i: int| first_holding(before, e, i) && after == before.remove(i)
    ||| (forall|i: int| 0 <= i < before.len() ==> (#[trigger] before[i]).1 != e) && after == before
}

/// The distance between two coordinates.
pub open spec fn distance(a: u32, b: u32) -> int {
    if a >= b {
        a - b
    } else {
        b - a
    }
}

/// An item of size `ps` at `p` and one of size `qs` at `q` share cells, their
/// positions compared as centres: twice the distance below the sum of the sizes on
/// both axes.
pub open spec fn overlap(p: UVec2, ps: UVec2, q: UVec2, qs: UVec2) -> bool {
    &&& distance(p.x, q.x) * 2 < ps.x + qs.x
    &&& distance(p.y, q.y) * 2 < ps.y + qs.y
}

/// An item of size `s` at `p` stays inside a container of size `size`.
pub open spec fn inside(size: UVec2, p: UVec2, s: UVec2) -> bool {
    p.x + s.x <= size.x && p.y + s.y <= size.y
}

/// A grid of `size` cells, with the items stored in it by position.
pub struct Container {
    size: UVec2,
    items: Vec<(UVec2, Entity)>,
}

impl Container {
    pub closed spec fn size_view(&self) -> UVec2 {
        self.size
    }

    /// The stored items with their positions, oldest position first.
    pub closed spec fn items_view(&self) -> Seq<(UVec2, Entity)> {
        self.items@
    }

    /// An empty container.
    pub fn new(size: UVec2) -> (r: Self)
        ensures
            r.size_view() == size,
            r.items_view() == Seq::<(UVec2, Entity)>::empty(),
    {
        Container { size, items: Vec::new() }
    }

    /// Stores `entity` at `position`, replacing what was stored there. Whether it fits
    /// is not checked.
    pub fn insert_item_unchecked(&mut self, entity: Entity, position: UVec2)
        ensures
            final(self).size_view() == old(self).size_view(),
            placed(old(self).items_view(), final(self).items_view(), entity, position),
    {
        let mut i: usize = 0;
        while i < self.items.len()
            invariant
                i <= self.items.len(),
                self.items@ == old(self).items@,
                self.size == old(self).size,
                forall|j: int| 0 <= j < i ==> (#[trigger] self.items@[j]).0 != position,
            decreases self.items.len() - i,
        {
            if self.items[i].0 == position {
                self.items.set(i, (position, entity));
                assert(first_at(old(self).items@, position, i as int));
                return;
            }
            i = i + 1;
        }
        self.items.push((position, entity));
    }

    /// Takes `entity` out of the container, if it is stored in it.
    pub fn remove_item(&mut self, entity: Entity)
        ensures
            final(self).size_view() == old(self).size_view(),
            taken_out(old(self).items_view(), final(self).items_view(), entity),
    {
        let mut i: usize = 0;
        while i < self.items.len()
            invariant
                i <= self.items.len(),
                self.items@ == old(self).items@,
                self.size == old(self).size,
                forall|j: int| 0 <= j < i ==> (#[trigger] self.items@[j]).1 != entity,
            decreases self.items.len() - i,
        {
            if self.items[i].1 == entity {
                assert(first_holding(old(self).items@, entity, i as int));
                self.items.remove(i);
                return;
            }
            i = i + 1;
        }
    }

    pub fn is_empty(&self) -> (r: bool)
        ensures
            r == (self.items_view().len() == 0),
    {
        self.items.len() == 0
    }

    /// Whether an item of size `item_size` placed at `position` stays inside the
    /// container and overlaps none of the stored items, whose sizes `size_of` gives.
    pub fn can_fit(&self, item_size: UVec2, position: UVec2, size_of: impl Fn(Entity) -> UVec2) -> (r: bool)
        requires
            forall|e: Entity| call_requires(size_of, (e,)),
            forall|e: Entity, s: UVec2, t: UVec2|
                call_ensures(size_of, (e,), s) && call_ensures(size_of, (e,), t) ==> s == t,
        ensures
            r == (inside(self.size_view(), position, item_size) && forall|i: int, s: UVec2|
                0 <= i < self.items_view().len() && call_ensures(size_of, (self.items_view()[i].1,), s)
                    ==> !overlap(position, item_size, self.items_view()[i].0, s)),
    {
        if position.x as u64 + item_size.x as u64 > self.size.x as u64 || position.y as u64
            + item_size.y as u64 > self.size.y as u64 {
            return false;
        }
        let mut i: usize = 0;
        while i < self.items.len()
            invariant
                i <= self.items.len(),
                inside(self.size, position, item_size),
                forall|e: Entity| call_requires(size_of, (e,)),
                forall|e: Entity, s: UVec2, t: UVec2|
                    call_ensures(size_of, (e,), s) && call_ensures(size_of, (e,), t) ==> s == t,
                forall|k: int, s: UVec2|
                    0 <= k < i && #[trigger] call_ensures(size_of, (self.items@[k].1,), s)
                        ==> !overlap(position, item_size, self.items@[k].0, s),
            decreases self.items.len() - i,
        {
            let (other_position, other) = self.items[i];
            let other_size = size_of(other);
            let dx: u32 = if position.x >= other_position.x {
                position.x - other_position.x
            } else {
                other_position.x - position.x
            };
            let dy: u32 = if position.y >= other_position.y {
                position.y - other_position.y
            } else {
                other_position.y - position.y
            };
            let x_overlap = (dx as u64) * 2 < item_size.x as u64 + other_size.x as u64;
            let y_overlap = (dy as u64) * 2 < item_size.y as u64 + other_size.y as u64;
            if x_overlap && y_overlap {
                assert(call_ensures(size_of, (self.items_view()[i as int].1,), other_size));
                assert(overlap(position, item_size, self.items_view()[i as int].0, other_size));
                return false;
            }
            i = i + 1;
        }
        true
    }
}

/// The smaller of two numbers.
pub open spec fn min_u32(a: u32, b: u32) -> u32 {
    if a < b {
        a
    } else {
        b
    }
}

/// How much of an item of `size` dropped at `position` a container of `container_size`
/// shows: the slots drawn across and down (cut at the container's edge), and whether
/// part of the item falls outside. The position lies within the container.
pub fn drop_preview(container_size: UVec2, position: UVec2, size: UVec2) -> (r: (UVec2, bool))
    requires
        position.x <= container_size.x,
        position.y <= container_size.y,
    ensures
        r.0.x == min_u32(size.x, (container_size.x - position.x) as u32),
        r.0.y == min_u32(size.y, (container_size.y - position.y) as u32),
        r.1 == (r.0.x != size.x || r.0.y != size.y),
{
    let room_x = container_size.x - position.x;
    let room_y = container_size.y - position.y;
    let x_slots = if size.x < room_x {
        size.x
    } else {
        room_x
    };
    let y_slots = if size.y < room_y {
        size.y
    } else {
        room_y
    };
    let out_of_bounds = x_slots != size.x || y_slots != size.y;
    (UVec2 { x: x_slots, y: y_slots }, out_of_bounds)
}

/// Putting an entity at a position of a container makes it the one stored there, and
/// leaves every other position as it was.
pub proof fn lemma_placed_is_stored(
    before: Seq<(UVec2, Entity)>,
    after: Seq<(UVec2, Entity)>,
    e: Entity,
    p: UVec2,
    q: UVec2,
)
    requires
        distinct_positions(before),
        placed(before, after, e, p),
    ensures
        distinct_positions(after),
        stored_at(after, p) == Some(e),
        q != p ==> stored_at(after, q) == stored_at(before, q),
{
    if has_position(before, p) {
        let i = choose|i: int| first_at(before, p, i) && after == before.update(i, (p, e));
        if exists|k: int| first_at(before, p, k) && after == before.update(k, (p, e)) {
        } else {
            assert(!has_position(before, p));
        }
        assert(first_at(before, p, i) && after == before.update(i, (p, e)));
        assert(after[i].0 == p);
        assert(has_position(after, p));
        let c = choose|c: int| 0 <= c < after.len() && (#[trigger] after[c]).0 == p;
        if c != i {
            assert(before[c].0 == p);
        }
        if q != p {
            if has_position(before, q) {
                let cb = choose|c: int| 0 <= c < before.len() && (#[trigger] before[c]).0 == q;
                assert(after[cb] == before[cb]);
                assert(has_position(after, q));
                let ca = choose|c: int| 0 <= c < after.len() && (#[trigger] after[c]).0 == q;
                assert(before[ca] == after[ca]);
            } else {
                if has_position(after, q) {
                    let ca = choose|c: int| 0 <= c < after.len() && (#[trigger] after[c]).0 == q;
                    assert(before[ca] == after[ca]);
                }
            }
        }
    } else {
        if exists|k: int| first_at(before, p, k) && after == before.update(k, (p, e)) {
            let k = choose|k: int| first_at(before, p, k) && after == before.update(k, (p, e));
            assert(before[k].0 == p);
        }
        assert(after == before.push((p, e)));
        let n = before.len() as int;
        assert(after[n].0 == p);
        assert(has_position(after, p));
        let c = choose|c: int| 0 <= c < after.len() && (#[trigger] after[c]).0 == p;
        if c != n {
            assert(before[c].0 == p);
        }
        if q != p {
            if has_position(before, q) {
                let cb = choose|c: int| 0 <= c < before.len() && (#[trigger] before[c]).0 == q;
                assert(after[cb] == before[cb]);
                assert(has_position(after, q));
                let ca = choose|c: int| 0 <= c < after.len() && (#[trigger] after[c]).0 == q;
                assert(before[ca] == after[ca]);
            } else {
                if has_position(after, q) {
                    let ca = choose|c: int| 0 <= c < after.len() && (#[trigger] after[c]).0 == q;
                    assert(before[ca] == after[ca]);
                }
            }
        }
    }
}

/// Taking out an entity stored once leaves it stored nowhere, and every other
/// position as it was.
pub proof fn lemma_taken_out_is_gone(
    before: Seq<(UVec2, Entity)>,
    after: Seq<(UVec2, Entity)>,
    e: Entity,
    q: UVec2,
)
    requires
        distinct_positions(before),
        forall|i: int, j: int| 0 <= i < j < before.len() ==> !(before[i].1 == e && before[j].1 == e),
        taken_out(before, after, e),
    ensures
        distinct_positions(after),
        forall|k: int| 0 <= k < after.len() ==> (#[trigger] after[k]).1 != e,
        stored_at(before, q) != Some(e) ==> stored_at(after, q) == stored_at(before, q),
        stored_at(before, q) == Some(e) ==> stored_at(after, q) is None,
{
    if exists|i: int| first_holding(before, e, i) && after == before.remove(i) {
        let i = choose|i: int| first_holding(before, e, i) && after == before.remove(i);
        assert forall|k: int| 0 <= k < after.len() implies (#[trigger] after[k]).1 != e by {
            if k < i {
                assert(after[k] == before[k]);
            } else {
                assert(after[k] == before[k + 1]);
            }
        }
        assert forall|a: int, b: int| 0 <= a < b < after.len() implies after[a].0 != after[b].0 by {
            let a2 = if a < i { a } else { a + 1 };
            let b2 = if b < i { b } else { b + 1 };
            assert(after[a] == before[a2]);
            assert(after[b] == before[b2]);
        }
        if has_position(before, q) {
            let cb = choose|c: int| 0 <= c < before.len() && (#[trigger] before[c]).0 == q;
            if cb == i {
                if has_position(after, q) {
                    let ca = choose|c: int| 0 <= c < after.len() && (#[trigger] after[c]).0 == q;
                    let ca2 = if ca < i { ca } else { ca + 1 };
                    assert(after[ca] == before[ca2]);
                }
            } else {
                let cb2 = if cb < i { cb } else { cb - 1 };
                assert(after[cb2] == before[cb]);
                assert(has_position(after, q));
                let ca = choose|c: int| 0 <= c < after.len() && (#[trigger] after[c]).0 == q;
                let ca2 = if ca < i { ca } else { ca + 1 };
                assert(after[ca] == before[ca2]);
            }
        } else {
            if has_position(after, q) {
                let ca = choose|c: int| 0 <= c < after.len() && (#[trigger] after[c]).0 == q;
                let ca2 = if ca < i { ca } else { ca + 1 };
                assert(after[ca] == before[ca2]);
            }
        }
    } else {
        assert(after == before);
        if has_position(before, q) {
            let cb = choose|c: int| 0 <= c < before.len() && (#[trigger] before[c]).0 == q;
            assert(before[cb].1 != e);
        }
    }
}

} // verus!
