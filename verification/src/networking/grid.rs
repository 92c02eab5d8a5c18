//! The global visibility grid: which entities lie in which grid cell.
//! An entity covers the square of cells around its position, as far as its half-extents
//! reach.
use vstd::prelude::*;
use crate::entity::Entity;
use crate::maps::direction::UVec2;

verus! {

/// A signed grid position.
#[derive(Clone, Copy, PartialEq, Eq, Structural, Debug, Hash)]
pub struct IVec2 {
    pub x: i32,
    pub y: i32,
}

/// The size of a side of a quadratic cell in the global grid.
pub const GLOBAL_GRID_CELL_SIZE: u16 = 10;

/// The size and center of an object in the visibility grid.
/// Only objects bigger than a chunk need one.
#[derive(Clone, Copy, PartialEq, Eq, Structural, Debug)]
pub struct GridAabb {
    /// The size in the grid in half-extents.
    pub size: UVec2,
    /// How to offset the entity position in the grid.
    pub center: IVec2,
}

impl Default for GridAabb {
    fn default() -> (r: Self)
        ensures
            r == (GridAabb { size: UVec2 { x: 0, y: 0 }, center: IVec2 { x: 0, y: 0 } }),
    {
        GridAabb { size: UVec2 { x: 0, y: 0 }, center: IVec2 { x: 0, y: 0 } }
    }
}

/// Where an entity is in the global grid, and the extent it covers there.
pub struct InGrid {
    pub position: Option<IVec2>,
    pub aabb: GridAabb,
}

impl Default for InGrid {
    fn default() -> (r: Self)
        ensures
            r.position is None,
            r.aabb == (GridAabb { size: UVec2 { x: 0, y: 0 }, center: IVec2 { x: 0, y: 0 } }),
    {
        InGrid { position: None, aabb: GridAabb::default() }
    }
}

/// `q` lies in the square of cells reaching `size` from `(cx, cy)` on each axis.
pub open spec fn in_square(cx: int, cy: int, size: UVec2, q: IVec2) -> bool {
    &&& cx - size.x <= q.x <= cx + size.x
    &&& cy - size.y <= q.y <= cy + size.y
}

/// The square reaching `size` from `(cx, cy)` has all its cells in the signed range.
pub open spec fn square_fits(cx: int, cy: int, size: UVec2) -> bool {
    &&& i32::MIN <= cx - size.x
    &&& cx + size.x <= i32::MAX
    &&& i32::MIN <= cy - size.y
    &&& cy + size.y <= i32::MAX
}

/// The square an entity at `p` with `aabb` covers has all its cells in the signed range.
pub open spec fn cover_fits(p: IVec2, aabb: GridAabb) -> bool {
    &&& i32::MIN <= p.x + aabb.center.x <= i32::MAX
    &&& i32::MIN <= p.y + aabb.center.y <= i32::MAX
    &&& square_fits(p.x + aabb.center.x, p.y + aabb.center.y, aabb.size)
}

/// The entity at `p` with `aabb` covers cell `q`.
pub open spec fn covers(p: IVec2, aabb: GridAabb, q: IVec2) -> bool {
    in_square(p.x + aabb.center.x, p.y + aabb.center.y, aabb.size, q)
}

/// Cell `q` of `cells` holds `e`.
pub open spec fn holds(cells: Seq<(IVec2, Vec<Entity>)>, q: IVec2, e: Entity) -> bool {
    exists|i: int| 0 <= i < cells.len() && (#[trigger] cells[i]).0 == q && cells[i].1@.contains(e)
}

/// No two cells share a position.
pub open spec fn distinct_cells(cells: Seq<(IVec2, Vec<Entity>)>) -> bool {
    forall|i: int, j: int| 0 <= i < j < cells.len() ==> cells[i].0 != cells[j].0
}

/// `q` comes before row `x`, column `y` in a walk of the rows of a square.
pub open spec fn walked(q: IVec2, x: int, y: int) -> bool {
    q.x < x || (q.x == x && q.y < y)
}

/// The cells of row `x` from column `lo_y` to `hi_y`.
pub open spec fn row(x: int, lo_y: int, hi_y: int) -> Seq<IVec2> {
    Seq::new((hi_y - lo_y + 1) as nat, |j: int| IVec2 { x: x as i32, y: (lo_y + j) as i32 })
}

/// The cells of rows `lo_x` to `hi_x`, row after row, each from `lo_y` to `hi_y`.
pub open spec fn rows(lo_x: int, hi_x: int, lo_y: int, hi_y: int) -> Seq<IVec2>
    decreases hi_x - lo_x + 1,
{
    if hi_x < lo_x {
        Seq::empty()
    } else {
        rows(lo_x, hi_x - 1, lo_y, hi_y) + row(hi_x, lo_y, hi_y)
    }
}

/// `after` is `before` with `entity` taken out of the cells its old place covered (if
/// it had one) and put into the cells its new place covers; other entities stay put.
pub open spec fn moved(
    before: Seq<(IVec2, Vec<Entity>)>,
    after: Seq<(IVec2, Vec<Entity>)>,
    entity: Entity,
    old_position: Option<IVec2>,
    old_aabb: GridAabb,
    position: IVec2,
    aabb: GridAabb,
) -> bool {
    forall|p: IVec2, f: Entity| #[trigger] holds(after, p, f) == if f == entity {
        covers(position, aabb, p) || (holds(before, p, f) && !(old_position matches Some(o) && covers(
            o,
            old_aabb,
            p,
        )))
    } else {
        holds(before, p, f)
    }
}

/// An entity held in exactly the cells its place covers is, after a move, held in
/// exactly the cells its new place covers, and no other entity changed cells.
pub proof fn lemma_move_keeps_cover(
    before: Seq<(IVec2, Vec<Entity>)>,
    after: Seq<(IVec2, Vec<Entity>)>,
    entity: Entity,
    old_position: Option<IVec2>,
    old_aabb: GridAabb,
    position: IVec2,
    aabb: GridAabb,
)
    requires
        forall|p: IVec2| #[trigger] holds(before, p, entity) == (old_position matches Some(o) && covers(o, old_aabb, p)),
        moved(before, after, entity, old_position, old_aabb, position, aabb),
    ensures
        forall|p: IVec2| #[trigger] holds(after, p, entity) == covers(position, aabb, p),
        forall|p: IVec2, f: Entity| f != entity ==> #[trigger] holds(after, p, f) == holds(before, p, f),
{
    assert forall|p: IVec2| #[trigger] holds(after, p, entity) == covers(position, aabb, p) by {
        assert(holds(before, p, entity) == (old_position matches Some(o) && covers(o, old_aabb, p)));
    }
}

/// Grid cells and the entities in them.
pub struct SpatialHash {
    cells: Vec<(IVec2, Vec<Entity>)>,
    cell_size: u16,
}

impl SpatialHash {
    /// The cells with the entities each holds.
    pub closed spec fn cells_view(&self) -> Seq<(IVec2, Vec<Entity>)> {
        self.cells@
    }

    pub closed spec fn cell_size_view(&self) -> u16 {
        self.cell_size
    }

    /// No two cells share a position.
    pub open spec fn well_formed(&self) -> bool {
        distinct_cells(self.cells_view())
    }

    /// An empty grid of cells `GLOBAL_GRID_CELL_SIZE` wide.
    pub fn new() -> (r: Self)
        ensures
            r.well_formed(),
            r.cells_view().len() == 0,
            r.cell_size_view() == GLOBAL_GRID_CELL_SIZE,
    {
        SpatialHash { cells: Vec::new(), cell_size: GLOBAL_GRID_CELL_SIZE }
    }

    /// The index of the cell at `q`.
    fn find(&self, q: IVec2) -> (r: Option<usize>)
        requires
            self.well_formed(),
        ensures
            match r {
                Some(i) => i < self.cells_view().len() && self.cells_view()[i as int].0 == q,
                None => forall|i: int| 0 <= i < self.cells_view().len() ==> (#[trigger] self.cells_view()[i]).0 != q,
            },
    {
        let mut i: usize = 0;
        while i < self.cells.len()
            invariant
                i <= self.cells.len(),
                forall|j: int| 0 <= j < i ==> (#[trigger] self.cells@[j]).0 != q,
            decreases self.cells.len() - i,
        {
            if self.cells[i].0 == q {
                return Some(i);
            }
            i = i + 1;
        }
        None
    }

    /// Takes `e` out of the cell at `q`.
    fn remove_at(&mut self, q: IVec2, e: Entity)
        requires
            old(self).well_formed(),
        ensures
            final(self).well_formed(),
            forall|p: IVec2, f: Entity| #[trigger] holds(final(self).cells_view(), p, f) == (holds(
                old(self).cells_view(),
                p,
                f,
            ) && !(p == q && f == e)),
    {
        let ghost before = self.cells@;
        match self.find(q) {
            None => {
                assert forall|p: IVec2, f: Entity| #[trigger] holds(self.cells@, p, f) == (holds(before, p, f) && !(p == q && f == e)) by {
                    if holds(before, p, f) && p == q {
                        let i = choose|i: int| 0 <= i < before.len() && (#[trigger] before[i]).0 == p && before[i].1@.contains(f);
                        assert(before[i].0 != q);
                    }
                }
            },
            Some(i) => {
                let old_entities = &self.cells[i].1;
                let mut kept: Vec<Entity> = Vec::new();
                let mut k: usize = 0;
                while k < old_entities.len()
                    invariant
                        k <= old_entities.len(),
                        forall|f: Entity| kept@.contains(f) <==> (exists|j: int| 0 <= j < k && old_entities@[j] == f && f != e),
                    decreases old_entities.len() - k,
                {
                    let f = old_entities[k];
                    let ghost prev = kept@;
                    if f != e {
                        kept.push(f);
                    }
                    assert forall|g: Entity| kept@.contains(g) <==> (exists|j: int| 0 <= j < k + 1 && old_entities@[j] == g && g != e) by {
                        if kept@.contains(g) {
                            if prev.contains(g) {
                            } else {
                                assert(g == f);
                                assert(old_entities@[k as int] == g);
                            }
                        }
                        if exists|j: int| 0 <= j < k + 1 && old_entities@[j] == g && g != e {
                            let j = choose|j: int| 0 <= j < k + 1 && old_entities@[j] == g && g != e;
                            if j < k {
                                assert(prev.contains(g));
                                let m = choose|m: int| 0 <= m < prev.len() && prev[m] == g;
                                assert(kept@[m] == g);
                            } else {
                                assert(kept@[kept@.len() - 1] == g);
                            }
                        }
                    }
                    k = k + 1;
                }
                let ghost old_cell = before[i as int];
                assert forall|f: Entity| kept@.contains(f) <==> (old_cell.1@.contains(f) && f != e) by {
                    if old_cell.1@.contains(f) && f != e {
                        let j = choose|j: int| 0 <= j < old_cell.1@.len() && old_cell.1@[j] == f;
                        assert(old_entities@[j] == f);
                    }
                }
                self.cells.set(i, (q, kept));
                assert forall|p: IVec2, f: Entity| #[trigger] holds(self.cells@, p, f) == (holds(before, p, f) && !(p == q && f == e)) by {
                    if holds(self.cells@, p, f) {
                        let j = choose|j: int| 0 <= j < self.cells@.len() && (#[trigger] self.cells@[j]).0 == p && self.cells@[j].1@.contains(f);
                        if j == i {
                            assert(before[j].0 == p && before[j].1@.contains(f));
                        } else {
                            assert(before[j] == self.cells@[j]);
                            assert(before[j].0 != q);
                        }
                    }
                    if holds(before, p, f) && !(p == q && f == e) {
                        let j = choose|j: int| 0 <= j < before.len() && (#[trigger] before[j]).0 == p && before[j].1@.contains(f);
                        if j == i {
                            assert(self.cells@[j].0 == p && self.cells@[j].1@.contains(f));
                        } else {
                            assert(self.cells@[j] == before[j]);
                        }
                    }
                }
                assert forall|a: int, b: int| 0 <= a < b < self.cells@.len() implies self.cells@[a].0 != self.cells@[b].0 by {
                    assert(self.cells@[a].0 == before[a].0);
                    assert(self.cells@[b].0 == before[b].0);
                }
            },
        }
    }

    /// Puts `e` into the cell at `q`, making the cell if there is none.
    fn add_at(&mut self, q: IVec2, e: Entity)
        requires
            old(self).well_formed(),
        ensures
            final(self).well_formed(),
            forall|p: IVec2, f: Entity| #[trigger] holds(final(self).cells_view(), p, f) == (holds(
                old(self).cells_view(),
                p,
                f,
            ) || (p == q && f == e)),
    {
        let ghost before = self.cells@;
        match self.find(q) {
            None => {
                let mut entities: Vec<Entity> = Vec::new();
                entities.push(e);
                self.cells.push((q, entities));
                let ghost n = before.len() as int;
                assert(self.cells@[n].1@.contains(e)) by {
                    assert(self.cells@[n].1@[0] == e);
                }
                assert forall|p: IVec2, f: Entity| #[trigger] holds(self.cells@, p, f) == (holds(before, p, f) || (p == q && f == e)) by {
                    if holds(self.cells@, p, f) {
                        let j = choose|j: int| 0 <= j < self.cells@.len() && (#[trigger] self.cells@[j]).0 == p && self.cells@[j].1@.contains(f);
                        if j < n {
                            assert(before[j] == self.cells@[j]);
                        } else {
                            assert(self.cells@[j].1@.len() == 1);
                        }
                    }
                    if holds(before, p, f) {
                        let j = choose|j: int| 0 <= j < before.len() && (#[trigger] before[j]).0 == p && before[j].1@.contains(f);
                        assert(self.cells@[j] == before[j]);
                    }
                }
                assert forall|a: int, b: int| 0 <= a < b < self.cells@.len() implies self.cells@[a].0 != self.cells@[b].0 by {
                    if b == n {
                        assert(before[a].0 != q);
                    } else {
                        assert(self.cells@[a] == before[a]);
                        assert(self.cells@[b] == before[b]);
                    }
                }
            },
            Some(i) => {
                let old_entities = &self.cells[i].1;
                let mut grown: Vec<Entity> = Vec::new();
                let mut present = false;
                let mut k: usize = 0;
                while k < old_entities.len()
                    invariant
                        k <= old_entities.len(),
                        grown@ == old_entities@.take(k as int),
                        present == old_entities@.take(k as int).contains(e),
                    decreases old_entities.len() - k,
                {
                    let f = old_entities[k];
                    if f == e {
                        present = true;
                    }
                    grown.push(f);
                    proof {
                        let t = old_entities@.take(k as int);
                        assert(old_entities@.take(k + 1) == t.push(f));
                        if t.push(f).contains(e) && f != e {
                            let m = choose|m: int| 0 <= m < t.push(f).len() && t.push(f)[m] == e;
                            assert(t[m] == e);
                        }
                        if f == e {
                            assert(t.push(f)[t.len() as int] == e);
                        }
                        if t.contains(e) {
                            let m = choose|m: int| 0 <= m < t.len() && t[m] == e;
                            assert(t.push(f)[m] == e);
                        }
                    }
                    k = k + 1;
                }
                assert(old_entities@.take(old_entities@.len() as int) == old_entities@);
                if !present {
                    grown.push(e);
                }
                let ghost old_cell = before[i as int];
                assert forall|f: Entity| grown@.contains(f) <==> (old_cell.1@.contains(f) || f == e) by {
                    if f == e && !present {
                        assert(grown@[grown@.len() - 1] == e);
                    }
                    if grown@.contains(f) && !old_cell.1@.contains(f) {
                        let m = choose|m: int| 0 <= m < grown@.len() && grown@[m] == f;
                        if m < old_cell.1@.len() {
                            assert(old_cell.1@[m] == f);
                        }
                    }
                    if old_cell.1@.contains(f) {
                        let m = choose|m: int| 0 <= m < old_cell.1@.len() && old_cell.1@[m] == f;
                        assert(grown@[m] == f);
                    }
                }
                self.cells.set(i, (q, grown));
                assert forall|p: IVec2, f: Entity| #[trigger] holds(self.cells@, p, f) == (holds(before, p, f) || (p == q && f == e)) by {
                    if holds(self.cells@, p, f) {
                        let j = choose|j: int| 0 <= j < self.cells@.len() && (#[trigger] self.cells@[j]).0 == p && self.cells@[j].1@.contains(f);
                        if j != i {
                            assert(before[j] == self.cells@[j]);
                        } else if f != e {
                            assert(before[j].0 == p && before[j].1@.contains(f));
                        }
                    }
                    if holds(before, p, f) {
                        let j = choose|j: int| 0 <= j < before.len() && (#[trigger] before[j]).0 == p && before[j].1@.contains(f);
                        if j != i {
                            assert(self.cells@[j] == before[j]);
                        } else {
                            assert(self.cells@[j].0 == p && self.cells@[j].1@.contains(f));
                        }
                    }
                    if p == q && f == e {
                        assert(self.cells@[i as int].0 == p && self.cells@[i as int].1@.contains(f));
                    }
                }
                assert forall|a: int, b: int| 0 <= a < b < self.cells@.len() implies self.cells@[a].0 != self.cells@[b].0 by {
                    assert(self.cells@[a].0 == before[a].0);
                    assert(self.cells@[b].0 == before[b].0);
                }
            },
        }
    }

    /// Takes `e` out of every cell of the square reaching `size` from `c`.
    fn remove_square(&mut self, c: IVec2, size: UVec2, e: Entity)
        requires
            old(self).well_formed(),
            square_fits(c.x as int, c.y as int, size),
        ensures
            final(self).well_formed(),
            forall|p: IVec2, f: Entity| #[trigger] holds(final(self).cells_view(), p, f) == (holds(
                old(self).cells_view(),
                p,
                f,
            ) && !(f == e && in_square(c.x as int, c.y as int, size, p))),
    {
        let ghost before = self.cells_view();
        let lo_x: i64 = c.x as i64 - size.x as i64;
        let hi_x: i64 = c.x as i64 + size.x as i64;
        let lo_y: i64 = c.y as i64 - size.y as i64;
        let hi_y: i64 = c.y as i64 + size.y as i64;
        let mut x = lo_x;
        while x <= hi_x
            invariant
                self.well_formed(),
                lo_x == c.x - size.x,
                hi_x == c.x + size.x,
                lo_y == c.y - size.y,
                hi_y == c.y + size.y,
                square_fits(c.x as int, c.y as int, size),
                lo_x <= x <= hi_x + 1,
                forall|p: IVec2, f: Entity| #[trigger] holds(self.cells_view(), p, f) == (holds(before, p, f) && !(f
                    == e && in_square(c.x as int, c.y as int, size, p) && p.x < x)),
            decreases hi_x + 1 - x,
        {
            let mut y = lo_y;
            while y <= hi_y
                invariant
                    self.well_formed(),
                    lo_x == c.x - size.x,
                    hi_x == c.x + size.x,
                    lo_y == c.y - size.y,
                    hi_y == c.y + size.y,
                    square_fits(c.x as int, c.y as int, size),
                    lo_x <= x <= hi_x,
                    lo_y <= y <= hi_y + 1,
                    forall|p: IVec2, f: Entity| #[trigger] holds(self.cells_view(), p, f) == (holds(before, p, f) && !(f
                        == e && in_square(c.x as int, c.y as int, size, p) && walked(p, x as int, y as int))),
                decreases hi_y + 1 - y,
            {
                self.remove_at(IVec2 { x: x as i32, y: y as i32 }, e);
                y = y + 1;
            }
            x = x + 1;
        }
    }

    /// Puts `e` into every cell of the square reaching `size` from `c`.
    fn add_square(&mut self, c: IVec2, size: UVec2, e: Entity)
        requires
            old(self).well_formed(),
            square_fits(c.x as int, c.y as int, size),
        ensures
            final(self).well_formed(),
            forall|p: IVec2, f: Entity| #[trigger] holds(final(self).cells_view(), p, f) == (holds(
                old(self).cells_view(),
                p,
                f,
            ) || (f == e && in_square(c.x as int, c.y as int, size, p))),
    {
        let ghost before = self.cells_view();
        let lo_x: i64 = c.x as i64 - size.x as i64;
        let hi_x: i64 = c.x as i64 + size.x as i64;
        let lo_y: i64 = c.y as i64 - size.y as i64;
        let hi_y: i64 = c.y as i64 + size.y as i64;
        let mut x = lo_x;
        while x <= hi_x
            invariant
                self.well_formed(),
                lo_x == c.x - size.x,
                hi_x == c.x + size.x,
                lo_y == c.y - size.y,
                hi_y == c.y + size.y,
                square_fits(c.x as int, c.y as int, size),
                lo_x <= x <= hi_x + 1,
                forall|p: IVec2, f: Entity| #[trigger] holds(self.cells_view(), p, f) == (holds(before, p, f) || (f
                    == e && in_square(c.x as int, c.y as int, size, p) && p.x < x)),
            decreases hi_x + 1 - x,
        {
            let mut y = lo_y;
            while y <= hi_y
                invariant
                    self.well_formed(),
                    lo_x == c.x - size.x,
                    hi_x == c.x + size.x,
                    lo_y == c.y - size.y,
                    hi_y == c.y + size.y,
                    square_fits(c.x as int, c.y as int, size),
                    lo_x <= x <= hi_x,
                    lo_y <= y <= hi_y + 1,
                    forall|p: IVec2, f: Entity| #[trigger] holds(self.cells_view(), p, f) == (holds(before, p, f) || (f
                        == e && in_square(c.x as int, c.y as int, size, p) && walked(p, x as int, y as int))),
                decreases hi_y + 1 - y,
            {
                self.add_at(IVec2 { x: x as i32, y: y as i32 }, e);
                y = y + 1;
            }
            x = x + 1;
        }
    }

    /// Moves `entity` to `position` with extent `aabb`: it leaves the cells it covered
    /// and enters those it covers now. Nothing happens when neither changed. `current`
    /// records where the entity is.
    pub fn insert(&mut self, entity: Entity, position: IVec2, aabb: GridAabb, current: &mut InGrid)
        requires
            old(self).well_formed(),
            cover_fits(position, aabb),
            old(current).position matches Some(o) ==> cover_fits(o, old(current).aabb),
        ensures
            final(self).well_formed(),
            if old(current).position == Some(position) && old(current).aabb == aabb {
                &&& final(self).cells_view() == old(self).cells_view()
                &&& final(current).position == old(current).position
                &&& final(current).aabb == old(current).aabb
            } else {
                &&& final(current).position == Some(position)
                &&& final(current).aabb == aabb
                &&& moved(
                    old(self).cells_view(),
                    final(self).cells_view(),
                    entity,
                    old(current).position,
                    old(current).aabb,
                    position,
                    aabb,
                )
            },
    {
        let changed_position = match current.position {
            Some(p) => p != position,
            None => true,
        };
        let changed_aabb = current.aabb != aabb;
        if !changed_position && !changed_aabb {
            return;
        }
        match current.position {
            Some(old_position) => {
                let old_aabb = current.aabb;
                let c = IVec2 { x: old_position.x + old_aabb.center.x, y: old_position.y + old_aabb.center.y };
                self.remove_square(c, old_aabb.size, entity);
            },
            None => {},
        }
        current.position = Some(position);
        current.aabb = aabb;
        let c = IVec2 { x: position.x + aabb.center.x, y: position.y + aabb.center.y };
        self.add_square(c, aabb.size, entity);
    }

    /// The cells of the square reaching `size` from `position`, row after row.
    pub fn relevant_positions(&self, position: IVec2, size: UVec2) -> (r: Vec<IVec2>)
        requires
            square_fits(position.x as int, position.y as int, size),
        ensures
            r@ == rows(
                position.x - size.x,
                position.x + size.x,
                position.y - size.y,
                position.y + size.y,
            ),
    {
        let lo_x: i64 = position.x as i64 - size.x as i64;
        let hi_x: i64 = position.x as i64 + size.x as i64;
        let lo_y: i64 = position.y as i64 - size.y as i64;
        let hi_y: i64 = position.y as i64 + size.y as i64;
        let mut out: Vec<IVec2> = Vec::new();
        let mut x = lo_x;
        while x <= hi_x
            invariant
                lo_x == position.x - size.x,
                hi_x == position.x + size.x,
                lo_y == position.y - size.y,
                hi_y == position.y + size.y,
                square_fits(position.x as int, position.y as int, size),
                lo_x <= x <= hi_x + 1,
                out@ == rows(lo_x as int, x - 1, lo_y as int, hi_y as int),
            decreases hi_x + 1 - x,
        {
            let ghost done = out@;
            let mut y = lo_y;
            while y <= hi_y
                invariant
                    lo_x == position.x - size.x,
                    hi_x == position.x + size.x,
                    lo_y == position.y - size.y,
                    hi_y == position.y + size.y,
                    square_fits(position.x as int, position.y as int, size),
                    lo_x <= x <= hi_x,
                    lo_y <= y <= hi_y + 1,
                    out@ == done + row(x as int, lo_y as int, y - 1),
                decreases hi_y + 1 - y,
            {
                out.push(IVec2 { x: x as i32, y: y as i32 });
                assert(row(x as int, lo_y as int, y as int) =~= row(x as int, lo_y as int, y - 1).push(
                    IVec2 { x: x as i32, y: y as i32 },
                ));
                y = y + 1;
            }
            x = x + 1;
        }
        out
    }

    /// The entities in the cell at `q`.
    pub fn entities_in(&self, q: IVec2) -> (r: Vec<Entity>)
        requires
            self.well_formed(),
        ensures
            forall|f: Entity| r@.contains(f) <==> holds(self.cells_view(), q, f),
    {
        match self.find(q) {
            None => {
                let r: Vec<Entity> = Vec::new();
                assert forall|f: Entity| r@.contains(f) <==> holds(self.cells_view(), q, f) by {
                    if holds(self.cells_view(), q, f) {
                        let j = choose|j: int| 0 <= j < self.cells@.len() && (#[trigger] self.cells@[j]).0 == q && self.cells@[j].1@.contains(f);
                    }
                }
                r
            },
            Some(i) => {
                let entities = &self.cells[i].1;
                let mut r: Vec<Entity> = Vec::new();
                let mut k: usize = 0;
                while k < entities.len()
                    invariant
                        k <= entities.len(),
                        r@ == entities@.take(k as int),
                    decreases entities.len() - k,
                {
                    r.push(entities[k]);
                    assert(entities@.take(k + 1) == entities@.take(k as int).push(entities@[k as int]));
                    k = k + 1;
                }
                assert(entities@.take(entities@.len() as int) == entities@);
                assert forall|f: Entity| r@.contains(f) <==> holds(self.cells_view(), q, f) by {
                    if holds(self.cells_view(), q, f) {
                        let j = choose|j: int| 0 <= j < self.cells@.len() && (#[trigger] self.cells@[j]).0 == q && self.cells@[j].1@.contains(f);
                        assert(j == i);
                    }
                    if r@.contains(f) {
                        assert(self.cells@[i as int].0 == q);
                    }
                }
                r
            },
        }
    }
}

} // verus!
