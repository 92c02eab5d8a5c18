//! The tile grid, stored in square chunks.
use vstd::prelude::*;
use crate::entity::Entity;
use crate::maps::direction::UVec2;

verus! {

/// Side length of a chunk, in tiles.
pub const CHUNK_SIZE: u32 = 16;

/// Number of tiles in a chunk.
pub const CHUNK_LENGTH: usize = 256;

/// The layers a tile is made of.
#[derive(Clone, Copy, PartialEq, Eq, Structural, Debug, Hash)]
pub enum TileLayer {
    Turf,
    Furniture,
    HighMount,
}

/// What a tile layer holds: one slot, or one slot per direction.
#[derive(Clone, Copy, Debug)]
pub enum TileLayerData<T> {
    Single(Option<T>),
    Directional([Option<T>; 4]),
}

/// Uniquely references a tile entity in a [`TileMap`].
///
/// This path is no longer valid if the tilemap's dimensions change, as it contains an
/// index inside the map.
#[derive(Clone, Copy, PartialEq, Eq, Structural, Debug)]
pub struct TileEntityPath {
    pub position: UVec2,
    pub layer: TileLayer,
    pub index_in_layer: Option<u8>,
}

/// Points to the entities making up a tile at runtime.
#[derive(Clone, Copy, Debug)]
pub struct TileReference {
    pub turf: Option<Entity>,
    pub furniture: Option<Entity>,
    pub high_mounts: [Option<Entity>; 4],
}

/// A tile reference pointing to nothing.
pub open spec fn empty_tile() -> TileReference {
    TileReference { turf: None, furniture: None, high_mounts: [None, None, None, None] }
}

impl Default for TileReference {
    fn default() -> (r: Self)
        ensures
            r == empty_tile(),
    {
        TileReference { turf: None, furniture: None, high_mounts: [None, None, None, None] }
    }
}

/// The position of tile number `index` of a chunk, row by row.
pub open spec fn spec_position_in_chunk(index: int) -> UVec2 {
    UVec2 { x: (index % 16) as u32, y: (index / 16) as u32 }
}

impl TileReference {
    /// The position of tile number `index` of a chunk, row by row.
    pub fn position_in_chunk(index: usize) -> (r: UVec2)
        requires
            index <= u32::MAX,
        ensures
            r == spec_position_in_chunk(index as int),
    {
        let i = index as u32;
        let y = i / CHUNK_SIZE;
        let x = if y == 0 { i } else { i % (y * CHUNK_SIZE) };
        proof {
            if y > 0 {
                lemma_mod_by_row(i as int, y as int, 16);
            }
        }
        UVec2 { x, y }
    }

    /// What the tile holds in `layer`.
    pub open spec fn spec_get(self, layer: TileLayer) -> TileLayerData<Entity> {
        match layer {
            TileLayer::Turf => TileLayerData::Single(self.turf),
            TileLayer::Furniture => TileLayerData::Single(self.furniture),
            TileLayer::HighMount => TileLayerData::Directional(self.high_mounts),
        }
    }

    /// Whether `data` has the shape of `layer`: one slot for turf and furniture, four for high mounts.
    pub open spec fn fits(layer: TileLayer, data: TileLayerData<Entity>) -> bool {
        match layer {
            TileLayer::HighMount => data is Directional,
            _ => data is Single,
        }
    }

    /// The tile with `layer` replaced by `data`.
    pub open spec fn spec_set(self, layer: TileLayer, data: TileLayerData<Entity>) -> TileReference {
        match (layer, data) {
            (TileLayer::Turf, TileLayerData::Single(v)) => TileReference { turf: v, ..self },
            (TileLayer::Furniture, TileLayerData::Single(v)) => TileReference { furniture: v, ..self },
            (TileLayer::HighMount, TileLayerData::Directional(v)) => TileReference { high_mounts: v, ..self },
            _ => self,
        }
    }

    /// `after` is `self` with the entity at `path` removed.
    pub open spec fn removed_at(self, path: TileEntityPath, after: TileReference) -> bool {
        match path.index_in_layer {
            Some(i) => {
                &&& after.high_mounts@ == self.high_mounts@.update(i as int, None)
                &&& after.turf == self.turf
                &&& after.furniture == self.furniture
            },
            None => after == self.spec_set(path.layer, TileLayerData::Single(None)),
        }
    }

    /// Whether `path` names a slot of a tile: an index only, and below 4, on the high-mount layer.
    pub open spec fn valid_path(path: TileEntityPath) -> bool {
        match path.index_in_layer {
            Some(i) => path.layer is HighMount && i < 4,
            None => !(path.layer is HighMount),
        }
    }

    pub fn get(&self, layer: TileLayer) -> (r: TileLayerData<Entity>)
        ensures
            r == self.spec_get(layer),
    {
        match layer {
            TileLayer::Turf => TileLayerData::Single(self.turf),
            TileLayer::Furniture => TileLayerData::Single(self.furniture),
            TileLayer::HighMount => TileLayerData::Directional(self.high_mounts),
        }
    }

    /// Replaces what the tile holds in `layer`; `data` must have the layer's shape.
    pub fn set(&mut self, layer: TileLayer, data: TileLayerData<Entity>)
        requires
            TileReference::fits(layer, data),
        ensures
            *final(self) == old(self).spec_set(layer, data),
    {
        match (layer, data) {
            (TileLayer::Turf, TileLayerData::Single(v)) => self.turf = v,
            (TileLayer::Furniture, TileLayerData::Single(v)) => self.furniture = v,
            (TileLayer::HighMount, TileLayerData::Directional(v)) => self.high_mounts = v,
            _ => {},
        }
    }

    /// Sets one of the four high-mount slots.
    pub fn set_index(&mut self, layer: TileLayer, index: usize, value: Option<Entity>)
        requires
            layer is HighMount,
            index < 4,
        ensures
            final(self).high_mounts@ == old(self).high_mounts@.update(index as int, value),
            final(self).turf == old(self).turf,
            final(self).furniture == old(self).furniture,
    {
        self.high_mounts[index] = value;
        assert(self.high_mounts@ =~= old(self).high_mounts@.update(index as int, value));
    }

    /// Clears the slot that `path` names.
    pub fn remove_at(&mut self, path: TileEntityPath)
        requires
            TileReference::valid_path(path),
        ensures
            old(self).removed_at(path, *final(self)),
    {
        match path.index_in_layer {
            Some(i) => {
                self.set_index(path.layer, i as usize, None);
            },
            None => {
                self.set(path.layer, TileLayerData::Single(None));
            },
        }
    }
}

proof fn lemma_mod_by_row(i: int, y: int, w: int)
    requires
        w > 0,
        y >= 1,
        y == i / w,
        i >= 0,
    ensures
        i % (y * w) == i % w,
{
    vstd::arithmetic::div_mod::lemma_fundamental_div_mod(i, w);
    let r = i % w;
    assert(i == y * w + r) by {
        vstd::arithmetic::mul::lemma_mul_is_commutative(w, y);
    }
    assert(0 <= r < w) by {
        vstd::arithmetic::div_mod::lemma_mod_bound(i, w);
    }
    assert(y * w >= w) by (nonlinear_arith)
        requires
            y >= 1,
            w > 0,
    ;
    vstd::arithmetic::div_mod::lemma_fundamental_div_mod_converse(i, y * w, 1, r);
}

/// The contents of a chunk.
pub struct ChunkView {
    pub tiles: Seq<TileReference>,
    pub changed_tiles: Seq<bool>,
    pub changed: bool,
}

/// A square of `CHUNK_SIZE` by `CHUNK_SIZE` tiles.
pub struct Chunk {
    tiles: Vec<TileReference>,
    changed_tiles: Vec<bool>,
    changed: bool,
}

impl View for Chunk {
    type V = ChunkView;

    closed spec fn view(&self) -> ChunkView {
        ChunkView { tiles: self.tiles@, changed_tiles: self.changed_tiles@, changed: self.changed }
    }
}

/// A fresh chunk: empty tiles, nothing changed.
pub open spec fn fresh_chunk() -> ChunkView {
    ChunkView {
        tiles: Seq::new(256, |i: int| empty_tile()),
        changed_tiles: Seq::new(256, |i: int| false),
        changed: false,
    }
}

impl ChunkView {
    pub open spec fn well_formed(self) -> bool {
        self.tiles.len() == 256 && self.changed_tiles.len() == 256
    }

    /// The chunk after tile `index` was written with `data`.
    pub open spec fn written(self, index: int, data: TileReference) -> ChunkView {
        ChunkView {
            tiles: self.tiles.update(index, data),
            changed_tiles: self.changed_tiles.update(index, true),
            changed: true,
        }
    }
}

impl Chunk {
    /// A chunk of empty tiles.
    pub fn new() -> (r: Chunk)
        ensures
            r@ == fresh_chunk(),
    {
        let mut tiles: Vec<TileReference> = Vec::new();
        let mut changed_tiles: Vec<bool> = Vec::new();
        let mut i: usize = 0;
        while i < CHUNK_LENGTH
            invariant
                i <= 256,
                tiles.len() == i,
                changed_tiles.len() == i,
                forall|k: int| 0 <= k < i ==> tiles@[k] == empty_tile(),
                forall|k: int| 0 <= k < i ==> !changed_tiles@[k],
            decreases 256 - i,
        {
            tiles.push(TileReference::default());
            changed_tiles.push(false);
            i = i + 1;
        }
        let r = Chunk { tiles, changed_tiles, changed: false };
        assert(r@.tiles =~= fresh_chunk().tiles);
        assert(r@.changed_tiles =~= fresh_chunk().changed_tiles);
        r
    }

    /// The index of a position inside the chunk, row by row.
    pub fn index_from_position(position: UVec2) -> (r: usize)
        requires
            position.y * 16 + position.x <= u32::MAX,
        ensures
            r == position.y * 16 + position.x,
    {
        (position.y * CHUNK_SIZE + position.x) as usize
    }

    /// The tile at a position inside the chunk.
    pub fn tile(&self, position: UVec2) -> (r: &TileReference)
        requires
            self@.well_formed(),
            position.y * 16 + position.x < 256,
        ensures
            *r == self@.tiles[position.y * 16 + position.x],
    {
        let index = Chunk::index_from_position(position);
        &self.tiles[index]
    }

    /// Whether anything in the chunk was written since it was made.
    pub fn is_changed(&self) -> (r: bool)
        ensures
            r == self@.changed,
    {
        self.changed
    }

    /// Writes the tile at `index`, marking it and the chunk changed.
    pub fn write(&mut self, index: usize, data: TileReference)
        requires
            old(self)@.well_formed(),
            index < 256,
        ensures
            final(self)@ == old(self)@.written(index as int, data),
            final(self)@.well_formed(),
    {
        self.changed = true;
        self.changed_tiles.set(index, true);
        self.tiles.set(index, data);
    }
}

impl Default for Chunk {
    fn default() -> (r: Self)
        ensures
            r@ == fresh_chunk(),
    {
        Chunk::new()
    }
}

/// The chunk a tile position falls in, as an index into the chunk list of a map
/// `size` chunks across.
pub open spec fn chunk_index_of(size: UVec2, position: UVec2) -> int {
    (position.y / 16) * size.x + position.x / 16
}

/// The index of a tile position inside its chunk.
pub open spec fn inner_index(position: UVec2) -> int {
    (position.y % 16) * 16 + position.x % 16
}

proof fn lemma_inner_index_bounds(p: UVec2)
    ensures
        0 <= inner_index(p) < 256,
{
}

/// The chunk index of a position can be computed in `u32`.
pub open spec fn position_fits(size: UVec2, position: UVec2) -> bool {
    (position.y / 16) * size.x + position.x / 16 <= u32::MAX
}

/// The world position of tile `i` of chunk number `index`.
pub open spec fn tile_world_position(size: UVec2, index: int, i: int) -> UVec2 {
    let c = spec_position_from_chunk_index(size, index);
    UVec2 { x: (c.x * 16 + i % 16) as u32, y: (c.y * 16 + i / 16) as u32 }
}

/// The tiles of chunk number `index` with their world positions, row by row.
pub open spec fn chunk_listing(size: UVec2, index: int, c: ChunkView) -> Seq<(UVec2, TileReference)> {
    Seq::new(256, |i: int| (tile_world_position(size, index, i), c.tiles[i]))
}

/// The tiles of all made chunks with their world positions, chunk after chunk.
pub open spec fn listing(size: UVec2, chunks: Seq<Option<ChunkView>>) -> Seq<(UVec2, TileReference)>
    decreases chunks.len(),
{
    if chunks.len() == 0 {
        Seq::empty()
    } else {
        let rest = listing(size, chunks.drop_last());
        match chunks.last() {
            Some(c) => rest + chunk_listing(size, chunks.len() - 1, c),
            None => rest,
        }
    }
}

/// The chunk position of chunk number `index` in a map `size` chunks across.
pub open spec fn spec_position_from_chunk_index(size: UVec2, index: int) -> UVec2 {
    UVec2 { x: (index % (size.x as int)) as u32, y: (index / (size.x as int)) as u32 }
}

/// The tile grid: `size.x` by `size.y` chunks, each present or not.
pub struct TileMap {
    /// Size in chunks.
    size: UVec2,
    chunks: Vec<Option<Box<Chunk>>>,
    /// The spawn positions of each job, by job name.
    pub job_spawn_positions: Vec<(String, Vec<UVec2>)>,
}

impl TileMap {
    /// Size in chunks.
    pub closed spec fn spec_size(&self) -> UVec2 {
        self.size
    }

    /// The chunks, row by row; `None` where a chunk was never made.
    pub closed spec fn chunks_view(&self) -> Seq<Option<ChunkView>> {
        self.chunks@.map_values(|c: Option<Box<Chunk>>| match c {
            Some(b) => Some((*b)@),
            None => None,
        })
    }

    /// The spawn positions of each job, by job name.
    pub closed spec fn spawns_view(&self) -> Seq<(String, Vec<UVec2>)> {
        self.job_spawn_positions@
    }

    /// The spawn positions of each job, by job name.
    pub fn spawns(&self) -> (r: &Vec<(String, Vec<UVec2>)>)
        ensures
            r@ == self.spawns_view(),
    {
        &self.job_spawn_positions
    }

    /// One chunk slot per chunk position, each chunk of full size.
    pub open spec fn well_formed(&self) -> bool {
        &&& self.chunks_view().len() == self.spec_size().x * self.spec_size().y
        &&& self.spec_size().x * self.spec_size().y <= u32::MAX
        &&& forall|i: int| 0 <= i < self.chunks_view().len() && #[trigger] self.chunks_view()[i] is Some
            ==> self.chunks_view()[i]->0.well_formed()
    }

    /// The tile at `position`, if its chunk exists.
    pub open spec fn spec_tile(&self, position: UVec2) -> Option<TileReference> {
        let i = chunk_index_of(self.spec_size(), position);
        if 0 <= i < self.chunks_view().len() && self.chunks_view()[i] is Some {
            Some(self.chunks_view()[i]->0.tiles[inner_index(position)])
        } else {
            None
        }
    }

    /// A map of `size` chunks, none of them made yet.
    pub fn new(size: UVec2) -> (r: Self)
        requires
            size.x * size.y <= u32::MAX,
        ensures
            r.well_formed(),
            r.spec_size() == size,
            forall|i: int| 0 <= i < r.chunks_view().len() ==> r.chunks_view()[i] is None,
    {
        let count = size.x * size.y;
        let mut chunks: Vec<Option<Box<Chunk>>> = Vec::new();
        let mut i: u32 = 0;
        while i < count
            invariant
                i <= count,
                count == size.x * size.y,
                chunks.len() == i,
                forall|k: int| 0 <= k < i ==> chunks@[k] is None,
            decreases count - i,
        {
            chunks.push(None);
            i = i + 1;
        }
        TileMap { size, chunks, job_spawn_positions: Vec::new() }
    }

    /// Size in chunks.
    pub fn size(&self) -> (r: UVec2)
        ensures
            r == self.spec_size(),
    {
        self.size
    }

    /// The made chunks with their indices, in index order.
    pub fn iter_chunks(&self) -> (r: Vec<(usize, &Chunk)>)
        ensures
            forall|k: int| 0 <= k < r.len() ==> #[trigger] r@[k].0 < self.chunks_view().len()
                && self.chunks_view()[r@[k].0 as int] == Some(r@[k].1@),
            forall|k: int, l: int| 0 <= k < l < r.len() ==> r@[k].0 < r@[l].0,
            forall|i: int| 0 <= i < self.chunks_view().len() && #[trigger] self.chunks_view()[i] is Some
                ==> exists|k: int| 0 <= k < r.len() && r@[k].0 == i,
    {
        let mut out: Vec<(usize, &Chunk)> = Vec::new();
        let mut i: usize = 0;
        while i < self.chunks.len()
            invariant
                i <= self.chunks.len(),
                forall|k: int| 0 <= k < out.len() ==> #[trigger] out@[k].0 < i
                    && self.chunks_view()[out@[k].0 as int] == Some(out@[k].1@),
                forall|k: int, l: int| 0 <= k < l < out.len() ==> out@[k].0 < out@[l].0,
                forall|j: int| 0 <= j < i && #[trigger] self.chunks_view()[j] is Some
                    ==> exists|k: int| 0 <= k < out.len() && out@[k].0 == j,
            decreases self.chunks.len() - i,
        {
            let ghost before = out@;
            match &self.chunks[i] {
                Some(c) => {
                    out.push((i, &**c));
                    assert(out@[out.len() - 1].0 == i);
                },
                None => {},
            }
            assert forall|j: int| 0 <= j < i + 1 && #[trigger] self.chunks_view()[j] is Some
                implies exists|k: int| 0 <= k < out.len() && out@[k].0 == j by {
                if j < i {
                    let k = choose|k: int| 0 <= k < before.len() && before[k].0 == j;
                    assert(out@[k] == before[k]);
                } else {
                    assert(out@[out.len() - 1].0 == j);
                }
            }
            i = i + 1;
        }
        out
    }

    /// Every tile of the made chunks with its world position, chunk after chunk.
    pub fn iter_tiles(&self) -> (r: Vec<(UVec2, TileReference)>)
        requires
            self.well_formed(),
            self.spec_size().x * 16 <= u32::MAX,
            self.spec_size().y * 16 <= u32::MAX,
        ensures
            r@ == listing(self.spec_size(), self.chunks_view()),
    {
        let size = self.size;
        let mut out: Vec<(UVec2, TileReference)> = Vec::new();
        let mut j: usize = 0;
        let n = self.chunks.len();
        while j < n
            invariant
                self.well_formed(),
                size == self.spec_size(),
                size.x * 16 <= u32::MAX,
                size.y * 16 <= u32::MAX,
                n == self.chunks_view().len(),
                j <= n,
                out@ == listing(size, self.chunks_view().take(j as int)),
            decreases n - j,
        {
            assert(self.chunks_view().take(j as int + 1).drop_last() =~= self.chunks_view().take(j as int));
            match &self.chunks[j] {
                Some(c) => {
                    assert(self.chunks_view()[j as int] is Some);
                    let cv = Ghost(self.chunks_view()[j as int]->0);
                    assert(c@ == cv@);
                    proof {
                        assert(size.x * size.y == n);
                        assert(size.x > 0) by (nonlinear_arith)
                            requires
                                size.x * size.y == n,
                                j < n,
                        ;
                    }
                    let origin = TileMap::position_from_chunk_index(size, j);
                    proof {
                        assert(j as int / size.x as int <= j as int) by (nonlinear_arith)
                            requires
                                size.x > 0,
                                j >= 0,
                        ;
                        vstd::arithmetic::div_mod::lemma_mod_bound(j as int, size.x as int);
                        vstd::arithmetic::div_mod::lemma_mod_bound(j as int, size.x as int);
                        assert(origin.y < size.y) by (nonlinear_arith)
                            requires
                                origin.y == j as int / size.x as int,
                                j < size.x * size.y,
                                size.x > 0,
                        ;
                        assert(origin.x * 16 + 15 < size.x * 16 + 1) by (nonlinear_arith)
                            requires
                                origin.x < size.x,
                        ;
                        assert(origin.y * 16 + 15 < size.y * 16 + 1) by (nonlinear_arith)
                            requires
                                origin.y < size.y,
                        ;
                    }
                    let base = Ghost(out@);
                    let mut i: usize = 0;
                    while i < CHUNK_LENGTH
                        invariant
                            i <= 256,
                            cv@.well_formed(),
                            c@ == cv@,
                            origin == spec_position_from_chunk_index(size, j as int),
                            origin.x * 16 + 15 <= u32::MAX,
                            origin.y * 16 + 15 <= u32::MAX,
                            out@ == base@ + chunk_listing(size, j as int, cv@).take(i as int),
                        decreases 256 - i,
                    {
                        let inner = TileReference::position_in_chunk(i);
                        let tile = *c.tile(inner);
                        out.push((UVec2 { x: origin.x * CHUNK_SIZE + inner.x, y: origin.y * CHUNK_SIZE + inner.y }, tile));
                        proof {
                            assert(chunk_listing(size, j as int, cv@).take(i as int + 1) =~= chunk_listing(size, j as int, cv@).take(i as int).push(chunk_listing(size, j as int, cv@)[i as int]));
                        }
                        i = i + 1;
                    }
                    assert(chunk_listing(size, j as int, cv@).take(256) =~= chunk_listing(size, j as int, cv@));
                },
                None => {},
            }
            j = j + 1;
        }
        assert(self.chunks_view().take(n as int) =~= self.chunks_view());
        out
    }

    /// The chunk with the given index, if made.
    pub fn chunk(&self, index: usize) -> (r: Option<&Chunk>)
        ensures
            r matches Some(c) ==> index < self.chunks_view().len() && self.chunks_view()[index as int] == Some(c@),
            r is None <==> !(index < self.chunks_view().len() && self.chunks_view()[index as int] is Some),
    {
        if index < self.chunks.len() {
            match &self.chunks[index] {
                Some(c) => Some(&**c),
                None => None,
            }
        } else {
            None
        }
    }

    /// The index of the chunk at a chunk position.
    pub fn index_from_chunk_position(&self, position: UVec2) -> (r: usize)
        requires
            position.y * self.spec_size().x + position.x <= u32::MAX,
        ensures
            r == position.y * self.spec_size().x + position.x,
    {
        (position.y * self.size.x + position.x) as usize
    }

    /// The chunk at a chunk position, if made.
    pub fn chunk_at(&self, position: UVec2) -> (r: Option<&Chunk>)
        requires
            position.y * self.spec_size().x + position.x <= u32::MAX,
        ensures
            ({
                let i = position.y * self.spec_size().x + position.x;
                &&& r matches Some(c) ==> i < self.chunks_view().len() && self.chunks_view()[i] == Some(c@)
                &&& r is None <==> !(i < self.chunks_view().len() && self.chunks_view()[i] is Some)
            }),
    {
        let index = self.index_from_chunk_position(position);
        self.chunk(index)
    }

    /// The chunk position of chunk number `index` in a map `size` chunks across. The index
    /// is first cut to its low 32 bits, as a `u32`.
    pub fn position_from_chunk_index(size: UVec2, index: usize) -> (r: UVec2)
        requires
            size.x > 0,
        ensures
            r == spec_position_from_chunk_index(size, (index as u32) as int),
    {
        let i = #[verifier::truncate] (index as u32);
        let y = i / size.x;
        let x = if y == 0 { i } else {
            proof {
                assert(y * size.x <= i) by (nonlinear_arith)
                    requires
                        y == i / size.x,
                        size.x > 0,
                ;
                assert(y * size.x > 0) by (nonlinear_arith)
                    requires
                        y > 0,
                        size.x > 0,
                ;
            }
            i % (y * size.x)
        };
        proof {
            if y > 0 {
                lemma_mod_by_row(i as int, y as int, size.x as int);
            } else {
                vstd::arithmetic::div_mod::lemma_fundamental_div_mod(i as int, size.x as int);
                vstd::arithmetic::div_mod::lemma_mod_bound(i as int, size.x as int);
                assert(i % size.x == i);
            }
        }
        UVec2 { x, y }
    }

    fn position_inside_chunk(&self, position: UVec2) -> (r: UVec2)
        ensures
            r.x == position.x % 16,
            r.y == position.y % 16,
    {
        UVec2 { x: position.x % CHUNK_SIZE, y: position.y % CHUNK_SIZE }
    }

    fn index_from_position(&self, position: UVec2) -> (r: usize)
        requires
            position_fits(self.spec_size(), position),
        ensures
            r == chunk_index_of(self.spec_size(), position),
    {
        let chunk_position = UVec2 { x: position.x / CHUNK_SIZE, y: position.y / CHUNK_SIZE };
        self.index_from_chunk_position(chunk_position)
    }

    /// The tile at `position`, if its chunk exists.
    pub fn tile(&self, position: UVec2) -> (r: Option<&TileReference>)
        requires
            self.well_formed(),
            position_fits(self.spec_size(), position),
        ensures
            r matches Some(t) ==> self.spec_tile(position) == Some(*t),
            r is None <==> self.spec_tile(position) is None,
    {
        let chunk_index = self.index_from_position(position);
        let inner = self.position_inside_chunk(position);
        if chunk_index < self.chunks.len() {
            match &self.chunks[chunk_index] {
                Some(c) => {
                    proof {
                        assert(self.chunks_view()[chunk_index as int] is Some);
                    }
                    Some(c.tile(inner))
                },
                None => None,
            }
        } else {
            None
        }
    }

    /// Clears the slot that `path` names in its tile, if the tile's chunk exists
    /// (the tile is then marked changed).
    pub fn remove_tile_entity(&mut self, path: TileEntityPath)
        requires
            old(self).well_formed(),
            position_fits(old(self).spec_size(), path.position),
            TileReference::valid_path(path),
        ensures
            final(self).well_formed(),
            final(self).spec_size() == old(self).spec_size(),
            ({
                let i = chunk_index_of(old(self).spec_size(), path.position);
                let j = inner_index(path.position);
                if 0 <= i < old(self).chunks_view().len() && old(self).chunks_view()[i] is Some {
                    let c = old(self).chunks_view()[i]->0;
                    &&& final(self).chunks_view()[i] is Some
                    &&& c.tiles[j].removed_at(path, final(self).chunks_view()[i]->0.tiles[j])
                    &&& final(self).chunks_view() == old(self).chunks_view().update(
                        i,
                        Some(c.written(j, final(self).chunks_view()[i]->0.tiles[j])),
                    )
                } else {
                    final(self).chunks_view() == old(self).chunks_view()
                }
            }),
    {
        let chunk_index = self.index_from_position(path.position);
        let inner = self.position_inside_chunk(path.position);
        if chunk_index >= self.chunks.len() {
            return;
        }
        let taken = self.chunks[chunk_index].take();
        match taken {
            Some(mut chunk) => {
                proof {
                    lemma_inner_index_bounds(path.position);
                    assert(old(self).chunks_view()[chunk_index as int] == Some(chunk@));
                }
                let index = Chunk::index_from_position(inner);
                let mut tile = *chunk.tile(inner);
                tile.remove_at(path);
                chunk.write(index, tile);
                self.chunks.set(chunk_index, Some(chunk));
                proof {
                    let c = old(self).chunks_view()[chunk_index as int]->0;
                    assert(self.chunks_view() =~= old(self).chunks_view().update(
                        chunk_index as int,
                        Some(c.written(index as int, tile)),
                    ));
                }
            },
            None => {
                self.chunks.set(chunk_index, None);
                assert(self.chunks_view() =~= old(self).chunks_view());
            },
        }
    }

    /// Writes the tile at `position`, making its chunk if needed. `Err` when the
    /// position lies outside the map's chunks.
    pub fn set_tile(&mut self, position: UVec2, data: TileReference) -> (r: Result<(), ()>)
        requires
            old(self).well_formed(),
            position_fits(old(self).spec_size(), position),
        ensures
            final(self).well_formed(),
            final(self).spec_size() == old(self).spec_size(),
            ({
                let i = chunk_index_of(old(self).spec_size(), position);
                if 0 <= i < old(self).chunks_view().len() {
                    &&& r is Ok
                    &&& final(self).chunks_view() == old(self).chunks_view().update(
                        i,
                        Some(
                            match old(self).chunks_view()[i] {
                                Some(c) => c,
                                None => fresh_chunk(),
                            }.written(inner_index(position), data),
                        ),
                    )
                } else {
                    &&& r is Err
                    &&& final(self).chunks_view() == old(self).chunks_view()
                }
            }),
            r is Ok ==> final(self).spec_tile(position) == Some(data),
            forall|q: UVec2|
                #![trigger final(self).spec_tile(q)]
                position_fits(old(self).spec_size(), q) && (chunk_index_of(old(self).spec_size(), q)
                    != chunk_index_of(old(self).spec_size(), position) || inner_index(q) != inner_index(position))
                ==> final(self).spec_tile(q) == (
                    if r is Ok && chunk_index_of(old(self).spec_size(), q) == chunk_index_of(old(self).spec_size(), position)
                        && old(self).spec_tile(q) is None {
                        Some(empty_tile())
                    } else {
                        old(self).spec_tile(q)
                    }),
    {
        let chunk_index = self.index_from_position(position);
        let inner = self.position_inside_chunk(position);
        if chunk_index >= self.chunks.len() {
            return Err(());
        }
        let mut chunk = match self.chunks[chunk_index].take() {
            Some(c) => c,
            None => Box::new(Chunk::new()),
        };
        let index = Chunk::index_from_position(inner);
        chunk.write(index, data);
        self.chunks.set(chunk_index, Some(chunk));
        proof {
            assert(self.chunks_view() =~= old(self).chunks_view().update(
                chunk_index as int,
                Some(
                    match old(self).chunks_view()[chunk_index as int] {
                        Some(c) => c,
                        None => fresh_chunk(),
                    }.written(inner_index(position), data),
                ),
            ));
        }
        proof {
            lemma_inner_index_bounds(position);
            assert forall|q: UVec2|
                #![trigger self.spec_tile(q)]
                position_fits(old(self).spec_size(), q) && (chunk_index_of(old(self).spec_size(), q)
                    != chunk_index_of(old(self).spec_size(), position) || inner_index(q) != inner_index(position))
                implies self.spec_tile(q) == (
                    if chunk_index_of(old(self).spec_size(), q) == chunk_index_of(old(self).spec_size(), position)
                        && old(self).spec_tile(q) is None {
                        Some(empty_tile())
                    } else {
                        old(self).spec_tile(q)
                    }) by {
                lemma_inner_index_bounds(q);
            }
        }
        Ok(())
    }
}

/// The makeup of a tile that can be spawned into the world: the asset path of the
/// object on each layer.
pub struct TileData {
    pub turf: Option<String>,
    pub furniture: Option<String>,
    pub high_mounts: [Option<String>; 4],
}

impl Default for TileData {
    fn default() -> (r: Self)
        ensures
            r.turf is None,
            r.furniture is None,
            forall|i: int| 0 <= i < 4 ==> r.high_mounts@[i] is None,
    {
        TileData { turf: None, furniture: None, high_mounts: [None, None, None, None] }
    }
}

fn clone_path(p: &Option<String>) -> (r: Option<String>)
    ensures
        r == *p,
{
    match p {
        Some(s) => Some(s.clone()),
        None => None,
    }
}

impl TileData {
    /// The layers of the tile, each with what it holds: turf, furniture, then the
    /// wall mounts of the four sides.
    pub fn layers(&self) -> (r: [(TileLayer, TileLayerData<String>); 3])
        ensures
            r@[0] == (TileLayer::Turf, TileLayerData::Single(self.turf)),
            r@[1] == (TileLayer::Furniture, TileLayerData::Single(self.furniture)),
            r@[2].0 == TileLayer::HighMount,
            r@[2].1 matches TileLayerData::Directional(m) && m@ == self.high_mounts@,
    {
        let mounts: [Option<String>; 4] = [
            clone_path(&self.high_mounts[0]),
            clone_path(&self.high_mounts[1]),
            clone_path(&self.high_mounts[2]),
            clone_path(&self.high_mounts[3]),
        ];
        assert(mounts@ =~= self.high_mounts@);
        let r = [
            (TileLayer::Turf, TileLayerData::Single(clone_path(&self.turf))),
            (TileLayer::Furniture, TileLayerData::Single(clone_path(&self.furniture))),
            (TileLayer::HighMount, TileLayerData::Directional(mounts)),
        ];
        r
    }
}

/// The chunks needed to cover `n` tiles: `n / 16` rounded up.
pub open spec fn chunks_for(n: int) -> int {
    (n + 15) / 16
}

/// Data which can be used to spawn a [`TileMap`].
pub struct TileMapData {
    /// Size in tiles.
    pub size: UVec2,
    /// The tiles, row by row.
    pub tiles: Vec<TileData>,
    /// The spawn positions of each job, by job name, each name once.
    pub job_spawn_positions: Vec<(String, Vec<UVec2>)>,
}

impl TileMapData {
    /// The size in chunks needed to hold the tiles.
    pub fn size_in_chunks(&self) -> (r: UVec2)
        ensures
            r.x == chunks_for(self.size.x as int),
            r.y == chunks_for(self.size.y as int),
    {
        let x = self.size.x / CHUNK_SIZE + if self.size.x % CHUNK_SIZE == 0 { 0 } else { 1 };
        let y = self.size.y / CHUNK_SIZE + if self.size.y % CHUNK_SIZE == 0 { 0 } else { 1 };
        UVec2 { x, y }
    }
}

/// Chunk number `y * size.x + x` sits at chunk position `(x, y)`: the two chunk
/// addressings undo each other.
pub proof fn lemma_chunk_position_round_trip(size: UVec2, position: UVec2)
    requires
        position.x < size.x,
    ensures
        spec_position_from_chunk_index(size, position.y * size.x + position.x) == position,
{
    let i = position.y * size.x + position.x;
    vstd::arithmetic::div_mod::lemma_fundamental_div_mod_converse(i, size.x as int, position.y as int, position.x as int);
}

/// Tile number `y * 16 + x` of a chunk sits at `(x, y)` inside it.
pub proof fn lemma_tile_position_round_trip(position: UVec2)
    requires
        position.x < 16,
    ensures
        spec_position_in_chunk(position.y * 16 + position.x) == position,
{
    let i = position.y * 16 + position.x;
    vstd::arithmetic::div_mod::lemma_fundamental_div_mod_converse(i, 16, position.y as int, position.x as int);
}

} // verus!
