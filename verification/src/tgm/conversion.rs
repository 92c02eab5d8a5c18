//! Turning a map file's tiles into the tile data the game spawns: which turf,
//! furniture and wall mounts each tile has, and where each job spawns.
use vstd::prelude::*;
use crate::chars::{
    chars_of, contains_str, equals_str, has_infix, has_prefix, push_str, starts_with, string_of,
};
use crate::keyed::find_key;
use crate::maps::direction::{Direction, UVec2};
use crate::maps::tilemap::{TileData, TileMapData};
use crate::tgm::model::{Object, Tile, Value, Variable};
use crate::tgm::numeric::{whole_number, whole_value};
use crate::tgm::tiles::{max_x, max_z, min_x, min_z, position_key, TileMap, UVec3};

verus! {

/// The direction a BYOND direction number stands for.
pub open spec fn spec_from_byond(direction: u8) -> Option<Direction> {
    if direction == 1 {
        Some(Direction::North)
    } else if direction == 2 {
        Some(Direction::South)
    } else if direction == 4 {
        Some(Direction::East)
    } else if direction == 8 {
        Some(Direction::West)
    } else {
        None
    }
}

/// The direction a BYOND direction number stands for: 1 north, 2 south, 4 east, 8 west.
pub fn from_byond(direction: u8) -> (r: Option<Direction>)
    ensures
        r == spec_from_byond(direction),
{
    match direction {
        1 => Some(Direction::North),
        2 => Some(Direction::South),
        4 => Some(Direction::East),
        8 => Some(Direction::West),
        _ => None,
    }
}

/// The turf an object stands for, by its path.
pub open spec fn turf_name(path: Seq<char>) -> Option<Seq<char>> {
    if path == "/turf/closed/wall"@ {
        Some("wall"@)
    } else if path == "/turf/closed/wall/r_wall"@ {
        Some("reinforced wall"@)
    } else if path == "/obj/structure/grille"@ {
        Some("grille"@)
    } else if path == "/obj/structure/plasticflaps/opaque"@ {
        Some("wall"@)
    } else if path == "/obj/effect/spawner/structure/window"@ {
        Some("window"@)
    } else if path == "/obj/effect/spawner/structure/window/reinforced"@ {
        Some("reinforced window"@)
    } else if path == "/obj/effect/spawner/structure/window/reinforced/tinted"@ {
        Some("reinforced window"@)
    } else if path == "/turf/open/floor/plasteel"@ {
        Some("floor"@)
    } else if path == "/turf/open/floor/plasteel/white"@ {
        Some("white floor"@)
    } else if path == "/turf/open/floor/plasteel/white/corner"@ {
        Some("white floor"@)
    } else if path == "/turf/open/floor/plasteel/dark"@ {
        Some("dark floor"@)
    } else if path == "/turf/open/floor/plasteel/grimy"@ {
        Some("floor"@)
    } else if path == "/turf/open/floor/plating"@ {
        Some("plating"@)
    } else if path == "/turf/open/floor/wood"@ {
        Some("wood floor"@)
    } else if has_prefix(path, "/turf/open/floor"@) {
        Some("floor"@)
    } else {
        None
    }
}

/// Objects take precedence over turfs when picking a tile's turf.
pub open spec fn turf_priority(path: Seq<char>) -> int {
    if has_prefix(path, "/obj"@) {
        1
    } else {
        0
    }
}

/// The turf picked among objects: the last one of the highest priority.
pub open spec fn turf_choice(objs: Seq<Object>) -> Option<(int, Seq<char>)>
    decreases objs.len(),
{
    if objs.len() == 0 {
        None
    } else {
        let rest = turf_choice(objs.drop_last());
        let path = objs.last().path@;
        match turf_name(path) {
            Some(n) => match rest {
                Some(best) => if turf_priority(path) >= best.0 {
                    Some((turf_priority(path), n))
                } else {
                    rest
                },
                None => Some((turf_priority(path), n)),
            },
            None => rest,
        }
    }
}

/// The asset of a turf.
pub open spec fn turf_asset(name: Seq<char>) -> Seq<char> {
    "tilemap/turfs/"@ + name + ".scn.ron"@
}

/// The furniture an object stands for, by its path.
pub open spec fn furniture_name(path: Seq<char>) -> Option<Seq<char>> {
    if has_infix(path, "door/airlock"@) {
        if has_infix(path, "maintenance"@) {
            Some("airlock maintenance"@)
        } else if has_infix(path, "command"@) {
            Some("airlock command"@)
        } else if has_infix(path, "mining"@) {
            Some("airlock supply"@)
        } else if has_infix(path, "security"@) {
            Some("airlock security"@)
        } else if has_infix(path, "engineering"@) {
            Some("airlock engineering"@)
        } else if has_infix(path, "atmos"@) {
            Some("airlock atmospherics"@)
        } else if has_infix(path, "research"@) {
            Some("airlock research"@)
        } else if has_infix(path, "medical"@) {
            Some("airlock medical"@)
        } else {
            Some("airlock"@)
        }
    } else if has_prefix(path, "/obj/structure/table"@) {
        Some("table"@)
    } else if has_prefix(path, "/obj/structure/chair"@) {
        Some("chair"@)
    } else {
        None
    }
}

/// The furniture picked among objects: that of the first object that is furniture.
pub open spec fn furniture_choice(objs: Seq<Object>) -> Option<Seq<char>>
    decreases objs.len(),
{
    if objs.len() == 0 {
        None
    } else {
        match furniture_choice(objs.drop_last()) {
            Some(n) => Some(n),
            None => furniture_name(objs.last().path@),
        }
    }
}

/// The asset of a piece of furniture.
pub open spec fn furniture_asset(name: Seq<char>) -> Seq<char> {
    "tilemap/furniture/"@ + name + ".scn.ron"@
}

/// The asset of a wall-mounted light.
pub open spec fn light_asset() -> Seq<char> {
    "tilemap/wall_mounts/"@ + "light_tube"@ + ".scn.ron"@
}

/// The first variable of the given name.
pub open spec fn first_variable(vars: Seq<Variable>, name: Seq<char>) -> Option<Variable>
    decreases vars.len(),
{
    if vars.len() == 0 {
        None
    } else {
        match first_variable(vars.drop_last(), name) {
            Some(v) => Some(v),
            None => if vars.last().name@ == name {
                Some(vars.last())
            } else {
                None
            },
        }
    }
}

/// The wall-mount slot a light fills: the slot of the direction its `dir` number
/// (truncated to a byte) stands for.
pub open spec fn mount_slot(o: Object) -> Option<int> {
    if o.path@ == "/obj/machinery/light"@ {
        match first_variable(o.variables@, "dir"@) {
            Some(v) => match v.value {
                Value::Number(t) => match spec_from_byond(whole_value(t@, 255) as u8) {
                    Some(d) => Some(d.spec_index() as int),
                    None => None,
                },
                _ => None,
            },
            None => None,
        }
    } else {
        None
    }
}

/// The wall mounts of a tile: each light fills its slot, later lights winning.
pub open spec fn mounts_of(objs: Seq<Object>) -> Seq<Option<Seq<char>>>
    decreases objs.len(),
{
    if objs.len() == 0 {
        seq![None, None, None, None]
    } else {
        let m = mounts_of(objs.drop_last());
        match mount_slot(objs.last()) {
            Some(i) => m.update(i, Some(light_asset())),
            None => m,
        }
    }
}

/// What a tile is made of: its turf, its furniture and its four wall-mount slots.
pub type TileDataModel = (Option<Seq<char>>, Option<Seq<char>>, Seq<Option<Seq<char>>>);

/// The tile data of a tile definition.
pub open spec fn tile_model(t: Tile) -> TileDataModel {
    let objs = t.components@;
    (
        match turf_choice(objs) {
            Some(c) => Some(turf_asset(c.1)),
            None => None,
        },
        match furniture_choice(objs) {
            Some(n) => Some(furniture_asset(n)),
            None => None,
        },
        mounts_of(objs),
    )
}

pub open spec fn text_option(o: Option<String>) -> Option<Seq<char>> {
    match o {
        Some(s) => Some(s@),
        None => None,
    }
}

/// The abstract content of tile data.
pub open spec fn tile_data_view(t: TileData) -> TileDataModel {
    (text_option(t.turf), text_option(t.furniture), Seq::new(4, |i: int| text_option(t.high_mounts@[i])))
}

/// Two optional texts agree.
pub open spec fn same_text(r: Option<&str>, s: Option<Seq<char>>) -> bool {
    match (r, s) {
        (Some(a), Some(b)) => a@ == b,
        (None, None) => true,
        _ => false,
    }
}

/// The turf an object stands for, by its path.
fn turf_name_exec(path: &Vec<char>) -> (r: Option<&'static str>)
    ensures
        same_text(r, turf_name(path@)),
{
    if equals_str(path, "/turf/closed/wall") {
        Some("wall")
    } else if equals_str(path, "/turf/closed/wall/r_wall") {
        Some("reinforced wall")
    } else if equals_str(path, "/obj/structure/grille") {
        Some("grille")
    } else if equals_str(path, "/obj/structure/plasticflaps/opaque") {
        Some("wall")
    } else if equals_str(path, "/obj/effect/spawner/structure/window") {
        Some("window")
    } else if equals_str(path, "/obj/effect/spawner/structure/window/reinforced") {
        Some("reinforced window")
    } else if equals_str(path, "/obj/effect/spawner/structure/window/reinforced/tinted") {
        Some("reinforced window")
    } else if equals_str(path, "/turf/open/floor/plasteel") {
        Some("floor")
    } else if equals_str(path, "/turf/open/floor/plasteel/white") {
        Some("white floor")
    } else if equals_str(path, "/turf/open/floor/plasteel/white/corner") {
        Some("white floor")
    } else if equals_str(path, "/turf/open/floor/plasteel/dark") {
        Some("dark floor")
    } else if equals_str(path, "/turf/open/floor/plasteel/grimy") {
        Some("floor")
    } else if equals_str(path, "/turf/open/floor/plating") {
        Some("plating")
    } else if equals_str(path, "/turf/open/floor/wood") {
        Some("wood floor")
    } else if starts_with(path, "/turf/open/floor") {
        Some("floor")
    } else {
        None
    }
}

/// The furniture an object stands for, by its path.
fn furniture_name_exec(path: &Vec<char>) -> (r: Option<&'static str>)
    ensures
        same_text(r, furniture_name(path@)),
{
    if contains_str(path, "door/airlock") {
        if contains_str(path, "maintenance") {
            Some("airlock maintenance")
        } else if contains_str(path, "command") {
            Some("airlock command")
        } else if contains_str(path, "mining") {
            Some("airlock supply")
        } else if contains_str(path, "security") {
            Some("airlock security")
        } else if contains_str(path, "engineering") {
            Some("airlock engineering")
        } else if contains_str(path, "atmos") {
            Some("airlock atmospherics")
        } else if contains_str(path, "research") {
            Some("airlock research")
        } else if contains_str(path, "medical") {
            Some("airlock medical")
        } else {
            Some("airlock")
        }
    } else if starts_with(path, "/obj/structure/table") {
        Some("table")
    } else if starts_with(path, "/obj/structure/chair") {
        Some("chair")
    } else {
        None
    }
}

/// `prefix`, then `name`, then `suffix`, as a string.
fn asset_path(prefix: &str, name: &str, suffix: &str) -> (r: String)
    ensures
        r@ == prefix@ + name@ + suffix@,
{
    let mut v: Vec<char> = Vec::new();
    push_str(&mut v, prefix);
    push_str(&mut v, name);
    push_str(&mut v, suffix);
    string_of(v.as_slice())
}

/// The turf asset of a tile: that of the last object of the highest priority (objects
/// before turfs) that stands for a turf.
pub fn get_turf_path(tile: &Tile) -> (r: Option<String>)
    ensures
        text_option(r) == tile_model(*tile).0,
{
    let objs = &tile.components;
    let mut best: Option<(i32, &'static str)> = None;
    let mut i: usize = 0;
    while i < objs.len()
        invariant
            i <= objs.len(),
            match (best, turf_choice(objs@.take(i as int))) {
                (Some(b), Some(c)) => b.0 == c.0 && b.1@ == c.1,
                (None, None) => true,
                _ => false,
            },
        decreases objs.len() - i,
    {
        let path = chars_of(objs[i].path.as_str());
        assert(objs@.take(i as int + 1).drop_last() =~= objs@.take(i as int));
        assert(objs@.take(i as int + 1).last() == objs@[i as int]);
        match turf_name_exec(&path) {
            Some(name) => {
                let priority: i32 = if starts_with(&path, "/obj") { 1 } else { 0 };
                match best {
                    Some(b) => {
                        if priority >= b.0 {
                            best = Some((priority, name));
                        }
                    },
                    None => {
                        best = Some((priority, name));
                    },
                }
            },
            None => {},
        }
        i = i + 1;
    }
    assert(objs@.take(objs.len() as int) =~= objs@);
    match best {
        Some((_, name)) => Some(asset_path("tilemap/turfs/", name, ".scn.ron")),
        None => None,
    }
}

/// The furniture asset of a tile: that of its first object that is furniture.
pub fn get_furniture_path(tile: &Tile) -> (r: Option<String>)
    ensures
        text_option(r) == tile_model(*tile).1,
{
    let objs = &tile.components;
    let mut i: usize = 0;
    while i < objs.len()
        invariant
            i <= objs.len(),
            objs@ == tile.components@,
            furniture_choice(objs@.take(i as int)) is None,
        decreases objs.len() - i,
    {
        let path = chars_of(objs[i].path.as_str());
        assert(objs@.take(i as int + 1).drop_last() =~= objs@.take(i as int));
        assert(objs@.take(i as int + 1).last() == objs@[i as int]);
        match furniture_name_exec(&path) {
            Some(name) => {
                proof {
                    lemma_furniture_choice_found(objs@, i as int);
                }
                return Some(asset_path("tilemap/furniture/", name, ".scn.ron"));
            },
            None => {},
        }
        i = i + 1;
    }
    assert(objs@.take(objs.len() as int) =~= objs@);
    None
}

/// Once an object is furniture, later objects do not change the choice.
proof fn lemma_furniture_choice_found(objs: Seq<Object>, i: int)
    requires
        0 <= i < objs.len(),
        furniture_choice(objs.take(i)) is None,
        furniture_name(objs[i].path@) is Some,
    ensures
        furniture_choice(objs) == furniture_name(objs[i].path@),
    decreases objs.len(),
{
    if objs.len() > i + 1 {
        assert(objs.drop_last().take(i) =~= objs.take(i));
        lemma_furniture_choice_found(objs.drop_last(), i);
    } else {
        assert(objs.drop_last() =~= objs.take(i));
    }
}

proof fn lemma_first_variable(vars: Seq<Variable>, name: Seq<char>, i: int)
    requires
        0 <= i < vars.len(),
        vars[i].name@ == name,
        forall|j: int| 0 <= j < i ==> vars[j].name@ != name,
    ensures
        first_variable(vars, name) == Some(vars[i]),
    decreases vars.len(),
{
    if vars.len() > i + 1 {
        lemma_first_variable(vars.drop_last(), name, i);
    } else {
        lemma_no_variable(vars.drop_last(), name);
    }
}

proof fn lemma_no_variable(vars: Seq<Variable>, name: Seq<char>)
    requires
        forall|j: int| 0 <= j < vars.len() ==> vars[j].name@ != name,
    ensures
        first_variable(vars, name) is None,
    decreases vars.len(),
{
    if vars.len() > 0 {
        lemma_no_variable(vars.drop_last(), name);
    }
}

/// The wall-mount slot a light fills, if the object is one with a usable `dir`.
fn mount_slot_exec(o: &Object) -> (r: Option<usize>)
    ensures
        match (r, mount_slot(*o)) {
            (Some(a), Some(b)) => a == b,
            (None, None) => true,
            _ => false,
        },
{
    let path = chars_of(o.path.as_str());
    if !equals_str(&path, "/obj/machinery/light") {
        return None;
    }
    let found = o.variable("dir");
    proof {
        match found {
            Some(v) => {
                let i = choose|i: int|
                    0 <= i < o.variables@.len() && o.variables@[i] == *v && v.name@ == "dir"@
                        && forall|j: int| 0 <= j < i ==> o.variables@[j].name@ != "dir"@;
                lemma_first_variable(o.variables@, "dir"@, i);
            },
            None => {
                lemma_no_variable(o.variables@, "dir"@);
            },
        }
    }
    match found {
        Some(v) => match &v.value {
            Value::Number(t) => {
                let byond = whole_number(&chars_of(t.as_str()), 255) as u8;
                match from_byond(byond) {
                    Some(d) => Some(d.index() as usize),
                    None => None,
                }
            },
            _ => None,
        },
        None => None,
    }
}

/// The wall mounts of a tile: each light fills the slot of its direction.
pub fn get_high_mounts_path(tile: &Tile) -> (r: [Option<String>; 4])
    ensures
        Seq::new(4, |i: int| text_option(r@[i])) == tile_model(*tile).2,
{
    let objs = &tile.components;
    let mut mounts: [Option<String>; 4] = [None, None, None, None];
    let mut i: usize = 0;
    assert(Seq::new(4, |k: int| text_option(mounts@[k])) =~= mounts_of(objs@.take(0)));
    while i < objs.len()
        invariant
            i <= objs.len(),
            Seq::new(4, |k: int| text_option(mounts@[k])) == mounts_of(objs@.take(i as int)),
        decreases objs.len() - i,
    {
        assert(objs@.take(i as int + 1).drop_last() =~= objs@.take(i as int));
        assert(objs@.take(i as int + 1).last() == objs@[i as int]);
        let ghost before = Seq::new(4, |k: int| text_option(mounts@[k]));
        match mount_slot_exec(&objs[i]) {
            Some(slot) => {
                mounts[slot] = Some(asset_path("tilemap/wall_mounts/", "light_tube", ".scn.ron"));
                assert(Seq::new(4, |k: int| text_option(mounts@[k])) =~= before.update(slot as int, Some(light_asset())));
            },
            None => {},
        }
        i = i + 1;
    }
    assert(objs@.take(objs.len() as int) =~= objs@);
    mounts
}

/// The tile data of a tile definition.
pub fn tile_to_data(tile: &Tile) -> (r: TileData)
    ensures
        tile_data_view(r) == tile_model(*tile),
{
    let turf = get_turf_path(tile);
    let furniture = get_furniture_path(tile);
    let high_mounts = get_high_mounts_path(tile);
    let r = TileData { turf, furniture, high_mounts };
    assert(tile_data_view(r).2 =~= tile_model(*tile).2);
    r
}

/// The text after the last `/` of a path.
pub open spec fn after_last_slash(path: Seq<char>) -> Seq<char>
    decreases path.len(),
{
    if path.len() == 0 || path.last() == '/' {
        Seq::empty()
    } else {
        after_last_slash(path.drop_last()).push(path.last())
    }
}

/// The spawn-list with `pos` added to the positions of `job` (a new entry at the end
/// for a job not listed yet).
pub open spec fn add_spawn(list: Seq<(Seq<char>, Seq<UVec2>)>, job: Seq<char>, pos: UVec2) -> Seq<(Seq<char>, Seq<UVec2>)> {
    let k = find_key(list, job);
    if k >= 0 {
        list.update(k, (job, list[k].1.push(pos)))
    } else {
        list.push((job, seq![pos]))
    }
}

/// The path prefix of job start landmarks.
pub open spec fn landmark_prefix() -> Seq<char> {
    "/obj/effect/landmark/start/"@
}

/// The spawn-list after the landmarks among `objs`, standing at `pos`.
pub open spec fn object_spawns(list: Seq<(Seq<char>, Seq<UVec2>)>, objs: Seq<Object>, pos: UVec2) -> Seq<(Seq<char>, Seq<UVec2>)>
    decreases objs.len(),
{
    if objs.len() == 0 {
        list
    } else {
        let l = object_spawns(list, objs.drop_last(), pos);
        let path = objs.last().path@;
        if has_prefix(path, landmark_prefix()) && after_last_slash(path).len() > 0 {
            add_spawn(l, after_last_slash(path), pos)
        } else {
            l
        }
    }
}

/// The definition placed at a position of a map.
pub open spec fn definition_at(m: TileMap, p: UVec3) -> Tile {
    m.definitions_view()[m.tiles_view()[position_key(p)] as int]
}

/// The spawn-list of the landmarks at the given positions, in order.
pub open spec fn spawns(m: TileMap, order: Seq<UVec3>) -> Seq<(Seq<char>, Seq<UVec2>)>
    decreases order.len(),
{
    if order.len() == 0 {
        Seq::empty()
    } else {
        let p = order.last();
        object_spawns(spawns(m, order.drop_last()), definition_at(m, p).components@, UVec2 { x: p.x, y: p.z })
    }
}

/// The index of a position among tiles `width` across.
pub open spec fn tile_index(p: UVec3, width: int) -> int {
    p.x + p.z * width
}

/// The tiles after converting the definition at each position in order, each into the
/// slot of its index; `None` when an index overflows `u32` or lies past the tiles.
pub open spec fn placed(m: TileMap, order: Seq<UVec3>, width: int, count: int) -> Option<Seq<Option<TileDataModel>>>
    decreases order.len(),
{
    if order.len() == 0 {
        Some(Seq::new(count as nat, |i: int| None))
    } else {
        match placed(m, order.drop_last(), width, count) {
            Some(t) => {
                let i = tile_index(order.last(), width);
                if i > u32::MAX || i >= count {
                    None
                } else {
                    Some(t.update(i, Some(tile_model(definition_at(m, order.last())))))
                }
            },
            None => None,
        }
    }
}

/// The direction of wall-mount slot `i` when mounts are handed on: north, south, east,
/// west, in that order.
pub open spec fn direction_at(i: int) -> Direction {
    if i == 0 {
        Direction::North
    } else if i == 1 {
        Direction::South
    } else if i == 2 {
        Direction::East
    } else {
        Direction::West
    }
}

/// The opposite direction.
pub open spec fn opposite(d: Direction) -> Direction {
    match d {
        Direction::North => Direction::South,
        Direction::South => Direction::North,
        Direction::East => Direction::West,
        Direction::West => Direction::East,
    }
}

/// The index of the neighbour in direction `d` of tile `index`, tiles `width` across.
pub open spec fn mount_target(index: int, d: Direction, width: int) -> int {
    match d {
        Direction::North => index - width,
        Direction::East => index + 1,
        Direction::South => index + width,
        Direction::West => index - 1,
    }
}

/// Hands mounts `mi..4` of tile `index` on to its neighbours: each goes to the
/// opposite slot of the neighbour its slot points to, if that tile exists; `None` when
/// the neighbour's index leaves the range of `usize`.
pub open spec fn spread_from(tiles: Seq<Option<TileDataModel>>, mounts: Seq<Option<Seq<char>>>, mi: int, index: int, width: int) -> Option<Seq<Option<TileDataModel>>>
    decreases 4 - mi,
{
    if mi >= 4 || mi < 0 {
        Some(tiles)
    } else {
        match mounts[mi] {
            None => spread_from(tiles, mounts, mi + 1, index, width),
            Some(mount) => {
                let d = direction_at(mi);
                let target = mount_target(index, d, width);
                if target < 0 || target > usize::MAX {
                    None
                } else if target < tiles.len() && tiles[target] is Some {
                    let t = tiles[target]->0;
                    spread_from(
                        tiles.update(target, Some((t.0, t.1, t.2.update(opposite(d).spec_index() as int, Some(mount))))),
                        mounts,
                        mi + 1,
                        index,
                        width,
                    )
                } else {
                    spread_from(tiles, mounts, mi + 1, index, width)
                }
            },
        }
    }
}

/// Takes the mounts off tile `index` and hands them on.
pub open spec fn spread_one(tiles: Seq<Option<TileDataModel>>, index: int, width: int) -> Option<Seq<Option<TileDataModel>>> {
    match tiles[index] {
        None => Some(tiles),
        Some(t) => spread_from(tiles.update(index, Some((t.0, t.1, seq![None, None, None, None]))), t.2, 0, index, width),
    }
}

/// Hands on the mounts of tiles `index..`, in order.
pub open spec fn spread_all(tiles: Seq<Option<TileDataModel>>, index: int, width: int) -> Option<Seq<Option<TileDataModel>>>
    decreases tiles.len() - index,
{
    if index >= tiles.len() || index < 0 {
        Some(tiles)
    } else {
        match spread_one(tiles, index, width) {
            Some(t) => if t.len() == tiles.len() {
                spread_all(t, index + 1, width)
            } else {
                None
            },
            None => None,
        }
    }
}

/// A missing tile becomes an empty one.
pub open spec fn or_empty(t: Option<TileDataModel>) -> TileDataModel {
    match t {
        Some(d) => d,
        None => (None, None, seq![None, None, None, None]),
    }
}

/// The size of the map data made from a tile map: its extent in `x` and `z`.
pub open spec fn data_size(m: TileMap) -> UVec2 {
    UVec2 {
        x: (max_x(m.order_view()) - min_x(m.order_view())) as u32,
        y: (max_z(m.order_view()) - min_z(m.order_view())) as u32,
    }
}

/// The tiles of the map data made from a tile map, if it can be made.
pub open spec fn data_tiles(m: TileMap) -> Option<Seq<Option<TileDataModel>>> {
    let size = data_size(m);
    let count = size.x * size.y;
    if m.order_view().len() == 0 || count > usize::MAX {
        None
    } else {
        match placed(m, m.order_view(), size.x as int, count) {
            Some(t) => spread_all(t, 0, size.x as int),
            None => None,
        }
    }
}

/// The abstract content of a list of optional tile data.
pub open spec fn slots_view(v: Seq<Option<TileData>>) -> Seq<Option<TileDataModel>> {
    Seq::new(v.len(), |i: int| match v[i] {
        Some(t) => Some(tile_data_view(t)),
        None => None,
    })
}

/// The abstract content of a spawn-list.
pub open spec fn spawns_view(v: Seq<(String, Vec<UVec2>)>) -> Seq<(Seq<char>, Seq<UVec2>)> {
    Seq::new(v.len(), |i: int| (v[i].0@, v[i].1@))
}

proof fn lemma_after_last_slash(path: Seq<char>, j: int)
    requires
        -1 <= j < path.len(),
        j >= 0 ==> path[j] == '/',
        forall|k: int| j < k < path.len() ==> path[k] != '/',
    ensures
        after_last_slash(path) == path.skip(j + 1),
    decreases path.len(),
{
    if path.len() > 0 && path.len() - 1 > j {
        lemma_after_last_slash(path.drop_last(), j);
        assert(path.drop_last().skip(j + 1).push(path.last()) =~= path.skip(j + 1));
    } else if path.len() > 0 {
        assert(path.skip(j + 1) =~= Seq::<char>::empty());
    } else {
        assert(path.skip(j + 1) =~= Seq::<char>::empty());
    }
}

/// The text after the last `/` of a path.
fn job_name(path: &Vec<char>) -> (r: Vec<char>)
    ensures
        r@ == after_last_slash(path@),
{
    let mut j = path.len();
    while j > 0 && path[j - 1] != '/'
        invariant
            j <= path.len(),
            forall|k: int| j <= k < path.len() ==> path@[k] != '/',
        decreases j,
    {
        j = j - 1;
    }
    proof {
        lemma_after_last_slash(path@, j - 1);
    }
    let mut out: Vec<char> = Vec::new();
    let mut i = j;
    while i < path.len()
        invariant
            j <= i <= path.len(),
            out@ == path@.subrange(j as int, i as int),
        decreases path.len() - i,
    {
        out.push(path[i]);
        i = i + 1;
    }
    assert(out@ =~= path@.skip(j as int));
    out
}

/// Adds `pos` to the positions of `job`.
fn add_spawn_exec(list: &mut Vec<(String, Vec<UVec2>)>, job: String, pos: UVec2)
    ensures
        spawns_view(final(list)@) == add_spawn(spawns_view(old(list)@), job@, pos),
{
    let ghost view = spawns_view(list@);
    let mut k: usize = 0;
    while k < list.len() && !(list[k].0 == job)
        invariant
            k <= list.len(),
            view == spawns_view(list@),
            forall|j: int| 0 <= j < k ==> list@[j].0@ != job@,
        decreases list.len() - k,
    {
        k = k + 1;
    }
    proof {
        crate::keyed::lemma_find_key(view, job@);
        assert(forall|j: int| 0 <= j < k ==> view[j].0 != job@);
    }
    if k < list.len() {
        assert(view[k as int].0 == job@);
        assert(find_key(view, job@) == k);
        let (name, mut positions) = list.remove(k);
        positions.push(pos);
        list.insert(k, (name, positions));
        assert(spawns_view(list@) =~= view.update(k as int, (job@, view[k as int].1.push(pos))));
    } else {
        assert(find_key(view, job@) < 0);
        let mut positions: Vec<UVec2> = Vec::new();
        positions.push(pos);
        list.push((job, positions));
        assert(spawns_view(list@) =~= view.push((job@, seq![pos])));
    }
}

/// Adds the landmarks among `objs`, standing at `pos`.
fn add_object_spawns(list: &mut Vec<(String, Vec<UVec2>)>, objs: &Vec<Object>, pos: UVec2)
    ensures
        spawns_view(final(list)@) == object_spawns(spawns_view(old(list)@), objs@, pos),
{
    let ghost start = spawns_view(list@);
    let mut i: usize = 0;
    assert(objs@.take(0) =~= Seq::<Object>::empty());
    while i < objs.len()
        invariant
            i <= objs.len(),
            spawns_view(list@) == object_spawns(start, objs@.take(i as int), pos),
        decreases objs.len() - i,
    {
        assert(objs@.take(i as int + 1).drop_last() =~= objs@.take(i as int));
        assert(objs@.take(i as int + 1).last() == objs@[i as int]);
        let path = chars_of(objs[i].path.as_str());
        if starts_with(&path, "/obj/effect/landmark/start/") {
            let job = job_name(&path);
            if job.len() > 0 {
                add_spawn_exec(list, string_of(job.as_slice()), pos);
            }
        }
        i = i + 1;
    }
    assert(objs@.take(objs.len() as int) =~= objs@);
}

fn direction_at_exec(i: usize) -> (r: Direction)
    ensures
        r == direction_at(i as int),
{
    if i == 0 {
        Direction::North
    } else if i == 1 {
        Direction::South
    } else if i == 2 {
        Direction::East
    } else {
        Direction::West
    }
}

fn opposite_exec(d: Direction) -> (r: Direction)
    ensures
        r == opposite(d),
{
    match d {
        Direction::North => Direction::South,
        Direction::South => Direction::North,
        Direction::East => Direction::West,
        Direction::West => Direction::East,
    }
}

/// Takes the mounts off tile `index` and hands them on; `false` when a neighbour's index
/// leaves the range of `usize`.
fn spread_one_exec(temp: &mut Vec<Option<TileData>>, index: usize, width: usize) -> (ok: bool)
    requires
        index < old(temp).len(),
    ensures
        final(temp).len() == old(temp).len(),
        ok == (spread_one(slots_view(old(temp)@), index as int, width as int) is Some),
        ok ==> spread_one(slots_view(old(temp)@), index as int, width as int) == Some(slots_view(final(temp)@)),
{
    let ghost start = slots_view(temp@);
    let taken = temp[index].take();
    let mut tile = match taken {
        Some(t) => t,
        None => {
            assert(slots_view(temp@) =~= start);
            return true;
        },
    };
    let ghost t_model = tile_data_view(tile);
    let mut mounts: [Option<String>; 4] = [None, None, None, None];
    std::mem::swap(&mut mounts, &mut tile.high_mounts);
    let ghost mounts_model = Seq::new(4, |i: int| text_option(mounts@[i]));
    assert(mounts_model =~= t_model.2);
    temp.set(index, Some(tile));
    assert(tile_data_view(tile) =~= (t_model.0, t_model.1, seq![None, None, None, None]));
    assert(slots_view(temp@) =~= start.update(index as int, Some((t_model.0, t_model.1, seq![None, None, None, None]))));
    let n = temp.len();
    let mut mi: usize = 0;
    while mi < 4
        invariant
            mi <= 4,
            temp.len() == n,
            old(temp)@.len() == n,
            start == slots_view(old(temp)@),
            index < n,
            mounts_model == Seq::new(4, |i: int| text_option(mounts@[i])),
            spread_from(slots_view(temp@), mounts_model, mi as int, index as int, width as int)
                == spread_one(start, index as int, width as int),
        decreases 4 - mi,
    {
        match &mounts[mi] {
            Some(mount) => {
                let d = direction_at_exec(mi);
                let target: usize = match d {
                    Direction::North => {
                        if index < width {
                            return false;
                        }
                        index - width
                    },
                    Direction::East => index + 1,
                    Direction::South => {
                        if index > usize::MAX - width {
                            return false;
                        }
                        index + width
                    },
                    Direction::West => {
                        if index == 0 {
                            return false;
                        }
                        index - 1
                    },
                };
                assert(target == mount_target(index as int, d, width as int));
                let ghost before = slots_view(temp@);
                if target < temp.len() {
                    let slot = temp[target].take();
                    match slot {
                        Some(mut neighbour) => {
                            let ghost nm = tile_data_view(neighbour);
                            let j = opposite_exec(d).index() as usize;
                            neighbour.high_mounts[j] = Some(mount.clone());
                            assert(tile_data_view(neighbour) =~= (nm.0, nm.1, nm.2.update(j as int, Some(mount@))));
                            temp.set(target, Some(neighbour));
                            assert(slots_view(temp@) =~= before.update(target as int, Some((nm.0, nm.1, nm.2.update(j as int, Some(mount@))))));
                        },
                        None => {
                            assert(slots_view(temp@) =~= before);
                        },
                    }
                }
            },
            None => {},
        }
        mi = mi + 1;
    }
    true
}

/// Hands on the mounts of every tile, in order.
fn spread_all_exec(temp: &mut Vec<Option<TileData>>, width: usize) -> (ok: bool)
    ensures
        final(temp).len() == old(temp).len(),
        ok == (spread_all(slots_view(old(temp)@), 0, width as int) is Some),
        ok ==> spread_all(slots_view(old(temp)@), 0, width as int) == Some(slots_view(final(temp)@)),
{
    let ghost start = slots_view(temp@);
    let n = temp.len();
    let mut index: usize = 0;
    while index < n
        invariant
            temp.len() == n,
            old(temp)@.len() == n,
            start == slots_view(old(temp)@),
            index <= n,
            spread_all(slots_view(temp@), index as int, width as int) == spread_all(start, 0, width as int),
        decreases n - index,
    {
        let ghost before = slots_view(temp@);
        let ok = spread_one_exec(temp, index, width);
        if !ok {
            return false;
        }
        assert(slots_view(temp@).len() == before.len());
        index = index + 1;
    }
    true
}

/// Converts a tile map into the data the game spawns its map from: a tile for each
/// position of the map's extent, row by row, and the spawn positions of each job.
/// Wall mounts are handed on to the neighbour they face. `None` where no data can be
/// made: a map without tiles, a tile index that overflows or lies past the tiles, or a
/// mount handed on past the range of indices.
pub fn to_map_data(tilemap: &TileMap) -> (r: Option<TileMapData>)
    requires
        tilemap.well_formed(),
    ensures
        r is Some <==> data_tiles(*tilemap) is Some,
        r matches Some(d) ==> {
            &&& d.size == data_size(*tilemap)
            &&& Seq::new(d.tiles@.len(), |i: int| tile_data_view(d.tiles@[i])) == data_tiles(*tilemap)->0.map_values(
                |t: Option<TileDataModel>| or_empty(t),
            )
            &&& spawns_view(d.job_spawn_positions@) == spawns(*tilemap, tilemap.order_view())
        },
{
    if tilemap.is_empty() {
        return None;
    }
    let size = tilemap.size();
    assert(size.x as u128 * size.y as u128 <= 0xffff_ffffu128 * 0xffff_ffffu128) by (nonlinear_arith)
        requires
            size.x <= 0xffff_ffffu32,
            size.y <= 0xffff_ffffu32,
    ;
    let count_wide: u128 = size.x as u128 * size.y as u128;
    if count_wide > usize::MAX as u128 {
        return None;
    }
    let count = count_wide as usize;
    let width = size.x as usize;
    let mut temp: Vec<Option<TileData>> = Vec::new();
    while temp.len() < count
        invariant
            temp.len() <= count,
            forall|i: int| 0 <= i < temp.len() ==> temp@[i] is None,
        decreases count - temp.len(),
    {
        temp.push(None);
    }
    let ghost order = tilemap.order_view();
    let entries = tilemap.iter_tiles();
    let mut job_spawns: Vec<(String, Vec<UVec2>)> = Vec::new();
    let mut k: usize = 0;
    assert(order.take(0) =~= Seq::<UVec3>::empty());
    assert(slots_view(temp@) =~= Seq::new(count as nat, |i: int| None::<TileDataModel>));
    while k < entries.len()
        invariant
            tilemap.well_formed(),
            order == tilemap.order_view(),
            entries.len() == order.len(),
            forall|i: int| 0 <= i < entries.len() ==> (#[trigger] entries@[i]).0 == order[i] && (entries@[i].1 matches Some(t)
                && *t == definition_at(*tilemap, order[i])),
            k <= entries.len(),
            temp.len() == count,
            size == data_size(*tilemap),
            width == size.x,
            count == size.x * size.y,
            placed(*tilemap, order.take(k as int), width as int, count as int) == Some(slots_view(temp@)),
            spawns_view(job_spawns@) == spawns(*tilemap, order.take(k as int)),
        decreases entries.len() - k,
    {
        let position = entries[k].0;
        assert(order.take(k as int + 1).drop_last() =~= order.take(k as int));
        assert(order.take(k as int + 1).last() == position);
        assert(position.z as u64 * size.x as u64 <= 0xffff_ffffu64 * 0xffff_ffffu64) by (nonlinear_arith)
            requires
                position.z <= 0xffff_ffffu32,
                size.x <= 0xffff_ffffu32,
        ;
        let index_wide: u64 = position.x as u64 + position.z as u64 * size.x as u64;
        if index_wide > u32::MAX as u64 || index_wide >= count as u64 {
            proof {
                lemma_placed_fails(*tilemap, order, k as int, width as int, count as int);
            }
            return None;
        }
        let index = index_wide as usize;
        let tile = match entries[k].1 {
            Some(t) => t,
            None => {
                return None;
            },
        };
        let data = tile_to_data(tile);
        let ghost before = slots_view(temp@);
        temp.set(index, Some(data));
        assert(slots_view(temp@) =~= before.update(index as int, Some(tile_model(*tile))));
        add_object_spawns(&mut job_spawns, &tile.components, UVec2 { x: position.x, y: position.z });
        k = k + 1;
    }
    assert(order.take(entries.len() as int) =~= order);
    let ghost placed_tiles = slots_view(temp@);
    if !spread_all_exec(&mut temp, width) {
        return None;
    }
    let ghost spread = slots_view(temp@);
    let mut tiles: Vec<TileData> = Vec::new();
    let mut i: usize = 0;
    while i < count
        invariant
            temp.len() == count,
            i <= count,
            tiles.len() == i,
            spread.len() == count,
            forall|j: int| i <= j < count ==> slots_view(temp@)[j] == #[trigger] spread[j],
            forall|j: int| 0 <= j < i ==> tile_data_view(#[trigger] tiles@[j]) == or_empty(spread[j]),
        decreases count - i,
    {
        let ghost before = temp@;
        let slot = temp[i].take();
        assert forall|j: int| i < j < count implies slots_view(temp@)[j] == #[trigger] spread[j] by {
            assert(temp@[j] == before[j]);
        }
        let t = match slot {
            Some(t) => t,
            None => {
                let d = TileData::default();
                assert(tile_data_view(d).2 =~= seq![None, None, None, None]);
                d
            },
        };
        tiles.push(t);
        i = i + 1;
    }
    let r = TileMapData { size, tiles, job_spawn_positions: job_spawns };
    assert(Seq::new(r.tiles@.len(), |i: int| tile_data_view(r.tiles@[i])) =~= spread.map_values(
        |t: Option<TileDataModel>| or_empty(t),
    ));
    Some(r)
}

/// Once a tile index fails, placing fails for every longer list of positions.
proof fn lemma_placed_fails(m: TileMap, order: Seq<UVec3>, k: int, width: int, count: int)
    requires
        0 <= k < order.len(),
        ({
            let i = tile_index(order[k], width);
            i > u32::MAX || i >= count
        }),
    ensures
        placed(m, order, width, count) is None,
    decreases order.len(),
{
    if order.len() > k + 1 {
        lemma_placed_fails(m, order.drop_last(), k, width, count);
    } else {
        assert(order.drop_last() =~= order.take(k));
    }
}

/// Some position has the largest `z`.
proof fn lemma_max_z_attained(s: Seq<UVec3>)
    requires
        s.len() > 0,
    ensures
        exists|k: int| 0 <= k < s.len() && (#[trigger] s[k]).z == max_z(s),
    decreases s.len(),
{
    if s.len() > 1 {
        lemma_max_z_attained(s.drop_last());
        if s.last().z <= max_z(s.drop_last()) {
            let k = choose|k: int| 0 <= k < s.drop_last().len() && (#[trigger] s.drop_last()[k]).z == max_z(s.drop_last());
            assert(s[k] == s.drop_last()[k]);
            assert(s[k].z == max_z(s));
        } else {
            assert(s[s.len() - 1].z == max_z(s));
        }
    } else {
        assert(s.drop_last().len() == 0);
        assert(max_z(s.drop_last()) == 0);
        assert(s.last() == s[0]);
        assert(max_z(s) == s[0].z);
    }
}

/// Map data is never made from a map with tiles: the tile with the largest `z` has an
/// index of at least the extent in `x` times the extent in `z`, which is the number of
/// tiles, so it lies past them.
pub proof fn lemma_map_data_never_made(m: TileMap)
    requires
        m.well_formed(),
    ensures
        data_tiles(m) is None,
{
    let order = m.order_view();
    if order.len() > 0 {
        let size = data_size(m);
        let count = size.x * size.y;
        if count <= usize::MAX {
            crate::tgm::tiles::lemma_corners_bound(order);
            lemma_max_z_attained(order);
            let k = choose|k: int| 0 <= k < order.len() && (#[trigger] order[k]).z == max_z(order);
            let p = order[k];
            assert(size.y == max_z(order) - min_z(order));
            assert(tile_index(p, size.x as int) >= count) by (nonlinear_arith)
                requires
                    p.z == max_z(order),
                    size.y == max_z(order) - min_z(order),
                    min_z(order) >= 0,
                    p.x >= 0,
                    size.x >= 0,
                    count == size.x * size.y,
                    tile_index(p, size.x as int) == p.x + p.z * size.x,
            ;
            lemma_placed_fails(m, order, k, size.x as int, count);
        }
    }
}


/// The BYOND paths with a turf of their own, each with the name of its turf asset.
pub open spec fn turf_table() -> Seq<(Seq<char>, Seq<char>)> {
    seq![
        ("/turf/closed/wall"@, "wall"@),
        ("/turf/closed/wall/r_wall"@, "reinforced wall"@),
        ("/obj/structure/grille"@, "grille"@),
        ("/obj/structure/plasticflaps/opaque"@, "wall"@),
        ("/obj/effect/spawner/structure/window"@, "window"@),
        ("/obj/effect/spawner/structure/window/reinforced"@, "reinforced window"@),
        ("/obj/effect/spawner/structure/window/reinforced/tinted"@, "reinforced window"@),
        ("/turf/open/floor/plasteel"@, "floor"@),
        ("/turf/open/floor/plasteel/white"@, "white floor"@),
        ("/turf/open/floor/plasteel/white/corner"@, "white floor"@),
        ("/turf/open/floor/plasteel/dark"@, "dark floor"@),
        ("/turf/open/floor/plasteel/grimy"@, "floor"@),
        ("/turf/open/floor/plating"@, "plating"@),
        ("/turf/open/floor/wood"@, "wood floor"@),
    ]
}

/// Each listed BYOND path gives its own turf from the table; any other path under
/// `/turf/open/floor` is an ordinary floor, and every other path gives no turf. A tile
/// whose only object has a listed path gets that path's turf asset.
pub proof fn lemma_turf_names(path: Seq<char>, obj: Object)
    ensures
        forall|i: int| 0 <= i < turf_table().len() ==> turf_name(#[trigger] turf_table()[i].0) == Some(
            turf_table()[i].1,
        ),
        (forall|i: int| 0 <= i < turf_table().len() ==> #[trigger] turf_table()[i].0 != path) ==> turf_name(path)
            == (if has_prefix(path, "/turf/open/floor"@) {
            Some("floor"@)
        } else {
            None
        }),
        forall|i: int|
            0 <= i < turf_table().len() && obj.path@ == #[trigger] turf_table()[i].0 ==> turf_choice(seq![obj])
                == Some((turf_priority(obj.path@), turf_table()[i].1)),
{
    reveal_strlit("/turf/closed/wall");
    reveal_strlit("/turf/closed/wall/r_wall");
    reveal_strlit("/obj/structure/grille");
    reveal_strlit("/obj/structure/plasticflaps/opaque");
    reveal_strlit("/obj/effect/spawner/structure/window");
    reveal_strlit("/obj/effect/spawner/structure/window/reinforced");
    reveal_strlit("/obj/effect/spawner/structure/window/reinforced/tinted");
    reveal_strlit("/turf/open/floor/plasteel");
    reveal_strlit("/turf/open/floor/plasteel/white");
    reveal_strlit("/turf/open/floor/plasteel/white/corner");
    reveal_strlit("/turf/open/floor/plasteel/dark");
    reveal_strlit("/turf/open/floor/plasteel/grimy");
    reveal_strlit("/turf/open/floor/plating");
    reveal_strlit("/turf/open/floor/wood");
    assert("/turf/closed/wall"@.len() == 17);
    assert("/turf/closed/wall/r_wall"@.len() == 24);
    assert("/obj/structure/grille"@.len() == 21);
    assert("/obj/structure/plasticflaps/opaque"@.len() == 34);
    assert("/obj/effect/spawner/structure/window"@.len() == 36);
    assert("/obj/effect/spawner/structure/window/reinforced"@.len() == 47);
    assert("/obj/effect/spawner/structure/window/reinforced/tinted"@.len() == 54);
    assert("/turf/open/floor/plasteel"@.len() == 25);
    assert("/turf/open/floor/plasteel/white"@.len() == 31);
    assert("/turf/open/floor/plasteel/white/corner"@.len() == 38);
    assert("/turf/open/floor/plasteel/dark"@.len() == 30);
    assert("/turf/open/floor/plasteel/grimy"@.len() == 31);
    assert("/turf/open/floor/plating"@.len() == 24);
    assert("/turf/open/floor/wood"@.len() == 21);
    assert("/turf/closed/wall/r_wall"@[6] != "/turf/open/floor/plating"@[6]);
    assert("/obj/structure/grille"@[1] != "/turf/open/floor/wood"@[1]);
    assert("/turf/open/floor/plasteel/white"@[26] != "/turf/open/floor/plasteel/grimy"@[26]);
    assert(turf_name("/turf/closed/wall"@) == Some("wall"@));
    assert(turf_name("/turf/closed/wall/r_wall"@) == Some("reinforced wall"@));
    assert(turf_name("/obj/structure/grille"@) == Some("grille"@));
    assert(turf_name("/obj/structure/plasticflaps/opaque"@) == Some("wall"@));
    assert(turf_name("/obj/effect/spawner/structure/window"@) == Some("window"@));
    assert(turf_name("/obj/effect/spawner/structure/window/reinforced"@) == Some("reinforced window"@));
    assert(turf_name("/obj/effect/spawner/structure/window/reinforced/tinted"@) == Some("reinforced window"@));
    assert(turf_name("/turf/open/floor/plasteel"@) == Some("floor"@));
    assert(turf_name("/turf/open/floor/plasteel/white"@) == Some("white floor"@));
    assert(turf_name("/turf/open/floor/plasteel/white/corner"@) == Some("white floor"@));
    assert(turf_name("/turf/open/floor/plasteel/dark"@) == Some("dark floor"@));
    assert(turf_name("/turf/open/floor/plasteel/grimy"@) == Some("floor"@));
    assert(turf_name("/turf/open/floor/plating"@) == Some("plating"@));
    assert(turf_name("/turf/open/floor/wood"@) == Some("wood floor"@));
    let t = turf_table();
    if forall|i: int| 0 <= i < t.len() ==> #[trigger] t[i].0 != path {
        assert(t[0].0 != path && t[1].0 != path && t[2].0 != path && t[3].0 != path && t[4].0 != path);
        assert(t[5].0 != path && t[6].0 != path && t[7].0 != path && t[8].0 != path && t[9].0 != path);
        assert(t[10].0 != path && t[11].0 != path && t[12].0 != path && t[13].0 != path);
    }
    assert(seq![obj].drop_last() =~= Seq::<Object>::empty());
    assert(turf_choice(Seq::<Object>::empty()) is None);
    assert forall|i: int|
        0 <= i < t.len() && obj.path@ == #[trigger] t[i].0 implies turf_choice(seq![obj]) == Some(
            (turf_priority(obj.path@), t[i].1),
        ) by {
        assert(turf_name(t[i].0) == Some(t[i].1));
        assert(seq![obj].last() == obj);
    }
}

} // verus!
