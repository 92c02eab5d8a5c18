//! The tiles of a map file: which tile definition stands at each position.
use std::collections::HashMap;
use vstd::prelude::*;
use crate::chars::chars_of;
use crate::maps::direction::UVec2;
use crate::tgm::model::Tile;

verus! {

broadcast use vstd::std_specs::hash::group_hash_axioms;

/// A position in a map file: `x` across, `y` the level, `z` down the rows.
#[derive(Clone, Copy, PartialEq, Eq, Structural, Debug, Hash)]
pub struct UVec3 {
    pub x: u32,
    pub y: u32,
    pub z: u32,
}

/// The number a position is filed under: its three coordinates side by side.
pub open spec fn position_key(p: UVec3) -> u128 {
    ((p.x as u128) << 64u128) | ((p.y as u128) << 32u128) | (p.z as u128)
}

/// Distinct positions are filed under distinct numbers.
pub proof fn lemma_position_key_injective(a: UVec3, b: UVec3)
    requires
        position_key(a) == position_key(b),
    ensures
        a == b,
{
    let (ax, ay, az, bx, by, bz) = (a.x, a.y, a.z, b.x, b.y, b.z);
    assert(ax == bx && ay == by && az == bz) by (bit_vector)
        requires
            ((ax as u128) << 64u128) | ((ay as u128) << 32u128) | (az as u128) == ((bx as u128) << 64u128)
                | ((by as u128) << 32u128) | (bz as u128),
    ;
}

fn key_of(p: UVec3) -> (r: u128)
    ensures
        r == position_key(p),
{
    ((p.x as u128) << 64) | ((p.y as u128) << 32) | (p.z as u128)
}

/// `a` comes before `b`, character by character, a proper prefix first.
pub open spec fn text_lt(a: Seq<char>, b: Seq<char>) -> bool
    decreases a.len(),
{
    if a.len() == 0 {
        b.len() > 0
    } else if b.len() == 0 {
        false
    } else if a[0] != b[0] {
        a[0] < b[0]
    } else {
        text_lt(a.drop_first(), b.drop_first())
    }
}

/// `a` comes before `b` or equals it.
pub open spec fn text_le(a: Seq<char>, b: Seq<char>) -> bool {
    a == b || text_lt(a, b)
}

/// The texts are in order.
pub open spec fn sorted_texts(s: Seq<Seq<char>>) -> bool {
    forall|i: int, j: int| 0 <= i < j < s.len() ==> text_le(s[i], s[j])
}

pub proof fn lemma_text_lt_irreflexive(a: Seq<char>)
    ensures
        !text_lt(a, a),
    decreases a.len(),
{
    if a.len() > 0 {
        lemma_text_lt_irreflexive(a.drop_first());
    }
}

pub proof fn lemma_text_lt_asymmetric(a: Seq<char>, b: Seq<char>)
    requires
        text_lt(a, b),
    ensures
        !text_lt(b, a),
        a != b,
    decreases a.len(),
{
    lemma_text_lt_irreflexive(a);
    if a.len() > 0 && b.len() > 0 && a[0] == b[0] {
        lemma_text_lt_asymmetric(a.drop_first(), b.drop_first());
    }
}

pub proof fn lemma_text_lt_transitive(a: Seq<char>, b: Seq<char>, c: Seq<char>)
    requires
        text_lt(a, b),
        text_lt(b, c),
    ensures
        text_lt(a, c),
    decreases a.len(),
{
    if a.len() > 0 && b.len() > 0 && c.len() > 0 && a[0] == b[0] && b[0] == c[0] {
        lemma_text_lt_transitive(a.drop_first(), b.drop_first(), c.drop_first());
    }
}

pub proof fn lemma_text_lt_total(a: Seq<char>, b: Seq<char>)
    ensures
        a == b || text_lt(a, b) || text_lt(b, a),
    decreases a.len(),
{
    if a.len() > 0 && b.len() > 0 && a[0] == b[0] {
        lemma_text_lt_total(a.drop_first(), b.drop_first());
        if a.drop_first() == b.drop_first() {
            assert(a =~= seq![a[0]] + a.drop_first());
            assert(b =~= seq![b[0]] + b.drop_first());
        }
    } else if a.len() == 0 && b.len() == 0 {
        assert(a =~= b);
    }
}

/// How two texts compare.
pub enum TextOrder {
    Less,
    Equal,
    Greater,
}

/// Compares two texts character by character.
pub fn compare_texts(a: &Vec<char>, b: &Vec<char>) -> (r: TextOrder)
    ensures
        r is Equal <==> a@ == b@,
        r is Less <==> text_lt(a@, b@),
        r is Greater <==> text_lt(b@, a@),
{
    let mut i: usize = 0;
    proof {
        assert(a@.skip(0) =~= a@);
        assert(b@.skip(0) =~= b@);
    }
    while i < a.len() && i < b.len() && a[i] == b[i]
        invariant
            i <= a.len(),
            i <= b.len(),
            a@.take(i as int) == b@.take(i as int),
            text_lt(a@, b@) == text_lt(a@.skip(i as int), b@.skip(i as int)),
            text_lt(b@, a@) == text_lt(b@.skip(i as int), a@.skip(i as int)),
        decreases a.len() - i,
    {
        proof {
            assert(a@.skip(i as int).drop_first() =~= a@.skip(i as int + 1));
            assert(b@.skip(i as int).drop_first() =~= b@.skip(i as int + 1));
            assert(a@.take(i as int + 1) =~= a@.take(i as int).push(a@[i as int]));
            assert(b@.take(i as int + 1) =~= b@.take(i as int).push(b@[i as int]));
        }
        i = i + 1;
    }
    proof {
        lemma_text_lt_asymmetric_or_equal(a@, b@);
    }
    if i == a.len() && i == b.len() {
        assert(a@ =~= a@.take(i as int));
        assert(b@ =~= b@.take(i as int));
        proof {
            lemma_text_lt_irreflexive(a@);
        }
        TextOrder::Equal
    } else if i == a.len() {
        assert(a@.skip(i as int).len() == 0);
        proof {
            if a@ == b@ {
                assert(a@.len() == b@.len());
            }
        }
        TextOrder::Less
    } else if i == b.len() {
        assert(b@.skip(i as int).len() == 0);
        proof {
            if a@ == b@ {
                assert(a@.len() == b@.len());
            }
        }
        TextOrder::Greater
    } else {
        let ghost sa = a@.skip(i as int);
        let ghost sb = b@.skip(i as int);
        assert(sa.len() > 0 && sb.len() > 0);
        assert(sa[0] == a@[i as int]);
        assert(sb[0] == b@[i as int]);
        assert(a@[i as int] != b@[i as int]);
        assert(text_lt(sa, sb) == (a@[i as int] < b@[i as int]));
        assert(text_lt(sb, sa) == (b@[i as int] < a@[i as int]));
        proof {
            if a@ == b@ {
                assert(a@[i as int] == b@[i as int]);
            }
        }
        if a[i] < b[i] {
            TextOrder::Less
        } else {
            TextOrder::Greater
        }
    }
}

proof fn lemma_text_lt_asymmetric_or_equal(a: Seq<char>, b: Seq<char>)
    ensures
        text_lt(a, b) ==> !text_lt(b, a) && a != b,
        text_lt(b, a) ==> !text_lt(a, b) && a != b,
{
    if text_lt(a, b) {
        lemma_text_lt_asymmetric(a, b);
    }
    if text_lt(b, a) {
        lemma_text_lt_asymmetric(b, a);
    }
}

/// The texts of a list of character vectors.
pub open spec fn texts_of(v: Seq<Vec<char>>) -> Seq<Seq<char>> {
    Seq::new(v.len(), |i: int| if 0 <= i < v.len() { v[i]@ } else { Seq::empty() })
}

/// Searches sorted texts for `key` by halving; gives an index holding it, if any does.
pub fn search_sorted(names: &Vec<Vec<char>>, key: &Vec<char>) -> (r: Option<usize>)
    requires
        sorted_texts(texts_of(names@)),
    ensures
        match r {
            Some(i) => i < names.len() && names@[i as int]@ == key@,
            None => forall|i: int| 0 <= i < names.len() ==> names@[i]@ != key@,
        },
{
    let ghost t = texts_of(names@);
    let mut lo: usize = 0;
    let mut hi: usize = names.len();
    while lo < hi
        invariant
            t == texts_of(names@),
            sorted_texts(t),
            lo <= hi <= names.len(),
            forall|i: int| 0 <= i < lo ==> text_lt(#[trigger] t[i], key@),
            forall|i: int| hi <= i < names.len() ==> text_lt(key@, #[trigger] t[i]),
        decreases hi - lo,
    {
        let mid = lo + (hi - lo) / 2;
        assert(t[mid as int] == names@[mid as int]@);
        match compare_texts(&names[mid], key) {
            TextOrder::Equal => {
                return Some(mid);
            },
            TextOrder::Less => {
                assert forall|i: int| 0 <= i < mid + 1 implies text_lt(#[trigger] t[i], key@) by {
                    if i < mid {
                        assert(text_le(t[i], t[mid as int]));
                        if t[i] != t[mid as int] {
                            lemma_text_lt_transitive(t[i], t[mid as int], key@);
                        }
                    }
                }
                lo = mid + 1;
            },
            TextOrder::Greater => {
                assert forall|i: int| mid <= i < names.len() implies text_lt(key@, #[trigger] t[i]) by {
                    if i > mid {
                        assert(text_le(t[mid as int], t[i]));
                        if t[i] != t[mid as int] {
                            lemma_text_lt_transitive(key@, t[mid as int], t[i]);
                        }
                    }
                }
                hi = mid;
            },
        }
    }
    assert forall|i: int| 0 <= i < names.len() implies names@[i]@ != key@ by {
        assert(t[i] == names@[i]@);
        if i < lo {
            lemma_text_lt_asymmetric(t[i], key@);
        } else {
            lemma_text_lt_asymmetric(key@, t[i]);
        }
    }
    None
}

/// Sorts tile definitions by name with std's `slice::sort_unstable_by`, comparing the
/// names with `str`'s ordering. Claimed: the same definitions come back, in order of
/// their names; strings order byte by byte, which for UTF-8 is character by character.
/// The order of definitions with equal names is left open.
#[verifier::external_body]
fn sort_by_name(v: &mut Vec<(String, Tile)>)
    ensures
        final(v)@.to_multiset() == old(v)@.to_multiset(),
        forall|i: int, j: int| 0 <= i < j < final(v)@.len() ==> text_le(final(v)@[i].0@, final(v)@[j].0@),
{
    v.sort_unstable_by(|a, b| a.0.cmp(&b.0));
}

/// Whether a name occurs among the definitions.
pub open spec fn known(names: Seq<Seq<char>>, n: Seq<char>) -> bool {
    names.contains(n)
}

/// The name placed at each position (by its key): the last name given for the
/// position that some definition has. Names without a definition are skipped.
pub open spec fn placements(ps: Seq<(UVec3, Seq<char>)>, names: Seq<Seq<char>>) -> Map<u128, Seq<char>>
    decreases ps.len(),
{
    if ps.len() == 0 {
        Map::empty()
    } else {
        let m = placements(ps.drop_last(), names);
        if known(names, ps.last().1) {
            m.insert(position_key(ps.last().0), ps.last().1)
        } else {
            m
        }
    }
}

/// The placed positions, each once, in the order they were first given a known name.
pub open spec fn placement_order(ps: Seq<(UVec3, Seq<char>)>, names: Seq<Seq<char>>) -> Seq<UVec3>
    decreases ps.len(),
{
    if ps.len() == 0 {
        Seq::empty()
    } else {
        let o = placement_order(ps.drop_last(), names);
        if known(names, ps.last().1) && !placements(ps.drop_last(), names).contains_key(position_key(ps.last().0)) {
            o.push(ps.last().0)
        } else {
            o
        }
    }
}

/// The positions given in a list with their names.
pub open spec fn position_entries(v: Seq<(UVec3, String)>) -> Seq<(UVec3, Seq<char>)> {
    Seq::new(v.len(), |i: int| if 0 <= i < v.len() { (v[i].0, v[i].1@) } else { (UVec3 { x: 0, y: 0, z: 0 }, Seq::empty()) })
}

/// The tile definitions of a map and where each one stands.
pub struct TileMap {
    /// The definitions, in order of their names.
    definitions: Vec<Tile>,
    /// The named definitions the map was made from, in the same order.
    source: Ghost<Seq<(String, Tile)>>,
    /// The definition placed at each position, by position key.
    tiles: HashMap<u128, usize>,
    /// The placed positions, each once.
    order: Vec<UVec3>,
}

impl TileMap {
    pub closed spec fn definitions_view(&self) -> Seq<Tile> {
        self.definitions@
    }

    /// The named definitions the map was made from, in order of their names.
    pub closed spec fn source_view(&self) -> Seq<(String, Tile)> {
        self.source@
    }

    /// The names of the definitions, in order.
    pub open spec fn names_view(&self) -> Seq<Seq<char>> {
        Seq::new(self.source_view().len(), |i: int| self.source_view()[i].0@)
    }

    /// The definition index placed at each position key.
    pub closed spec fn tiles_view(&self) -> Map<u128, usize> {
        self.tiles@
    }

    /// The placed positions, each once.
    pub closed spec fn order_view(&self) -> Seq<UVec3> {
        self.order@
    }

    /// Names and definitions line up; every placement points at a definition; the
    /// order lists exactly the placed positions, once each.
    pub open spec fn well_formed(&self) -> bool {
        &&& self.source_view().len() == self.definitions_view().len()
        &&& forall|i: int| 0 <= i < self.definitions_view().len() ==> #[trigger] self.definitions_view()[i] == self.source_view()[i].1
        &&& forall|k: u128| #[trigger] self.tiles_view().contains_key(k) ==> self.tiles_view()[k] < self.definitions_view().len()
        &&& forall|i: int| 0 <= i < self.order_view().len() ==> self.tiles_view().contains_key(position_key(#[trigger] self.order_view()[i]))
        &&& forall|k: u128| #[trigger] self.tiles_view().contains_key(k) ==> exists|i: int| 0 <= i < self.order_view().len() && position_key(self.order_view()[i]) == k
        &&& forall|i: int, j: int| 0 <= i < j < self.order_view().len() ==> self.order_view()[i] != self.order_view()[j]
    }
}

/// `m` is the map made from `definitions` and `positions`: the definitions in order of
/// their names, each position with the definition of the last known name given to it.
pub open spec fn built_from(m: TileMap, definitions: Seq<(String, Tile)>, positions: Seq<(UVec3, String)>) -> bool {
    &&& m.well_formed()
    &&& m.source_view().to_multiset() == definitions.to_multiset()
    &&& sorted_texts(m.names_view())
    &&& forall|k: u128| #[trigger] m.tiles_view().contains_key(k)
        <==> placements(position_entries(positions), m.names_view()).contains_key(k)
    &&& forall|k: u128| #[trigger] m.tiles_view().contains_key(k)
        ==> m.names_view()[m.tiles_view()[k] as int] == placements(position_entries(positions), m.names_view())[k]
    &&& m.order_view() == placement_order(position_entries(positions), m.names_view())
}

impl TileMap {
    /// A map from named tile definitions and the names placed at each position. The
    /// definitions are kept in order of their names; a position takes the last name
    /// given to it that some definition has, and names without a definition are skipped.
    pub fn new(definitions: Vec<(String, Tile)>, positions: Vec<(UVec3, String)>) -> (r: Self)
        ensures
            built_from(r, definitions@, positions@),
    {
        let mut sorted = definitions;
        sort_by_name(&mut sorted);
        let ghost source = sorted@;
        let n = sorted.len();
        // The names, as characters, in order.
        let mut names: Vec<Vec<char>> = Vec::new();
        let mut i: usize = 0;
        while i < n
            invariant
                n == sorted.len(),
                sorted@ == source,
                i <= n,
                names.len() == i,
                forall|k: int| 0 <= k < i ==> names@[k]@ == source[k].0@,
            decreases n - i,
        {
            names.push(chars_of(sorted[i].0.as_str()));
            i = i + 1;
        }
        let ghost name_seq = Seq::new(source.len(), |k: int| source[k].0@);
        assert(texts_of(names@) =~= name_seq);
        // The tiles, in order: taken off the end, then turned around.
        let mut reversed: Vec<Tile> = Vec::new();
        while sorted.len() > 0
            invariant
                sorted@ == source.take(sorted.len() as int),
                sorted.len() <= n == source.len(),
                reversed.len() == n - sorted.len(),
                forall|k: int| 0 <= k < reversed.len() ==> #[trigger] reversed@[k] == source[n - 1 - k].1,
            decreases sorted.len(),
        {
            let (_, tile) = sorted.pop().unwrap();
            reversed.push(tile);
            assert(sorted@ =~= source.take(sorted.len() as int));
        }
        let mut tiles_in_order: Vec<Tile> = Vec::new();
        while reversed.len() > 0
            invariant
                reversed.len() <= n == source.len(),
                tiles_in_order.len() == n - reversed.len(),
                forall|k: int| 0 <= k < reversed.len() ==> #[trigger] reversed@[k] == source[n - 1 - k].1,
                forall|k: int| 0 <= k < tiles_in_order.len() ==> #[trigger] tiles_in_order@[k] == source[k].1,
            decreases reversed.len(),
        {
            let tile = reversed.pop().unwrap();
            tiles_in_order.push(tile);
        }
        // Place the positions.
        let ghost entries = position_entries(positions@);
        let mut tiles: HashMap<u128, usize> = HashMap::new();
        let mut order: Vec<UVec3> = Vec::new();
        let mut cached: Option<(Vec<char>, usize)> = None;
        let mut j: usize = 0;
        while j < positions.len()
            invariant
                entries == position_entries(positions@),
                texts_of(names@) == name_seq,
                sorted_texts(name_seq),
                names.len() == n == source.len(),
                j <= positions.len(),
                forall|k: u128| #[trigger] tiles@.contains_key(k) <==> placements(entries.take(j as int), name_seq).contains_key(k),
                forall|k: u128| #[trigger] tiles@.contains_key(k) ==> tiles@[k] < n
                    && name_seq[tiles@[k] as int] == placements(entries.take(j as int), name_seq)[k],
                order@ == placement_order(entries.take(j as int), name_seq),
                cached matches Some((c, ci)) ==> ci < n && name_seq[ci as int] == c@,
            decreases positions.len() - j,
        {
            let position = positions[j].0;
            let name = chars_of(positions[j].1.as_str());
            assert(entries[j as int] == (position, name@));
            assert(entries.take(j as int + 1).drop_last() =~= entries.take(j as int));
            assert(entries.take(j as int + 1).last() == (position, name@));
            let mut found: Option<usize> = None;
            match &cached {
                Some((c, ci)) => {
                    match compare_texts(c, &name) {
                        TextOrder::Equal => {
                            found = Some(*ci);
                        },
                        _ => {},
                    }
                },
                None => {},
            }
            if found.is_none() {
                found = search_sorted(&names, &name);
                match found {
                    Some(fi) => {
                        cached = Some((name.clone(), fi));
                        assert(name_seq[fi as int] == names@[fi as int]@);
                    },
                    None => {},
                }
            }
            proof {
                if found is None {
                    assert forall|k: int| 0 <= k < name_seq.len() implies name_seq[k] != name@ by {
                        assert(name_seq[k] == names@[k]@);
                    }
                    assert(!name_seq.contains(name@));
                }
            }
            match found {
                Some(fi) => {
                    let key = key_of(position);
                    proof {
                        assert(name_seq[fi as int] == name@);
                        assert(name_seq.contains(name@));
                    }
                    if !tiles.contains_key(&key) {
                        order.push(position);
                    }
                    tiles.insert(key, fi);
                },
                None => {},
            }
            j = j + 1;
        }
        assert(entries.take(positions.len() as int) =~= entries);
        let r = TileMap { definitions: tiles_in_order, source: Ghost(source), tiles, order };
        assert(r.names_view() =~= name_seq);
        proof {
            lemma_placement_order_matches(entries, name_seq);
        }
        assert(r.source_view().len() == r.definitions_view().len());
        assert(forall|i: int| 0 <= i < r.definitions_view().len() ==> #[trigger] r.definitions_view()[i] == r.source_view()[i].1);
        assert(forall|k: u128| #[trigger] r.tiles_view().contains_key(k) ==> r.tiles_view()[k] < r.definitions_view().len());
        assert(forall|i: int| 0 <= i < r.order_view().len() ==> r.tiles_view().contains_key(position_key(#[trigger] r.order_view()[i])));
        assert forall|k: u128| #[trigger] r.tiles_view().contains_key(k) implies exists|i: int|
            0 <= i < r.order_view().len() && position_key(r.order_view()[i]) == k by {
            assert(placements(entries, name_seq).contains_key(k));
            let o = placement_order(entries, name_seq);
            assert(r.order_view() == o);
            let i = choose|i: int| 0 <= i < o.len() && position_key(o[i]) == k;
            assert(position_key(r.order_view()[i]) == k);
        }
        assert(forall|i: int, j: int| 0 <= i < j < r.order_view().len() ==> r.order_view()[i] != r.order_view()[j]);
        r
    }
}

/// The placement order lists exactly the placed positions, once each.
pub proof fn lemma_placement_order_matches(ps: Seq<(UVec3, Seq<char>)>, names: Seq<Seq<char>>)
    ensures
        forall|i: int| 0 <= i < placement_order(ps, names).len() ==> placements(ps, names).contains_key(
            position_key(#[trigger] placement_order(ps, names)[i]),
        ),
        forall|k: u128| #[trigger] placements(ps, names).contains_key(k) ==> exists|i: int|
            0 <= i < placement_order(ps, names).len() && position_key(placement_order(ps, names)[i]) == k,
        forall|i: int, j: int| 0 <= i < j < placement_order(ps, names).len() ==> placement_order(ps, names)[i]
            != placement_order(ps, names)[j],
    decreases ps.len(),
{
    if ps.len() > 0 {
        let rest = ps.drop_last();
        lemma_placement_order_matches(rest, names);
        let o = placement_order(rest, names);
        let m = placements(rest, names);
        let (p, n) = ps.last();
        if known(names, n) && !m.contains_key(position_key(p)) {
            assert forall|i: int| 0 <= i < o.len() implies o[i] != p by {
                if o[i] == p {
                    assert(m.contains_key(position_key(o[i])));
                }
            }
        }
        assert forall|k: u128| #[trigger] placements(ps, names).contains_key(k) implies exists|i: int|
            0 <= i < placement_order(ps, names).len() && position_key(placement_order(ps, names)[i]) == k by {
            let o2 = placement_order(ps, names);
            if m.contains_key(k) {
                let i = choose|i: int| 0 <= i < o.len() && position_key(o[i]) == k;
                assert(o2[i] == o[i]);
            } else {
                assert(o2[o2.len() - 1] == p);
            }
        }
    }
}

/// The largest `x` among the positions, 0 when there are none.
pub open spec fn max_x(s: Seq<UVec3>) -> u32
    decreases s.len(),
{
    if s.len() == 0 {
        0
    } else if s.last().x > max_x(s.drop_last()) {
        s.last().x
    } else {
        max_x(s.drop_last())
    }
}

/// The largest `z` among the positions, 0 when there are none.
pub open spec fn max_z(s: Seq<UVec3>) -> u32
    decreases s.len(),
{
    if s.len() == 0 {
        0
    } else if s.last().z > max_z(s.drop_last()) {
        s.last().z
    } else {
        max_z(s.drop_last())
    }
}

/// The smallest `x` among the positions, `u32::MAX` when there are none.
pub open spec fn min_x(s: Seq<UVec3>) -> u32
    decreases s.len(),
{
    if s.len() == 0 {
        u32::MAX
    } else if s.last().x < min_x(s.drop_last()) {
        s.last().x
    } else {
        min_x(s.drop_last())
    }
}

/// The smallest `z` among the positions, `u32::MAX` when there are none.
pub open spec fn min_z(s: Seq<UVec3>) -> u32
    decreases s.len(),
{
    if s.len() == 0 {
        u32::MAX
    } else if s.last().z < min_z(s.drop_last()) {
        s.last().z
    } else {
        min_z(s.drop_last())
    }
}

/// Every position lies within the corners, and with at least one position the
/// smallest corner is not past the biggest.
pub proof fn lemma_corners_bound(s: Seq<UVec3>)
    ensures
        forall|i: int| 0 <= i < s.len() ==> min_x(s) <= #[trigger] s[i].x <= max_x(s) && min_z(s) <= s[i].z <= max_z(s),
        s.len() > 0 ==> min_x(s) <= max_x(s) && min_z(s) <= max_z(s),
    decreases s.len(),
{
    if s.len() > 0 {
        lemma_corners_bound(s.drop_last());
        assert forall|i: int| 0 <= i < s.len() implies min_x(s) <= #[trigger] s[i].x <= max_x(s) && min_z(s)
            <= s[i].z <= max_z(s) by {
            if i < s.len() - 1 {
                assert(s[i] == s.drop_last()[i]);
            }
        }
        assert(min_x(s) <= s[s.len() - 1].x <= max_x(s));
    }
}

impl TileMap {
    /// The definition placed at `position`, if any.
    pub fn get_tile(&self, position: UVec3) -> (r: Option<&Tile>)
        requires
            self.well_formed(),
        ensures
            r is Some <==> self.tiles_view().contains_key(position_key(position)),
            r matches Some(t) ==> *t == self.definitions_view()[self.tiles_view()[position_key(position)] as int],
    {
        let key = key_of(position);
        match self.tiles.get(&key) {
            Some(i) => {
                let index = *i;
                assert(self.tiles_view().contains_key(key));
                assert(self.tiles_view()[key] == index);
                Some(&self.definitions[index])
            },
            None => None,
        }
    }

    /// Every placed position with its definition, each position once.
    pub fn iter_tiles(&self) -> (r: Vec<(UVec3, Option<&Tile>)>)
        requires
            self.well_formed(),
        ensures
            r.len() == self.order_view().len(),
            forall|i: int| 0 <= i < r.len() ==> (#[trigger] r@[i]).0 == self.order_view()[i] && (r@[i].1 matches Some(t)
                && *t == self.definitions_view()[self.tiles_view()[position_key(self.order_view()[i])] as int]),
    {
        let mut out: Vec<(UVec3, Option<&Tile>)> = Vec::new();
        let mut i: usize = 0;
        while i < self.order.len()
            invariant
                self.well_formed(),
                i <= self.order.len(),
                out.len() == i,
                forall|j: int| 0 <= j < i ==> (#[trigger] out@[j]).0 == self.order_view()[j] && (out@[j].1 matches Some(t)
                    && *t == self.definitions_view()[self.tiles_view()[position_key(self.order_view()[j])] as int]),
            decreases self.order.len() - i,
        {
            let position = self.order[i];
            assert(self.tiles_view().contains_key(position_key(self.order_view()[i as int])));
            let tile = self.get_tile(position);
            out.push((position, tile));
            i = i + 1;
        }
        out
    }

    /// The biggest and the smallest corner of the placed positions, in `x` and `z`.
    pub fn corners(&self) -> (r: (UVec2, UVec2))
        ensures
            r.0 == (UVec2 { x: max_x(self.order_view()), y: max_z(self.order_view()) }),
            r.1 == (UVec2 { x: min_x(self.order_view()), y: min_z(self.order_view()) }),
    {
        let mut biggest = UVec2 { x: 0, y: 0 };
        let mut smallest = UVec2 { x: u32::MAX, y: u32::MAX };
        let mut i: usize = 0;
        while i < self.order.len()
            invariant
                i <= self.order.len(),
                biggest == (UVec2 { x: max_x(self.order_view().take(i as int)), y: max_z(self.order_view().take(i as int)) }),
                smallest == (UVec2 { x: min_x(self.order_view().take(i as int)), y: min_z(self.order_view().take(i as int)) }),
            decreases self.order.len() - i,
        {
            let position = self.order[i];
            assert(self.order_view().take(i as int + 1).drop_last() =~= self.order_view().take(i as int));
            if position.x > biggest.x {
                biggest.x = position.x;
            }
            if position.z > biggest.y {
                biggest.y = position.z;
            }
            if position.x < smallest.x {
                smallest.x = position.x;
            }
            if position.z < smallest.y {
                smallest.y = position.z;
            }
            i = i + 1;
        }
        assert(self.order_view().take(self.order.len() as int) =~= self.order_view());
        (biggest, smallest)
    }

    /// The extent of the placed positions: biggest corner minus smallest. The map must
    /// have a placed position.
    pub fn size(&self) -> (r: UVec2)
        requires
            self.order_view().len() > 0,
        ensures
            r.x == max_x(self.order_view()) - min_x(self.order_view()),
            r.y == max_z(self.order_view()) - min_z(self.order_view()),
    {
        let (biggest, smallest) = self.corners();
        proof {
            lemma_corners_bound(self.order_view());
        }
        UVec2 { x: biggest.x - smallest.x, y: biggest.y - smallest.y }
    }

    /// The middle of the placed positions, rounded towards the smallest corner. The map
    /// must have a placed position.
    pub fn middle(&self) -> (r: UVec2)
        requires
            self.order_view().len() > 0,
        ensures
            r.x == min_x(self.order_view()) + (max_x(self.order_view()) - min_x(self.order_view())) / 2,
            r.y == min_z(self.order_view()) + (max_z(self.order_view()) - min_z(self.order_view())) / 2,
    {
        let (biggest, smallest) = self.corners();
        proof {
            lemma_corners_bound(self.order_view());
        }
        UVec2 { x: smallest.x + (biggest.x - smallest.x) / 2, y: smallest.y + (biggest.y - smallest.y) / 2 }
    }

    /// Whether no position has a tile.
    pub fn is_empty(&self) -> (r: bool)
        ensures
            r == (self.order_view().len() == 0),
    {
        self.order.len() == 0
    }
}

} // verus!
