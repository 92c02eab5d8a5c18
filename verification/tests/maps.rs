use station::entity::Entity;
use station::maps::adjacency::{
    select, surroundings, AdjacencyInformation, AdjacencyKind, AdjacencyVariants,
};
use station::maps::direction::{directions, tile_neighbours, Direction, UVec2};
use station::maps::tilemap::{
    Chunk, TileData, TileEntityPath, TileLayer, TileLayerData, TileMap, TileMapData,
    TileReference, CHUNK_LENGTH, CHUNK_SIZE,
};

#[test]
fn direction_indices_and_offsets() {
    assert_eq!(directions(), [Direction::North, Direction::South, Direction::East, Direction::West]);
    assert_eq!(Direction::North.index(), 0);
    assert_eq!(Direction::West.index(), 3);
    assert_eq!(Direction::North.offset(), (0, -1));
    assert_eq!(Direction::East.offset(), (1, 0));
    for d in directions() {
        let (x, y) = d.offset();
        assert_eq!(Direction::from_offset(x, y), d);
        assert_eq!(Direction::try_from_index(d.index() as usize), Ok(d));
    }
    assert_eq!(Direction::try_from_index(4), Err(()));
    // horizontal component wins
    assert_eq!(Direction::from_offset(-3, 9), Direction::West);
}

#[test]
fn neighbours_stay_on_grid() {
    let n = tile_neighbours(UVec2::new(0, 0));
    assert_eq!(
        n,
        vec![(Direction::South, UVec2::new(0, 1)), (Direction::East, UVec2::new(1, 0))]
    );
    let n = tile_neighbours(UVec2::new(5, 5));
    assert_eq!(
        n,
        vec![
            (Direction::North, UVec2::new(5, 4)),
            (Direction::South, UVec2::new(5, 6)),
            (Direction::East, UVec2::new(6, 5)),
            (Direction::West, UVec2::new(4, 5)),
        ]
    );
}

#[test]
fn rotation_by_quarter_turns() {
    assert_eq!(AdjacencyInformation::rotate_right(0b10000000), 0b00100000);
    assert_eq!(AdjacencyInformation::rotate_right(0b00000011), 0b11000000);
    let mut d = 0b10110001u8;
    for _ in 0..4 {
        d = AdjacencyInformation::rotate_right(d);
    }
    assert_eq!(d, 0b10110001);
}

#[test]
fn adjacency_shapes() {
    let mut a = AdjacencyInformation::new();
    assert!(a.is_o());
    assert_eq!(select(&a), (AdjacencyKind::O, 0));

    a.add(Direction::East);
    assert_eq!(a.is_u(), Some(Direction::East));
    assert_eq!(select(&a), (AdjacencyKind::U, 1));

    a.add(Direction::West);
    assert_eq!(a.is_i(), Some(Direction::East));
    assert_eq!(a.is_u(), None);

    a.add(Direction::North);
    assert_eq!(a.is_t(), Some(Direction::North));
    assert_eq!(select(&a).0, AdjacencyKind::T);

    a.add(Direction::South);
    assert!(a.is_x());
    assert_eq!(select(&a), (AdjacencyKind::X, 0));

    let l = AdjacencyInformation::from_bits(0b00101000);
    assert_eq!(l.is_l(), Some(Direction::East));
    assert_eq!(AdjacencyInformation::quarter_turns_from_dir(Direction::North), 2);
    assert_eq!(AdjacencyInformation::quarter_turns_from_dir(Direction::South), 0);
}

#[test]
fn adjacency_variants_pick_data() {
    let variants = AdjacencyVariants {
        default: "default",
        o: "o",
        u: "u",
        i: "i",
        l: "l",
        t: "t",
        x: "x",
    };
    assert_eq!(variants.get(&AdjacencyInformation::new()), ("o", 0));
    assert_eq!(variants.get(&AdjacencyInformation::from_bits(0b00001000)), ("u", 0));
    assert_eq!(variants.get(&AdjacencyInformation::from_bits(0b10001000)), ("i", 2));
    assert_eq!(variants.get(&AdjacencyInformation::from_bits(0xff)), ("x", 0));
}

#[test]
fn tiles_are_written_and_read_back() {
    let mut map = TileMap::new(UVec2::new(2, 2));
    assert_eq!(map.size(), UVec2::new(2, 2));
    let position = UVec2::new(17, 3);
    assert!(map.tile(position).is_none());

    let tile = TileReference {
        turf: Some(Entity(1)),
        furniture: Some(Entity(2)),
        high_mounts: [None, Some(Entity(3)), None, None],
    };
    assert_eq!(map.set_tile(position, tile), Ok(()));
    let read = map.tile(position).unwrap();
    assert_eq!(read.turf, Some(Entity(1)));
    assert_eq!(read.furniture, Some(Entity(2)));
    assert_eq!(read.high_mounts[1], Some(Entity(3)));

    // the rest of the chunk is empty
    let other = map.tile(UVec2::new(16, 0)).unwrap();
    assert_eq!(other.turf, None);
    assert!(map.chunk_at(UVec2::new(1, 0)).unwrap().is_changed());
    assert!(map.chunk_at(UVec2::new(0, 0)).is_none());
    assert_eq!(map.iter_chunks().len(), 1);
    assert_eq!(map.iter_chunks()[0].0, 1);
    assert_eq!(map.iter_tiles().len(), CHUNK_LENGTH);

    // outside the map's chunks
    assert_eq!(map.set_tile(UVec2::new(0, 40), TileReference::default()), Err(()));
}

#[test]
fn removing_a_tile_entity_clears_its_slot() {
    let mut map = TileMap::new(UVec2::new(1, 1));
    let position = UVec2::new(4, 4);
    let tile = TileReference {
        turf: Some(Entity(1)),
        furniture: Some(Entity(2)),
        high_mounts: [Some(Entity(5)), None, None, Some(Entity(6))],
    };
    map.set_tile(position, tile).unwrap();

    map.remove_tile_entity(TileEntityPath {
        position,
        layer: TileLayer::Furniture,
        index_in_layer: None,
    });
    map.remove_tile_entity(TileEntityPath {
        position,
        layer: TileLayer::HighMount,
        index_in_layer: Some(3),
    });
    let read = map.tile(position).unwrap();
    assert_eq!(read.turf, Some(Entity(1)));
    assert_eq!(read.furniture, None);
    assert_eq!(read.high_mounts, [Some(Entity(5)), None, None, None]);
}

#[test]
fn tile_reference_layers() {
    let mut t = TileReference::default();
    t.set(TileLayer::Turf, TileLayerData::Single(Some(Entity(9))));
    assert!(matches!(t.get(TileLayer::Turf), TileLayerData::Single(Some(Entity(9)))));
    t.set_index(TileLayer::HighMount, 2, Some(Entity(4)));
    assert!(matches!(
        t.get(TileLayer::HighMount),
        TileLayerData::Directional([None, None, Some(Entity(4)), None])
    ));
    assert_eq!(TileReference::position_in_chunk(17), UVec2::new(1, 1));
    assert_eq!(Chunk::index_from_position(UVec2::new(1, 1)), 17);
}

#[test]
fn chunk_positions_round_trip() {
    let size = UVec2::new(3, 2);
    let map = TileMap::new(size);
    for i in 0..6usize {
        let p = TileMap::position_from_chunk_index(size, i);
        assert_eq!(map.index_from_chunk_position(p), i);
    }
    assert_eq!(TileMap::position_from_chunk_index(size, 4), UVec2::new(1, 1));
}

#[test]
fn map_data_size_in_chunks_rounds_up() {
    let data = TileMapData {
        size: UVec2::new(17, CHUNK_SIZE),
        tiles: vec![TileData::default()],
        job_spawn_positions: vec![],
    };
    assert_eq!(data.size_in_chunks(), UVec2::new(2, 1));
    let empty = TileMapData {
        size: UVec2::new(0, 0),
        tiles: vec![],
        job_spawn_positions: vec![],
    };
    assert_eq!(empty.size_in_chunks(), UVec2::new(0, 0));
}

#[test]
fn tile_data_layers_in_order() {
    let data = TileData {
        turf: Some("floor".to_owned()),
        furniture: None,
        high_mounts: [None, Some("light".to_owned()), None, None],
    };
    let layers = data.layers();
    assert_eq!(layers[0].0, TileLayer::Turf);
    assert!(matches!(&layers[0].1, TileLayerData::Single(Some(s)) if s == "floor"));
    assert_eq!(layers[1].0, TileLayer::Furniture);
    assert!(matches!(&layers[1].1, TileLayerData::Single(None)));
    assert_eq!(layers[2].0, TileLayer::HighMount);
    assert!(matches!(&layers[2].1, TileLayerData::Directional([None, Some(s), None, None]) if s == "light"));
}

#[test]
fn surroundings_mark_connected_sides() {
    let walls = [UVec2::new(1, 0), UVec2::new(2, 1)];
    let info = surroundings(UVec2::new(1, 1), |p| walls.contains(&p));
    assert_eq!(info.is_l(), Some(Direction::North));

    // off-grid sides never connect
    let corner = surroundings(UVec2::new(0, 0), |_| true);
    assert_eq!(corner.is_l(), Some(Direction::East));

    let alone = surroundings(UVec2::new(3, 3), |_| false);
    assert!(alone.is_o());
}

#[test]
fn chunk_index_is_cut_to_32_bits() {
    let size = UVec2::new(4, 1);
    let index: usize = (1usize << 32) + 5;
    assert_eq!(TileMap::position_from_chunk_index(size, index), UVec2::new(1, 1));
    assert_eq!(TileMap::position_from_chunk_index(size, 5), UVec2::new(1, 1));
}
