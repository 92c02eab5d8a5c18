use station::maps::direction::UVec2;
use station::tgm::conversion::{from_byond, get_furniture_path, get_turf_path, tile_to_data, to_map_data};
use station::tgm::loader::{load_tgm, TgmLoader};
use station::tgm::model::{Object, Tile, Value, Variable};
use station::tgm::numeric::whole_number;
use station::tgm::parsing::{parse, MapSyntaxError};
use station::tgm::tiles::UVec3;
use station::maps::direction::Direction;

const MAP: &str = "//MAP CONVERTED BY dmm2tgm.py THIS HEADER COMMENT PREVENTS RECONVERSION, DO NOT REMOVE\n\
\"a\" = (\n\
/turf/open/floor/plasteel,\n\
/area/station)\n\
\"b\" = (\n\
/obj/machinery/light{\n\
\tdir = 4\n\
\t},\n\
/turf/closed/wall,\n\
/area/station)\n\
\n\
(1,1,1) = {\"\n\
a\n\
b\n\
\"}\n\
(2,1,1) = {\"\n\
b\n\
a\n\
\"}\n";

fn chars(s: &str) -> Vec<char> {
    s.chars().collect()
}

fn object(path: &str, variables: Vec<Variable>) -> Object {
    Object::new(path.to_string(), variables)
}

#[test]
fn parses_definitions_and_chunks() {
    let text = chars(&MAP[MAP.find('\n').unwrap()..]);
    let parsed = parse(&text).ok().unwrap();
    assert_eq!(parsed.definitions.len(), 2);
    assert_eq!(parsed.definitions[0].0, "a");
    assert_eq!(
        parsed.definitions[0].1.components,
        vec![object("/turf/open/floor/plasteel", vec![]), object("/area/station", vec![])]
    );
    assert_eq!(parsed.definitions[1].0, "b");
    assert_eq!(
        parsed.definitions[1].1.components[0],
        object(
            "/obj/machinery/light",
            vec![Variable::new("dir".to_string(), Value::Number("4".to_string()))]
        )
    );
    assert_eq!(parsed.chunks.len(), 2);
    assert_eq!(parsed.chunks[0].0, vec!["1".to_string(), "1".to_string(), "1".to_string()]);
    assert_eq!(parsed.chunks[0].1, "\na\nb\n");
}

#[test]
fn parses_values_of_every_kind() {
    let text = chars("\"k\" = (/obj/thing{n = -1.5e2; s = 'it\\\"s'; l = list(1, \"x\"); m = list(\"a\" = 1, /b = 2, \"a\" = 3); z = null; o = /obj/inner})\n(1,1,1) = {\"k\"}");
    let parsed = parse(&text).ok().unwrap();
    let obj = &parsed.definitions[0].1.components[0];
    assert_eq!(obj.path, "/obj/thing");
    let values: Vec<&Value> = obj.variables.iter().map(|v| &v.value).collect();
    assert_eq!(*values[0], Value::Number("-1.5e2".to_string()));
    assert_eq!(*values[1], Value::Literal("it\\\"s".to_string()));
    assert_eq!(
        *values[2],
        Value::List(vec![Value::Number("1".to_string()), Value::Literal("x".to_string())])
    );
    assert_eq!(
        *values[3],
        Value::Mapping(vec![
            ("a".to_string(), Value::Number("3".to_string())),
            ("/b".to_string(), Value::Number("2".to_string())),
        ])
    );
    assert_eq!(*values[4], Value::Null);
    assert_eq!(*values[5], Value::Object(object("/obj/inner", vec![])));
}

#[test]
fn parse_errors() {
    assert!(matches!(parse(&chars("\n(1,1,1) = {\"a\"}")), Err(MapSyntaxError::Unmatched)));
    assert!(matches!(
        parse(&chars("\"a\" = (/obj/x{v = 1e})\n(1,1,1) = {\"a\"}")),
        Err(MapSyntaxError::Malformed)
    ));
    // an empty string is not a tile key
    assert!(matches!(parse(&chars("\"\" = (/obj/x)\n(1,1,1) = {\"a\"}")), Err(MapSyntaxError::Unmatched)));
}

#[test]
fn loads_a_map() {
    let map = load_tgm(MAP.as_bytes()).unwrap().ok().unwrap();
    let positions: Vec<UVec3> = map.iter_tiles().iter().map(|t| t.0).collect();
    assert_eq!(
        positions,
        vec![
            UVec3 { x: 2, y: 1, z: 2 },
            UVec3 { x: 2, y: 1, z: 3 },
            UVec3 { x: 1, y: 1, z: 2 },
            UVec3 { x: 1, y: 1, z: 3 },
        ]
    );
    let a = map.get_tile(UVec3 { x: 2, y: 1, z: 2 }).unwrap();
    assert_eq!(a.components[0].path, "/turf/open/floor/plasteel");
    let b = map.get_tile(UVec3 { x: 1, y: 1, z: 2 }).unwrap();
    assert_eq!(b.components[0].path, "/obj/machinery/light");
    assert!(map.get_tile(UVec3 { x: 1, y: 1, z: 1 }).is_none());
    assert_eq!(map.corners(), (UVec2 { x: 2, y: 3 }, UVec2 { x: 1, y: 2 }));
    assert_eq!(map.size(), UVec2 { x: 1, y: 1 });
    assert_eq!(map.middle(), UVec2 { x: 1, y: 2 });
}

#[test]
fn load_errors() {
    // no line break: nothing can be loaded
    assert!(load_tgm(b"no line break").is_none());
    assert!(load_tgm(&[0xff, 0x0a]).unwrap().is_err());
    let err = load_tgm(b"header\nnot a map").unwrap().err().unwrap();
    assert_eq!(err.message(), "the text is not a map in the TGM format");
    // a chunk with two coordinates cannot be placed
    assert!(load_tgm(b"header\n\"a\" = (/turf)\n(1,1) = {\"a\"}").is_none());
}

#[test]
fn loader_extensions() {
    assert_eq!(TgmLoader.extensions(), vec!["dmm"]);
}

#[test]
fn whole_numbers() {
    assert_eq!(whole_number(&chars("12"), u32::MAX), 12);
    assert_eq!(whole_number(&chars("1.9"), u32::MAX), 1);
    assert_eq!(whole_number(&chars("-5"), u32::MAX), 0);
    assert_eq!(whole_number(&chars("1e3"), u32::MAX), 1000);
    assert_eq!(whole_number(&chars("2.5e1"), u32::MAX), 25);
    assert_eq!(whole_number(&chars(".5"), u32::MAX), 0);
    assert_eq!(whole_number(&chars("5e-1"), u32::MAX), 0);
    assert_eq!(whole_number(&chars("NaN"), u32::MAX), 0);
    assert_eq!(whole_number(&chars("inf"), 255), 255);
    assert_eq!(whole_number(&chars("99999999999"), u32::MAX), u32::MAX);
    assert_eq!(whole_number(&chars("300"), 255), 255);
    assert_eq!(whole_number(&chars("1e99999999999999999999999999999999"), u32::MAX), u32::MAX);
    assert_eq!(whole_number(&chars("0e99999999999999999999999999999999"), u32::MAX), 0);
}

#[test]
fn byond_directions() {
    assert_eq!(from_byond(1), Some(Direction::North));
    assert_eq!(from_byond(2), Some(Direction::South));
    assert_eq!(from_byond(4), Some(Direction::East));
    assert_eq!(from_byond(8), Some(Direction::West));
    assert_eq!(from_byond(3), None);
}

#[test]
fn tile_conversion() {
    let tile = Tile::from(vec![
        object(
            "/obj/machinery/light",
            vec![Variable::new("dir".to_string(), Value::Number("4".to_string()))],
        ),
        object("/turf/closed/wall", vec![]),
        object("/turf/open/floor/plasteel/dark", vec![]),
        object("/obj/structure/grille", vec![]),
        object("/obj/machinery/door/airlock/security", vec![]),
        object("/obj/structure/table", vec![]),
    ]);
    // objects come before turfs; the last of them wins
    assert_eq!(get_turf_path(&tile), Some("tilemap/turfs/grille.scn.ron".to_string()));
    // the first piece of furniture wins
    assert_eq!(
        get_furniture_path(&tile),
        Some("tilemap/furniture/airlock security.scn.ron".to_string())
    );
    let data = tile_to_data(&tile);
    assert_eq!(
        data.high_mounts,
        [None, Some("tilemap/wall_mounts/light_tube.scn.ron".to_string()), None, None]
    );
    let floors = Tile::from(vec![object("/turf/open/floor/carpet", vec![]), object("/turf/closed/wall/r_wall", vec![])]);
    assert_eq!(get_turf_path(&floors), Some("tilemap/turfs/reinforced wall.scn.ron".to_string()));
    assert_eq!(get_furniture_path(&floors), None);
}

#[test]
fn map_data_is_never_made() {
    let map = load_tgm(MAP.as_bytes()).unwrap().ok().unwrap();
    assert!(to_map_data(&map).is_none());
}

#[test]
fn numbers_are_read_exactly() {
    assert_eq!(whole_number(&chars("16777217"), u32::MAX), 16777217);
    assert_eq!(whole_number(&chars("0.9999999999"), u32::MAX), 0);
    assert_eq!(whole_number(&chars("2.5e1"), u32::MAX), 25);
}
