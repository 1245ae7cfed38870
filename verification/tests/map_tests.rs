use engine_core::collections::KeyMap;
use engine_core::input::InputSource;
use engine_core::map::cell_graph::CellGraph;
use engine_core::map::cell_key::CellKey;
use engine_core::map::fov::compute_fov;
use engine_core::map::{SquareGridMap, Topology, WorldMap};
use engine_core::map_json::{map_from_json_value, wasm_map_from_map_json};
use engine_core::json::Json;
use engine_core::wasm_map::WasmMap;

fn obj(entries: Vec<(&str, Json)>) -> Json {
    Json::Object(entries.into_iter().map(|(k, v)| (k.to_string(), v)).collect())
}

fn s(text: &str) -> Json {
    Json::Str(text.to_string())
}

fn sq(x: i32, y: i32, z: i32) -> CellKey {
    CellKey::Square { x, y, z }
}

fn built(text: &str) -> WasmMap {
    match wasm_map_from_map_json(text) {
        Some(Ok(m)) => m,
        Some(Err(e)) => panic!("map refused: {e}"),
        None => panic!("coordinate overflow"),
    }
}

#[test]
fn map_json_infers_square_adjacency() {
    let m = built(r#"{"topology": "square", "cells": [{"x": 0, "y": 0}, {"x": 1, "y": 0}, {"x": 5, "y": 5}]}"#);
    assert_eq!(m.topology_type, "square");
    assert_eq!(m.cells.len(), 3);
    let n = m.neighbors.get(&sq(0, 0, 0)).unwrap();
    assert_eq!(n.len(), 1);
    assert!(n[0].same(&sq(1, 0, 0)));
    assert!(m.neighbors.get(&sq(5, 5, 0)).is_none());
}

#[test]
fn map_json_explicit_neighbors_and_metadata() {
    let m = built(
        r#"{"topology": "province", "cells": [
            {"id": "north", "neighbors": [{"id": "south"}, {"id": "south"}], "metadata": {"name": "North"}},
            {"id": "south"}
        ]}"#,
    );
    assert_eq!(m.cells.len(), 2);
    let north = CellKey::Province { id: "north".to_string() };
    let n = m.neighbors.get(&north).unwrap();
    assert_eq!(n.len(), 1);
    assert_eq!(m.cell_metadata.get(&north), Some(&obj(vec![("name", s("North"))])));
}

#[test]
fn map_json_errors() {
    assert_eq!(
        map_from_json_value(&obj(vec![("cells", Json::Array(vec![]))])).unwrap().err(),
        Some("Map JSON missing 'topology'".to_string())
    );
    assert_eq!(
        map_from_json_value(&obj(vec![("topology", s("square"))])).unwrap().err(),
        Some("Map JSON missing 'cells' array".to_string())
    );
    assert_eq!(
        map_from_json_value(&obj(vec![("topology", s("torus")), ("cells", Json::Array(vec![obj(vec![])]))]))
            .unwrap()
            .err(),
        Some("Unknown topology 'torus'".to_string())
    );
    assert_eq!(
        map_from_json_value(&obj(vec![("topology", s("province")), ("cells", Json::Array(vec![obj(vec![])]))]))
            .unwrap()
            .err(),
        Some("Province cell missing 'id'".to_string())
    );
    match wasm_map_from_map_json("{not json") {
        Some(Err(e)) => assert!(e.starts_with("Failed to parse map JSON: ")),
        _ => panic!("expected a parse error"),
    }
}

#[test]
fn map_json_edge_cell_overflow_is_none() {
    let text = format!(r#"{{"topology": "square", "cells": [{{"x": {}, "y": 0}}]}}"#, i32::MAX);
    assert!(wasm_map_from_map_json(&text).is_none());
}

fn column_map() -> WasmMap {
    let mut meta: KeyMap<CellKey, Json> = KeyMap::new();
    meta.insert(sq(0, 0, 1), obj(vec![("fluid", obj(vec![("type", s("water")), ("level", Json::Int(3))]))]));
    WasmMap {
        topology_type: "square".to_string(),
        cells: vec![sq(0, 0, 0), sq(0, 0, 1)],
        neighbors: KeyMap::new(),
        cell_metadata: meta,
    }
}

#[test]
fn fluid_flows_down_one_unit() {
    let mut m = column_map();
    let steam = m.simulate_fluid(7, 100);
    assert!(steam.is_empty());
    assert_eq!(
        m.cell_metadata.get(&sq(0, 0, 1)),
        Some(&obj(vec![("fluid", obj(vec![("level", Json::Int(2)), ("type", s("water"))]))]))
    );
    assert_eq!(
        m.cell_metadata.get(&sq(0, 0, 0)),
        Some(&obj(vec![("fluid", obj(vec![("level", Json::Int(1)), ("type", s("water"))]))]))
    );
}

#[test]
fn fluid_dry_map_unchanged() {
    let mut m = WasmMap {
        topology_type: "square".to_string(),
        cells: vec![sq(0, 0, 0)],
        neighbors: KeyMap::new(),
        cell_metadata: KeyMap::new(),
    };
    let steam = m.simulate_fluid(7, 100);
    assert!(steam.is_empty());
    assert!(m.cell_metadata.get(&sq(0, 0, 0)).is_none());
}

#[test]
fn fluid_water_meets_magma() {
    let mut meta: KeyMap<CellKey, Json> = KeyMap::new();
    meta.insert(sq(0, 0, 0), obj(vec![("fluid", obj(vec![("water", Json::Int(2)), ("magma", Json::Int(1))]))]));
    let mut m = WasmMap {
        topology_type: "square".to_string(),
        cells: vec![sq(0, 0, 0)],
        neighbors: KeyMap::new(),
        cell_metadata: meta,
    };
    let steam = m.simulate_fluid(7, 100);
    assert_eq!(steam.len(), 1);
    assert_eq!(steam[0].get("water"), Some(&Json::Int(1)));
    assert_eq!(steam[0].get("magma"), Some(&Json::Int(0)));
    assert_eq!(
        m.cell_metadata.get(&sq(0, 0, 0)),
        Some(&obj(vec![("fluid", obj(vec![("level", Json::Int(1)), ("type", s("water"))]))]))
    );
}

#[test]
fn fluid_blocks_at_threshold() {
    let mut meta: KeyMap<CellKey, Json> = KeyMap::new();
    meta.insert(sq(0, 0, 0), obj(vec![("fluid", obj(vec![("type", s("water")), ("level", Json::Int(5))]))]));
    let mut m = WasmMap {
        topology_type: "square".to_string(),
        cells: vec![sq(0, 0, 0)],
        neighbors: KeyMap::new(),
        cell_metadata: meta,
    };
    m.simulate_fluid(7, 4);
    assert_eq!(
        m.cell_metadata.get(&sq(0, 0, 0)),
        Some(&obj(vec![
            ("fluid", obj(vec![("level", Json::Int(5)), ("type", s("water"))])),
            ("walkable", Json::Bool(false)),
            ("transparent", Json::Bool(false)),
        ]))
    );
}

#[test]
fn fluid_spreads_and_keeps_other_metadata() {
    let a = sq(0, 0, 0);
    let b = sq(1, 0, 0);
    let mut meta: KeyMap<CellKey, Json> = KeyMap::new();
    meta.insert(
        a.clone(),
        obj(vec![("fluid", obj(vec![("type", s("water")), ("level", Json::Int(2))])), ("terrain", s("grass"))]),
    );
    let mut nbrs: KeyMap<CellKey, Vec<CellKey>> = KeyMap::new();
    nbrs.insert(a.clone(), vec![b.clone()]);
    nbrs.insert(b.clone(), vec![a.clone()]);
    let mut m = WasmMap { topology_type: "square".to_string(), cells: vec![a.clone(), b.clone()], neighbors: nbrs, cell_metadata: meta };
    m.simulate_fluid(7, 100);
    let level1 = obj(vec![("level", Json::Int(1)), ("type", s("water"))]);
    let ma = m.cell_metadata.get(&a).unwrap();
    assert_eq!(ma.get("fluid"), Some(&level1));
    assert_eq!(ma.get_str("terrain"), Some("grass"));
    assert_eq!(m.cell_metadata.get(&b).unwrap().get("fluid"), Some(&level1));
}

#[test]
fn fov_sees_origin_and_neighbors() {
    let mut grid = SquareGridMap::new();
    for x in 0..3 {
        for y in 0..3 {
            grid.add_cell(x, y, 0);
        }
    }
    let map = WorldMap::new(Topology::Square(grid));
    let seen = compute_fov(&map, &sq(1, 1, 0), 1);
    assert!(seen.contains(&sq(1, 1, 0)));
    assert!(seen.contains(&sq(0, 1, 0)));
    assert!(seen.contains(&sq(1, 2, 0)));
    let only_origin = compute_fov(&map, &sq(1, 1, 0), 0);
    assert_eq!(only_origin.len(), 1);
    assert!(only_origin.contains(&sq(1, 1, 0)));
    let outside = compute_fov(&map, &sq(9, 9, 0), 3);
    assert_eq!(outside.len(), 0);
}

#[test]
fn cell_graph_neighbors() {
    let mut g = CellGraph::new("square");
    g.add_cell("a");
    g.add_cell("b");
    g.add_neighbor("a", "b");
    g.add_neighbor("zzz", "a");
    let n = g.neighbors("a").unwrap();
    assert!(n.contains(&"b".to_string()));
    assert_eq!(n.len(), 1);
    assert!(g.neighbors("zzz").is_none());
    assert_eq!(g.cells.get(&"a".to_string()).unwrap().topology, "square");
}

#[test]
fn mock_input_is_first_in_first_out() {
    let mut src = InputSource::Mock(vec!["one".to_string(), "two".to_string()]);
    assert_eq!(src.take_queued(), Some("one".to_string()));
    assert_eq!(src.take_queued(), Some("two".to_string()));
    assert_eq!(src.take_queued(), None);
    let mut stdin = InputSource::default();
    assert_eq!(stdin.take_queued(), None);
}

#[test]
fn merge_chunk_unions_cells_and_keeps_existing_metadata() {
    let mut a = SquareGridMap::new();
    a.add_cell(0, 0, 0);
    a.add_cell(1, 0, 0);
    a.add_neighbor((0, 0, 0), (1, 0, 0));
    a.set_cell_metadata(&sq(0, 0, 0), obj(vec![("owner", s("a"))]));
    let mut b = SquareGridMap::new();
    b.add_cell(0, 0, 0);
    b.add_cell(0, 1, 0);
    b.add_neighbor((0, 0, 0), (0, 1, 0));
    b.set_cell_metadata(&sq(0, 0, 0), obj(vec![("owner", s("b"))]));
    b.set_cell_metadata(&sq(0, 1, 0), obj(vec![("owner", s("b"))]));
    let mut map = WorldMap::new(Topology::Square(a));
    map.merge_chunk(&WorldMap::new(Topology::Square(b)));
    assert_eq!(map.all_cells().len(), 3);
    assert_eq!(map.neighbors(&sq(0, 0, 0)).len(), 2);
    assert_eq!(map.get_cell_metadata(&sq(0, 0, 0)).unwrap().get_str("owner"), Some("a"));
    assert_eq!(map.get_cell_metadata(&sq(0, 1, 0)).unwrap().get_str("owner"), Some("b"));
}
