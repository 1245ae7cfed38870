# engine_core

The core of a modular game engine: an entity–component world whose
components are JSON values checked against per-component schemas, square,
hex and province maps with regions and field of view, zones, loadouts and
item templates, loot tables, factions, event buses and a widget tree for
user interfaces.

The library is written in Verus and Verus checks all of `src/`: nearly
every function there carries a `requires` / `ensures` contract that Verus
proves, and the laws that span
several operations (what validation leaves behind, what removing one zone
does to the others, what a second assignment changes, what leaving a map
restores) stand as public proof functions beside the code they are about.

## Layout

- `src/` — the verified library.
  - `json.rs`, `json_text.rs` — the JSON value model and its text form.
  - `ecs/` — the world, component registry and schemas, events, items,
    loadouts, templates, zones and regions.
  - `map/`, `map_json.rs`, `wasm_map.rs` — topologies, cell keys, field of
    view, fluid spreading and the map file format.
  - `loot.rs`, `faction.rs`, `ui.rs`, `input.rs`, `config.rs` — the
    smaller subsystems.
- `tests/` — tests of the library on concrete values.
- `app/` — the unverified edge: reading files, serde records, and the
  computations on floating-point values.

Calls into outside crates (`serde_json`, `jsonschema`, `rand`,
`topo_sort`) go through a small number of trusted wrappers whose doc
comments say what each one claims of the crate it calls.
