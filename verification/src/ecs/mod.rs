//! Entity-component-system support: events, registries and world state.
pub mod event;
pub mod event_bus_registry;
pub mod event_logger;
pub mod components;
pub mod equipment_set;
pub mod schema;
pub mod system;
pub mod time;
pub mod registry;
pub mod world;
pub mod item;
pub mod loadout;
pub mod template;
