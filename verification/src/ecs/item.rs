//! Item definition registry for caching and looking up item definitions.
use vstd::prelude::*;

use crate::collections::KeyMap;
use crate::json::{Json, JsonV};

verus! {

/// Registry of item definitions (JSON), by id.
///
/// Duplicate IDs resolve by later registration winning (mod overrides
/// engine default).
pub struct ItemRegistry {
    items: KeyMap<String, Json>,
}

/// Why an item definition is refused: the first missing field of `id`,
/// `name`, `slot` (each must be a string).
pub open spec fn item_problem(d: JsonV) -> Option<Seq<char>> {
    match d.str_at("id"@) {
        None => Some("Item definition missing required 'id' field"@),
        Some(id) => if d.str_at("name"@) is None {
            Some("Item '"@ + id + "' missing required 'name' field"@)
        } else if d.str_at("slot"@) is None {
            Some("Item '"@ + id + "' missing required 'slot' field"@)
        } else {
            None
        },
    }
}

impl ItemRegistry {
    /// The registered definitions, by id.
    pub closed spec fn items(self) -> Map<Seq<char>, Json> {
        self.items@
    }

    /// Create an empty registry.
    pub fn new() -> (r: Self)
        ensures
            r.items() == Map::<Seq<char>, Json>::empty(),
    {
        ItemRegistry { items: KeyMap::new() }
    }

    /// Register a single item definition at runtime, under its `id`.
    ///
    /// The definition must carry string fields `id`, `name` and `slot`.
    /// Duplicate IDs override previous registration.
    pub fn register_item(&mut self, definition: Json) -> (r: Result<(), String>)
        ensures
            match item_problem(definition@) {
                Some(msg) => r matches Err(e) && e@ == msg && final(self).items() == old(self).items(),
                None => r is Ok && final(self).items() == old(self).items().insert(definition@.str_at("id"@).unwrap(), definition),
            },
    {
        let id = match definition.get_str("id") {
            Some(id) => id.to_string(),
            None => {
                return Err(String::from_str("Item definition missing required 'id' field"));
            },
        };
        if definition.get_str("name").is_none() {
            let mut m = String::from_str("Item '");
            m.append(id.as_str());
            m.append("' missing required 'name' field");
            return Err(m);
        }
        if definition.get_str("slot").is_none() {
            let mut m = String::from_str("Item '");
            m.append(id.as_str());
            m.append("' missing required 'slot' field");
            return Err(m);
        }
        self.items.insert(id, definition);
        Ok(())
    }

    /// Add an item definition read from the file at `source` (as a directory
    /// load does): it needs a string `id` and nothing more; a later file
    /// with the same `id` overrides an earlier one.
    pub fn add_loaded_item(&mut self, definition: Json, source: &str) -> (r: Result<(), String>)
        ensures
            match definition@.str_at("id"@) {
                None => r matches Err(e) && e@ == "Item in "@ + source@ + " missing required 'id' field"@
                    && final(self).items() == old(self).items(),
                Some(id) => r is Ok && final(self).items() == old(self).items().insert(id, definition),
            },
    {
        let id = match definition.get_str("id") {
            Some(id) => id.to_string(),
            None => {
                let mut m = String::from_str("Item in ");
                m.append(source);
                m.append(" missing required 'id' field");
                return Err(m);
            },
        };
        self.items.insert(id, definition);
        Ok(())
    }

    /// Get an item definition by ID.
    pub fn get_item(&self, id: &str) -> (r: Option<&Json>)
        ensures
            r matches Some(d) ==> self.items().contains_key(id@) && *d == self.items()[id@],
            r is None ==> !self.items().contains_key(id@),
    {
        self.items.get(&String::from_str(id))
    }

    /// List all registered item IDs.
    pub fn list_items(&self) -> (r: Vec<String>)
        ensures
            r@.len() == self.items().len(),
            forall|i: int| 0 <= i < r@.len() ==> self.items().contains_key(#[trigger] r@[i]@),
            forall|n: Seq<char>| self.items().contains_key(n) ==> exists|i: int| 0 <= i < r@.len() && #[trigger] r@[i]@ == n,
    {
        self.items.keys()
    }
}

} // verus!
