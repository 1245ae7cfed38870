//! Equipment set registry for caching and looking up named loadout blueprints.
use vstd::prelude::*;

use crate::collections::KeyMap;

verus! {

/// A named loadout blueprint mapping slot names to item IDs.
pub struct EquipmentSet {
    pub name: String,
    pub version: String,
    pub description: String,
    /// Mapping of slot names to item IDs.
    pub items: KeyMap<String, String>,
}

/// The version an equipment set gets when its definition names none.
pub fn default_version() -> (r: String)
    ensures
        r@ == "1.0.0"@,
{
    String::from_str("1.0.0")
}

/// Registry for caching and looking up equipment sets.
///
/// Duplicate names resolve by later registration winning (mod overrides
/// engine default).
pub struct EquipmentSetRegistry {
    sets: KeyMap<String, EquipmentSet>,
}

impl EquipmentSetRegistry {
    /// The registered sets, by name.
    pub closed spec fn sets(self) -> Map<Seq<char>, EquipmentSet> {
        self.sets@
    }

    /// Create an empty registry.
    pub fn new() -> (r: Self)
        ensures
            r.sets() == Map::<Seq<char>, EquipmentSet>::empty(),
    {
        EquipmentSetRegistry { sets: KeyMap::new() }
    }

    /// Register a single equipment set under its name; a set of the same
    /// name is replaced.
    pub fn register_set(&mut self, set: EquipmentSet)
        ensures
            final(self).sets() == old(self).sets().insert(set.name@, set),
    {
        let name = set.name.clone();
        self.sets.insert(name, set);
    }

    /// Get an equipment set by name.
    pub fn get_set(&self, name: &str) -> (r: Option<&EquipmentSet>)
        ensures
            r matches Some(s) ==> self.sets().contains_key(name@) && *s == self.sets()[name@],
            r is None ==> !self.sets().contains_key(name@),
    {
        self.sets.get(&String::from_str(name))
    }

    /// List all registered equipment set names.
    pub fn list_sets(&self) -> (r: Vec<String>)
        ensures
            r@.len() == self.sets().len(),
            forall|i: int| 0 <= i < r@.len() ==> self.sets().contains_key(#[trigger] r@[i]@),
            forall|n: Seq<char>| self.sets().contains_key(n) ==> exists|i: int| 0 <= i < r@.len() && #[trigger] r@[i]@ == n,
            forall|i: int, j: int| 0 <= i < r@.len() && 0 <= j < r@.len() && i != j ==> r@[i]@ != r@[j]@,
    {
        self.sets.keys()
    }
}

/// A set registered last is the one found under its name: registering a set
/// and then looking its name up gives that set, whatever was registered
/// before.
pub proof fn law_register_then_get(before: EquipmentSetRegistry, after: EquipmentSetRegistry, set: EquipmentSet)
    requires
        after.sets() == before.sets().insert(set.name@, set),
    ensures
        after.sets().contains_key(set.name@),
        after.sets()[set.name@] == set,
{
}

} // verus!
