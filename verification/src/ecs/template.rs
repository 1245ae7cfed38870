//! Unit template registry for caching and looking up unit templates.
use vstd::prelude::*;

use crate::collections::KeyMap;
use crate::json::Json;

verus! {

/// A unit template defining default components for an entity archetype.
pub struct UnitTemplate {
    pub name: String,
    pub version: String,
    pub description: String,
    pub components: KeyMap<String, Json>,
}

/// Registry of unit templates, by name.
///
/// Duplicate names resolve by later registration winning (mod overrides
/// engine default).
pub struct UnitTemplateRegistry {
    templates: KeyMap<String, UnitTemplate>,
}

impl UnitTemplateRegistry {
    /// The registered templates, by name.
    pub closed spec fn templates(self) -> Map<Seq<char>, UnitTemplate> {
        self.templates@
    }

    /// Create an empty registry.
    pub fn new() -> (r: Self)
        ensures
            r.templates() == Map::<Seq<char>, UnitTemplate>::empty(),
    {
        UnitTemplateRegistry { templates: KeyMap::new() }
    }

    /// Register a single template at runtime, under its name.
    ///
    /// Duplicate names override previous registration.
    pub fn register_template(&mut self, template: UnitTemplate)
        ensures
            final(self).templates() == old(self).templates().insert(template.name@, template),
    {
        let name = template.name.clone();
        self.templates.insert(name, template);
    }

    /// Get a template by name.
    pub fn get_template(&self, name: &str) -> (r: Option<&UnitTemplate>)
        ensures
            r matches Some(t) ==> self.templates().contains_key(name@) && *t == self.templates()[name@],
            r is None ==> !self.templates().contains_key(name@),
    {
        self.templates.get(&String::from_str(name))
    }

    /// List all registered template names.
    pub fn list_templates(&self) -> (r: Vec<String>)
        ensures
            r@.len() == self.templates().len(),
            forall|i: int| 0 <= i < r@.len() ==> self.templates().contains_key(#[trigger] r@[i]@),
            forall|n: Seq<char>| self.templates().contains_key(n) ==> exists|i: int| 0 <= i < r@.len() && #[trigger] r@[i]@ == n,
    {
        self.templates.keys()
    }
}

} // verus!
