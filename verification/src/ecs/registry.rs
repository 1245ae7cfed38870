//! Registry of component schemas registered at runtime, by name.
use vstd::prelude::*;

use crate::collections::{KeyMap, KeySet};
use crate::ecs::schema::{schema_modes, strs_view, extract_modes, ComponentSchema};
use crate::json::{Json, JsonV};
use crate::json_text::{parse_json, parsed_json};

verus! {

/// Errors that can occur during component registry operations.
#[derive(Debug)]
pub enum RegistryError {
    /// The requested component is not registered in the registry.
    UnregisteredComponent,
    /// The component schema is invalid.
    InvalidSchema,
    /// Serialization or deserialization error, with its message.
    SerializationError(String),
}

impl RegistryError {
    /// The error's message.
    pub fn message(&self) -> (r: String)
        ensures
            self is UnregisteredComponent ==> r@ == "Component not registered"@,
            self is InvalidSchema ==> r@ == "Invalid schema"@,
            self matches RegistryError::SerializationError(m) ==> r@ == "Serialization error: "@ + m@,
    {
        match self {
            RegistryError::UnregisteredComponent => String::from_str("Component not registered"),
            RegistryError::InvalidSchema => String::from_str("Invalid schema"),
            RegistryError::SerializationError(m) => {
                let mut s = String::from_str("Serialization error: ");
                s.append(m.as_str());
                s
            },
        }
    }
}

/// Whether `mode` is among `modes`.
pub open spec fn has_mode(modes: Seq<String>, mode: Seq<char>) -> bool {
    exists|i: int| 0 <= i < modes.len() && #[trigger] modes[i]@ == mode
}

/// Registry for component schemas and metadata.
pub struct ComponentRegistry {
    external_components: KeyMap<String, ComponentSchema>,
}

impl ComponentRegistry {
    /// The registered schemas, by component name.
    pub closed spec fn schemas(self) -> Map<Seq<char>, ComponentSchema> {
        self.external_components@
    }

    /// Create a new, empty registry.
    pub fn new() -> (r: Self)
        ensures
            r.schemas() == Map::<Seq<char>, ComponentSchema>::empty(),
    {
        ComponentRegistry { external_components: KeyMap::new() }
    }

    /// Returns true if a component with the given name is registered.
    pub fn is_registered(&self, name: &str) -> (r: bool)
        ensures
            r == self.schemas().contains_key(name@),
    {
        self.get_schema_by_name(name).is_some()
    }

    /// Get the schema for a registered component type by name.
    pub fn get_schema_by_name(&self, name: &str) -> (r: Option<&ComponentSchema>)
        ensures
            r matches Some(s) ==> self.schemas().contains_key(name@) && *s == self.schemas()[name@],
            r is None ==> !self.schemas().contains_key(name@),
    {
        self.external_components.get(&String::from_str(name))
    }

    /// Return all component names registered in the registry.
    pub fn all_component_names(&self) -> (r: Vec<String>)
        ensures
            r@.len() == self.schemas().len(),
            forall|i: int| 0 <= i < r@.len() ==> self.schemas().contains_key(#[trigger] r@[i]@),
            forall|n: Seq<char>| self.schemas().contains_key(n) ==> exists|i: int| 0 <= i < r@.len() && #[trigger] r@[i]@ == n,
    {
        self.external_components.keys()
    }

    /// Register an external component schema at runtime, under its name;
    /// a schema of the same name is replaced.
    pub fn register_external_schema(&mut self, schema: ComponentSchema)
        ensures
            final(self).schemas() == old(self).schemas().insert(schema.name@, schema),
    {
        let name = schema.name.clone();
        self.external_components.insert(name, schema);
    }

    /// Register an external component schema from a JSON string at runtime:
    /// its `title` names it and its `modes` array lists its modes.
    pub fn register_external_schema_from_json(&mut self, json: &str) -> (r: Result<(), String>)
        ensures
            match parsed_json(json@) {
                Err(e) => r is Err && e_string(r)@ == e && final(self).schemas() == old(self).schemas(),
                Ok(v) => match v.str_at("title"@) {
                    None => r is Err && e_string(r)@ == "Missing 'title' in schema"@ && final(self).schemas()
                        == old(self).schemas(),
                    Some(t) => {
                        let s = final(self).schemas()[t];
                        &&& r is Ok
                        &&& final(self).schemas().dom() == old(self).schemas().dom().insert(t)
                        &&& s.name@ == t
                        &&& s.schema@ == v
                        &&& strs_view(s.modes@) == schema_modes(v)
                        &&& forall|n: Seq<char>| n != t ==> #[trigger] final(self).schemas().get(n) == old(self).schemas().get(n)
                    },
                },
            },
    {
        let v = match parse_json(json) {
            Ok(v) => v,
            Err(e) => {
                assert(parsed_json(json@) == Err::<JsonV, Seq<char>>(e@));
                return Err(e);
            },
        };
        let name = match v.get_str("title") {
            Some(t) => t.to_string(),
            None => {
                return Err(String::from_str("Missing 'title' in schema"));
            },
        };
        let modes = extract_modes(&v);
        let cs = ComponentSchema { name: name.clone(), schema: v, modes };
        self.external_components.insert(name, cs);
        Ok(())
    }

    /// Return all modes named by the registered schemas, each once.
    pub fn all_modes(&self) -> (r: KeySet<String>)
        ensures
            forall|m: Seq<char>| #[trigger] r@.contains(m) <==> exists|n: Seq<char>|
                self.schemas().contains_key(n) && has_mode(self.schemas()[n].modes@, m),
    {
        let mut out: KeySet<String> = KeySet::new();
        let n = self.external_components.len();
        let mut i: usize = 0;
        while i < n
            invariant
                i <= n,
                n == self.external_components.entries().len(),
                forall|m: Seq<char>| #[trigger] out@.contains(m) <==> exists|j: int|
                    0 <= j < i && has_mode(self.external_components.entries()[j].1.modes@, m),
            decreases n - i,
        {
            let schema = self.external_components.value_at(i);
            let mut k: usize = 0;
            while k < schema.modes.len()
                invariant
                    i < n,
                    n == self.external_components.entries().len(),
                    *schema == self.external_components.entries()[i as int].1,
                    k <= schema.modes.len(),
                    forall|m: Seq<char>| #[trigger] out@.contains(m) <==> (exists|j: int|
                        0 <= j < i && has_mode(self.external_components.entries()[j].1.modes@, m)) || (exists|q: int|
                        0 <= q < k && #[trigger] schema.modes@[q]@ == m),
                decreases schema.modes.len() - k,
            {
                out.insert(schema.modes[k].clone());
                k = k + 1;
            }
            proof {
                assert forall|m: Seq<char>| #[trigger] out@.contains(m) <==> exists|j: int|
                    0 <= j < i + 1 && has_mode(self.external_components.entries()[j].1.modes@, m) by {
                    if out@.contains(m) {
                        if exists|q: int| 0 <= q < k && #[trigger] schema.modes@[q]@ == m {
                            assert(has_mode(self.external_components.entries()[i as int].1.modes@, m));
                        }
                    }
                    if exists|j: int| 0 <= j < i + 1 && has_mode(self.external_components.entries()[j].1.modes@, m) {
                        let j = choose|j: int| 0 <= j < i + 1 && has_mode(self.external_components.entries()[j].1.modes@, m);
                        if j == i {
                            let q = choose|q: int| 0 <= q < schema.modes@.len() && #[trigger] schema.modes@[q]@ == m;
                            assert(0 <= q < k && schema.modes@[q]@ == m);
                        }
                    }
                }
            }
            i = i + 1;
        }
        proof {
            assert forall|m: Seq<char>| #[trigger] out@.contains(m) <==> exists|nm: Seq<char>|
                self.schemas().contains_key(nm) && has_mode(self.schemas()[nm].modes@, m) by {
                if out@.contains(m) {
                    let j = choose|j: int| 0 <= j < n && has_mode(self.external_components.entries()[j].1.modes@, m);
                    assert(self.schemas().contains_key(self.external_components.entries()[j].0@));
                }
                if exists|nm: Seq<char>| self.schemas().contains_key(nm) && has_mode(self.schemas()[nm].modes@, m) {
                    let nm = choose|nm: Seq<char>| self.schemas().contains_key(nm) && has_mode(self.schemas()[nm].modes@, m);
                    let j = choose|j: int| 0 <= j < n && #[trigger] self.external_components.entries()[j].0@ == nm;
                    assert(has_mode(self.external_components.entries()[j].1.modes@, m));
                }
            }
        }
        out
    }

    /// Names of the registered components whose modes include `mode`.
    pub fn components_for_mode(&self, mode: &str) -> (r: Vec<String>)
        ensures
            forall|i: int| 0 <= i < r@.len() ==> self.schemas().contains_key(#[trigger] r@[i]@) && has_mode(
                self.schemas()[r@[i]@].modes@,
                mode@,
            ),
            forall|n: Seq<char>| self.schemas().contains_key(n) && has_mode(self.schemas()[n].modes@, mode@) ==> exists|i: int|
                0 <= i < r@.len() && #[trigger] r@[i]@ == n,
            forall|i: int, j: int| 0 <= i < r@.len() && 0 <= j < r@.len() && i != j ==> r@[i]@ != r@[j]@,
    {
        let mut out: Vec<String> = Vec::new();
        let n = self.external_components.len();
        let ghost e = self.external_components.entries();
        let ghost mut src: Seq<int> = Seq::empty();
        let mut i: usize = 0;
        while i < n
            invariant
                i <= n,
                e == self.external_components.entries(),
                n == e.len(),
                crate::collections::distinct_keys(e),
                forall|k: int| 0 <= k < n ==> self.schemas().contains_key(#[trigger] e[k].0@)
                    && self.schemas()[e[k].0@] == e[k].1,
                src.len() == out@.len(),
                forall|a: int| 0 <= a < src.len() ==> 0 <= #[trigger] src[a] < i && out@[a]@ == e[src[a]].0@
                    && has_mode(e[src[a]].1.modes@, mode@),
                forall|a: int, b: int| 0 <= a < b < src.len() ==> src[a] < src[b],
                forall|j: int| 0 <= j < i && has_mode(e[j].1.modes@, mode@) ==> exists|a: int|
                    0 <= a < src.len() && #[trigger] src[a] == j,
            decreases n - i,
        {
            let schema = self.external_components.value_at(i);
            if has_mode_exec(&schema.modes, mode) {
                let key = self.external_components.key_at(i);
                out.push(key.clone());
                proof {
                    let old_src = src;
                    src = src.push(i as int);
                    assert forall|j: int| 0 <= j < i + 1 && has_mode(e[j].1.modes@, mode@) implies exists|a: int|
                        0 <= a < src.len() && #[trigger] src[a] == j by {
                        if j < i {
                            let a = choose|a: int| 0 <= a < old_src.len() && #[trigger] old_src[a] == j;
                            assert(src[a] == j);
                        } else {
                            assert(src[old_src.len() as int] == j);
                        }
                    }
                }
            }
            i = i + 1;
        }
        proof {
            assert forall|a: int| 0 <= a < out@.len() implies self.schemas().contains_key(#[trigger] out@[a]@) && has_mode(
                self.schemas()[out@[a]@].modes@,
                mode@,
            ) by {
                assert(out@[a]@ == e[src[a]].0@);
            }
            assert forall|nm: Seq<char>| self.schemas().contains_key(nm) && has_mode(self.schemas()[nm].modes@, mode@) implies exists|a: int|
                0 <= a < out@.len() && #[trigger] out@[a]@ == nm by {
                let j = choose|j: int| 0 <= j < n && #[trigger] e[j].0@ == nm;
                assert(self.schemas()[e[j].0@] == e[j].1);
                let a = choose|a: int| 0 <= a < src.len() && #[trigger] src[a] == j;
                assert(out@[a]@ == nm);
            }
            assert forall|a: int, b: int| 0 <= a < out@.len() && 0 <= b < out@.len() && a != b implies out@[a]@ != out@[b]@ by {
                if a < b {
                    assert(src[a] < src[b]);
                } else {
                    assert(src[b] < src[a]);
                }
            }
        }
        out
    }

    /// Unregister an external component schema by name.
    pub fn unregister_external_schema(&mut self, name: &str)
        ensures
            final(self).schemas() == old(self).schemas().remove(name@),
    {
        self.external_components.remove(&String::from_str(name));
    }

    /// Update (hot-reload) an external component schema by name: it is
    /// replaced if it exists and registered anew if not.
    pub fn update_external_schema(&mut self, schema: ComponentSchema) -> (r: Result<(), RegistryError>)
        ensures
            r is Ok,
            final(self).schemas() == old(self).schemas().insert(schema.name@, schema),
    {
        self.register_external_schema(schema);
        Ok(())
    }

    /// Update (hot-reload) an external component schema by name, replacing
    /// every stored value of that component with what `migrate` makes of it.
    pub fn update_external_schema_with_migration<F: Fn(&Json) -> Json>(
        &mut self,
        schema: ComponentSchema,
        component_data: &mut KeyMap<u32, Json>,
        migrate: F,
    ) -> (r: Result<(), RegistryError>)
        requires
            forall|x: &Json| #[trigger] call_requires(migrate, (x,)),
        ensures
            r is Ok,
            final(self).schemas() == old(self).schemas().insert(schema.name@, schema),
            final(component_data)@.dom() == old(component_data)@.dom(),
            forall|e: u32| #[trigger] old(component_data)@.contains_key(e) ==> call_ensures(
                migrate,
                (&old(component_data)@[e],),
                final(component_data)@[e],
            ),
    {
        let ids = component_data.keys();
        let ghost before = component_data@;
        let mut i: usize = 0;
        while i < ids.len()
            invariant
                i <= ids.len(),
                forall|x: &Json| #[trigger] call_requires(migrate, (x,)),
                component_data@.dom() == before.dom(),
                forall|j: int| 0 <= j < ids.len() ==> before.contains_key(#[trigger] ids@[j]@),
                forall|e: u32| before.contains_key(e) ==> exists|j: int| 0 <= j < ids.len() && #[trigger] ids@[j]@ == e,
                forall|a: int, b: int| 0 <= a < ids.len() && 0 <= b < ids.len() && a != b ==> ids@[a]@ != ids@[b]@,
                forall|j: int| 0 <= j < i ==> call_ensures(migrate, (&before[#[trigger] ids@[j]@],), component_data@[ids@[j]@]),
                forall|j: int| i <= j < ids.len() ==> component_data@[#[trigger] ids@[j]@] == before[ids@[j]@],
            decreases ids.len() - i,
        {
            let id = ids[i];
            let current = component_data.remove(&id);
            match current {
                Some(value) => {
                    let migrated = migrate(&value);
                    component_data.insert(id, migrated);
                    proof {
                        assert(component_data@.dom() =~= before.dom());
                    }
                },
                None => {
                    assert(false);
                },
            }
            i = i + 1;
        }
        proof {
            assert forall|e: u32| #[trigger] before.contains_key(e) implies call_ensures(migrate, (&before[e],), component_data@[e]) by {
                let j = choose|j: int| 0 <= j < ids.len() && #[trigger] ids@[j]@ == e;
                assert(call_ensures(migrate, (&before[ids@[j]@],), component_data@[ids@[j]@]));
            }
        }
        self.register_external_schema(schema);
        Ok(())
    }
}

/// Whether `mode` is among `modes`.
pub fn has_mode_exec(modes: &Vec<String>, mode: &str) -> (r: bool)
    ensures
        r == has_mode(modes@, mode@),
{
    let mut i: usize = 0;
    while i < modes.len()
        invariant
            i <= modes.len(),
            forall|j: int| 0 <= j < i ==> #[trigger] modes@[j]@ != mode@,
        decreases modes.len() - i,
    {
        if crate::json::str_eq(modes[i].as_str(), mode) {
            return true;
        }
        i = i + 1;
    }
    false
}

/// The error text of a failed result (empty for success).
pub open spec fn e_string(r: Result<(), String>) -> String {
    match r {
        Err(e) => e,
        Ok(_) => arbitrary(),
    }
}


/// A registered schema is what a lookup by its name finds; unregistering
/// it makes the name unknown again, and leaves every other component as it
/// was before the registration.
pub proof fn law_register_then_unregister(
    before: ComponentRegistry,
    registered: ComponentRegistry,
    removed: ComponentRegistry,
    schema: ComponentSchema,
)
    requires
        registered.schemas() == before.schemas().insert(schema.name@, schema),
        removed.schemas() == registered.schemas().remove(schema.name@),
    ensures
        registered.schemas().contains_key(schema.name@),
        registered.schemas()[schema.name@] == schema,
        !removed.schemas().contains_key(schema.name@),
        removed.schemas() == before.schemas().remove(schema.name@),
{
    assert(removed.schemas() =~= before.schemas().remove(schema.name@));
}

} // verus!
