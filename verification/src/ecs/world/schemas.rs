//! Replacing a component's schema while the world runs.
use vstd::prelude::*;

use crate::ecs::registry::RegistryError;
use crate::ecs::schema::ComponentSchema;
use crate::ecs::world::World;
use crate::json::Json;

verus! {

impl<H: Fn(&Json)> World<H> {
    /// Replace (hot-reload) the schema of a component; stored values are
    /// left as they are.
    pub fn hotreload_schema(&mut self, schema: ComponentSchema) -> (r: Result<(), RegistryError>)
        ensures
            r is Ok,
            final(self).registry.schemas() == old(self).registry.schemas().insert(schema.name@, schema),
            final(self).components@ == old(self).components@,
            final(self).entities == old(self).entities,
            final(self).next_id == old(self).next_id,
            final(self).current_mode == old(self).current_mode,
    {
        self.registry.update_external_schema(schema)
    }

    /// Replace (hot-reload) the schema of a component and migrate its
    /// stored values: every value of that component becomes what `migrate`
    /// makes of it. Other components are left as they are.
    pub fn hotreload_schema_with_migration<F: Fn(&Json) -> Json>(&mut self, schema: ComponentSchema, migrate: F) -> (r: Result<(), RegistryError>)
        requires
            forall|x: &Json| #[trigger] call_requires(migrate, (x,)),
        ensures
            r is Ok,
            final(self).registry.schemas() == old(self).registry.schemas().insert(schema.name@, schema),
            final(self).components@.dom() == old(self).components@.dom(),
            forall|n: Seq<char>| n != schema.name@ ==> #[trigger] final(self).components@.get(n) == old(self).components@.get(n),
            old(self).components@.contains_key(schema.name@) ==> {
                let before = old(self).components@[schema.name@]@;
                let after = final(self).components@[schema.name@]@;
                &&& after.dom() == before.dom()
                &&& forall|e: u32| #[trigger] before.contains_key(e) ==> call_ensures(migrate, (&before[e],), after[e])
            },
            final(self).entities == old(self).entities,
            final(self).next_id == old(self).next_id,
            final(self).current_mode == old(self).current_mode,
    {
        let key = schema.name.clone();
        match self.components.remove(&key) {
            Some(mut data) => {
                let r = self.registry.update_external_schema_with_migration(schema, &mut data, migrate);
                self.components.insert(key, data);
                proof {
                    assert(self.components@.dom() =~= old(self).components@.dom());
                }
                r
            },
            None => {
                proof {
                    assert(self.components@ =~= old(self).components@);
                }
                self.registry.update_external_schema(schema)
            },
        }
    }
}

} // verus!
