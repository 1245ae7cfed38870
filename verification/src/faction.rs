//! Faction membership and per-faction reputation, held as components.
use vstd::prelude::*;

use crate::ecs::world::{sent_event, World};
use crate::json::{push_entry, Json, JsonV};
use crate::json_text::schema_check;

verus! {

/// The `Faction` record of a member.
pub open spec fn faction_json(faction_id: Seq<char>, role: Seq<char>, joined_tick: u32) -> JsonV {
    JsonV::Object(seq![
        ("faction_id"@, JsonV::Str(faction_id)),
        ("joined_tick"@, JsonV::Int(joined_tick as i64)),
        ("role"@, JsonV::Str(role)),
    ])
}

/// An entity joins a faction with a role, at the current turn.
pub fn set_faction<H: Fn(&Json)>(world: &mut World<H>, entity: u32, faction_id: &str, role: &str) -> (r: Result<(), String>)
    ensures
        ({
            let v = faction_json(faction_id@, role@, old(world).turn);
            &&& (r is Ok <==> old(world).allowed("Faction"@, old(world).current_mode@) && (schema_check(
                old(world).registry.schemas()["Faction"@].schema@,
                v,
            ) matches Ok(msgs) && msgs.len() == 0))
            &&& r is Err ==> *final(world) == *old(world)
            &&& r is Ok ==> final(world).entities == old(world).entities && forall|n: Seq<char>, e: u32| #[trigger] final(world).comp(n, e)
                == if n == "Faction"@ && e == entity { Some(v) } else { old(world).comp(n, e) }
        }),
{
    let joined_tick = world.turn;
    let mut e: Vec<(String, Json)> = Vec::new();
    assert(crate::json::entries_view(&e) =~= Seq::<(Seq<char>, JsonV)>::empty());
    push_entry(&mut e, "faction_id", Json::Str(String::from_str(faction_id)));
    push_entry(&mut e, "joined_tick", Json::Int(joined_tick as i64));
    push_entry(&mut e, "role", Json::Str(String::from_str(role)));
    let ghost ev = crate::json::entries_view(&e);
    assert(ev =~= seq![
        ("faction_id"@, JsonV::Str(faction_id@)),
        ("joined_tick"@, JsonV::Int(joined_tick as i64)),
        ("role"@, JsonV::Str(role@)),
    ]);
    let value = Json::Object(e);
    assert(value@ == JsonV::Object(ev));
    world.set_component(entity, "Faction", value)
}

/// The faction an entity belongs to, if its `Faction` record names one.
pub fn get_faction<H: Fn(&Json)>(world: &World<H>, entity: u32) -> (r: Option<String>)
    ensures
        match r {
            Some(f) => world.gated("Faction"@, entity) matches Some(c) && c.str_at("faction_id"@) == Some(f@),
            None => !(world.gated("Faction"@, entity) matches Some(c) && c.str_at("faction_id"@) is Some),
        },
{
    match world.get_component(entity, "Faction") {
        Some(c) => match c.get_str("faction_id") {
            Some(f) => Some(f.to_string()),
            None => None,
        },
        None => None,
    }
}

/// The `values` object of an entity's reputation record, if any.
pub open spec fn reputation_values<H: Fn(&Json)>(world: World<H>, entity: u32) -> Option<JsonV> {
    match world.gated("Reputation"@, entity) {
        Some(c) => c.get("values"@),
        None => None,
    }
}

/// An entity's standing with a faction: its integer reputation value, or 0.
pub open spec fn reputation_of<H: Fn(&Json)>(world: World<H>, entity: u32, faction_id: Seq<char>) -> i64 {
    match reputation_values(world, entity) {
        Some(v) => match v.int_at(faction_id) {
            Some(x) => x,
            None => 0,
        },
        None => 0,
    }
}

/// An integer clamped into `-100..=100`.
pub open spec fn clamp_reputation(v: int) -> i64 {
    if v < -100 {
        -100i64
    } else if v > 100 {
        100i64
    } else {
        v as i64
    }
}

/// The reputation record after a change: the old values with the faction's
/// value replaced, and the old decay rate (0.0 when none).
pub open spec fn reputation_json(values: JsonV, decay_rate: JsonV) -> JsonV {
    JsonV::Object(seq![("decay_rate"@, decay_rate), ("values"@, values)])
}

/// The `reputation_changed` event payload.
pub open spec fn reputation_event(entity: u32, faction_id: Seq<char>, old: i64, new: i64, delta: i64) -> JsonV {
    JsonV::Object(seq![
        ("delta"@, JsonV::Int(delta)),
        ("entity"@, JsonV::Int(entity as i64)),
        ("faction"@, JsonV::Str(faction_id)),
        ("new"@, JsonV::Int(new)),
        ("old"@, JsonV::Int(old)),
    ])
}

/// The values object a change starts from: the stored one when it is an
/// object, else an empty one.
pub open spec fn base_values(v: Option<JsonV>) -> JsonV {
    match v {
        Some(JsonV::Object(m)) => JsonV::Object(m),
        _ => JsonV::Object(Seq::empty()),
    }
}

/// The decay rate kept by a change.
pub open spec fn kept_decay<H: Fn(&Json)>(world: World<H>, entity: u32) -> JsonV {
    match world.gated("Reputation"@, entity) {
        Some(c) => match c.get("decay_rate"@) {
            Some(d) => d,
            None => JsonV::Float("0.0"@),
        },
        None => JsonV::Float("0.0"@),
    }
}

/// Change an entity's reputation with a faction by `delta`, clamped into
/// `-100..=100`, and announce it with a `reputation_changed` event.
pub fn modify_reputation<H: Fn(&Json)>(world: &mut World<H>, target_entity: u32, faction_id: &str, delta: i64) -> (r: Result<(), String>)
    requires
        i64::MIN <= reputation_of(*old(world), target_entity, faction_id@) + delta <= i64::MAX,
    ensures
        ({
            let old_value = reputation_of(*old(world), target_entity, faction_id@);
            let new_value = clamp_reputation(old_value + delta);
            let values = base_values(reputation_values(*old(world), target_entity)).insert(faction_id@, JsonV::Int(new_value));
            let v = reputation_json(values, kept_decay(*old(world), target_entity));
            &&& (r is Ok <==> old(world).allowed("Reputation"@, old(world).current_mode@) && (schema_check(
                old(world).registry.schemas()["Reputation"@].schema@,
                v,
            ) matches Ok(msgs) && msgs.len() == 0))
            &&& r is Err ==> *final(world) == *old(world)
            &&& r is Ok ==> {
                &&& final(world).entities == old(world).entities
                &&& final(world).current_mode == old(world).current_mode
                &&& final(world).registry == old(world).registry
                &&& forall|n: Seq<char>, e: u32| #[trigger] final(world).comp(n, e) == if n == "Reputation"@ && e == target_entity {
                    Some(v)
                } else {
                    old(world).comp(n, e)
                }
                &&& final(world).event_buses.buses().contains_key("reputation_changed"@)
                &&& final(world).event_buses.buses()["reputation_changed"@].pending().last()@ == reputation_event(
                    target_entity,
                    faction_id@,
                    old_value,
                    new_value,
                    delta,
                )
            }
        }),
{
    let old_value: i64 = match world.get_component(target_entity, "Reputation") {
        Some(c) => match c.get("values") {
            Some(v) => match v.get_i64(faction_id) {
                Some(x) => x,
                None => 0,
            },
            None => 0,
        },
        None => 0,
    };
    assert(old_value == reputation_of(*old(world), target_entity, faction_id@));
    let sum = old_value + delta;
    let new_value: i64 = if sum < -100 { -100 } else if sum > 100 { 100 } else { sum };
    let mut values = match world.get_component(target_entity, "Reputation") {
        Some(c) => match c.get("values") {
            Some(v) => if v.is_object() { v.deep_clone() } else { Json::new_object() },
            None => Json::new_object(),
        },
        None => Json::new_object(),
    };
    values.insert(String::from_str(faction_id), Json::Int(new_value));
    let decay = match world.get_component(target_entity, "Reputation") {
        Some(c) => match c.get("decay_rate") {
            Some(d) => d.deep_clone(),
            None => Json::Float(String::from_str("0.0")),
        },
        None => Json::Float(String::from_str("0.0")),
    };
    let ghost vv = values@;
    let ghost dv = decay@;
    assert(vv == base_values(reputation_values(*old(world), target_entity)).insert(faction_id@, JsonV::Int(new_value)));
    assert(dv == kept_decay(*old(world), target_entity));
    let mut e: Vec<(String, Json)> = Vec::new();
    assert(crate::json::entries_view(&e) =~= Seq::<(Seq<char>, JsonV)>::empty());
    push_entry(&mut e, "decay_rate", decay);
    push_entry(&mut e, "values", values);
    let ghost ev = crate::json::entries_view(&e);
    assert(ev =~= seq![("decay_rate"@, dv), ("values"@, vv)]);
    let record = Json::Object(e);
    assert(record@ == JsonV::Object(ev));
    assert(record@ == reputation_json(vv, dv));
    match world.set_component(target_entity, "Reputation", record) {
        Ok(()) => {},
        Err(m) => {
            return Err(m);
        },
    }
    let mut p: Vec<(String, Json)> = Vec::new();
    assert(crate::json::entries_view(&p) =~= Seq::<(Seq<char>, JsonV)>::empty());
    push_entry(&mut p, "delta", Json::Int(delta));
    push_entry(&mut p, "entity", Json::Int(target_entity as i64));
    push_entry(&mut p, "faction", Json::Str(String::from_str(faction_id)));
    push_entry(&mut p, "new", Json::Int(new_value));
    push_entry(&mut p, "old", Json::Int(old_value));
    let ghost pv = crate::json::entries_view(&p);
    assert(pv =~= seq![
        ("delta"@, JsonV::Int(delta)),
        ("entity"@, JsonV::Int(target_entity as i64)),
        ("faction"@, JsonV::Str(faction_id@)),
        ("new"@, JsonV::Int(new_value)),
        ("old"@, JsonV::Int(old_value)),
    ]);
    let payload = Json::Object(p);
    assert(payload@ == JsonV::Object(pv));
    let ghost w1 = *world;
    assert(forall|n: Seq<char>, x: u32| #[trigger] w1.comp(n, x) == if n == "Reputation"@ && x == target_entity {
        Some(reputation_json(vv, dv))
    } else {
        old(world).comp(n, x)
    });
    let _ = world.send_event("reputation_changed", payload);
    assert(world.components@ == w1.components@);
    assert(forall|n: Seq<char>, x: u32| #[trigger] world.comp(n, x) == w1.comp(n, x));
    Ok(())
}

/// An entity's reputation with a faction (0 when it has none).
pub fn get_reputation<H: Fn(&Json)>(world: &World<H>, target_entity: u32, faction_id: &str) -> (r: i64)
    ensures
        r == reputation_of(*world, target_entity, faction_id@),
{
    match world.get_component(target_entity, "Reputation") {
        Some(c) => match c.get("values") {
            Some(v) => match v.get_i64(faction_id) {
                Some(x) => x,
                None => 0,
            },
            None => 0,
        },
        None => 0,
    }
}


/// After a successful change, the entity's standing with the faction is the
/// old standing plus the change, clamped into `-100..=100`; its standing
/// with every other faction is unchanged.
pub proof fn law_reputation_after_change<H: Fn(&Json)>(before: World<H>, after: World<H>, entity: u32, faction_id: Seq<char>, delta: i64)
    requires
        i64::MIN <= reputation_of(before, entity, faction_id) + delta <= i64::MAX,
        before.allowed("Reputation"@, before.current_mode@),
        after.current_mode == before.current_mode,
        after.registry == before.registry,
        forall|n: Seq<char>, e: u32| #[trigger] after.comp(n, e) == if n == "Reputation"@ && e == entity {
            Some(reputation_json(
                base_values(reputation_values(before, entity)).insert(
                    faction_id,
                    JsonV::Int(clamp_reputation(reputation_of(before, entity, faction_id) + delta)),
                ),
                kept_decay(before, entity),
            ))
        } else {
            before.comp(n, e)
        },
    ensures
        reputation_of(after, entity, faction_id) == clamp_reputation(reputation_of(before, entity, faction_id) + delta),
        -100 <= reputation_of(after, entity, faction_id) <= 100,
        forall|g: Seq<char>| g != faction_id ==> #[trigger] reputation_of(after, entity, g) == reputation_of(before, entity, g),
{
    reveal_strlit("decay_rate");
    reveal_strlit("values");
    assert("decay_rate"@.len() == 10);
    assert("values"@.len() == 6);
    let nv = clamp_reputation(reputation_of(before, entity, faction_id) + delta);
    let base = base_values(reputation_values(before, entity));
    let values = base.insert(faction_id, JsonV::Int(nv));
    let rec = reputation_json(values, kept_decay(before, entity));
    assert(after.comp("Reputation"@, entity) == Some(rec));
    let re = seq![("decay_rate"@, kept_decay(before, entity)), ("values"@, values)];
    assert(rec == JsonV::Object(re));
    assert(re[0].0 != "values"@);
    crate::json::lemma_entry_index_at(re, "values"@, 1);
    assert(rec.get("values"@) == Some(values));
    let be = base->Object_0;
    crate::json::lemma_entry_insert_get(be, faction_id, JsonV::Int(nv), faction_id);
    assert(reputation_values(after, entity) == Some(values));
    assert forall|g: Seq<char>| g != faction_id implies #[trigger] reputation_of(after, entity, g) == reputation_of(before, entity, g) by {
        crate::json::lemma_entry_insert_get(be, faction_id, JsonV::Int(nv), g);
    }
}

} // verus!
