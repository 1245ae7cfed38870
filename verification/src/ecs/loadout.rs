//! Equipment checks: items referenced by templates and equipped items
//! against slot rules and the item registry.
use vstd::prelude::*;

use crate::ecs::item::ItemRegistry;
use crate::collections::KeySet;
use crate::ecs::template::UnitTemplate;
use crate::ecs::world::World;
use crate::ecs::equipment_set::EquipmentSet;
use crate::ecs::world::{drop_set, err_text, join_comma};
use crate::collections::Key;
use crate::json::{clone_items, entries_view, items_view, Json, JsonV};
use crate::json_text::schema_check;

verus! {

/// One problem with an equipped item.
pub struct EquipmentIssue {
    pub slot: String,
    pub item_id: String,
    /// One of: "unknown_slot", "item_not_registered", "slot_mismatch", "unmet_requirements"
    pub reason: String,
}

/// Warning from template-level equipment validation.
pub struct TemplateWarning {
    pub component: String,
    pub slot: String,
    pub item_id: String,
    pub message: String,
}

/// The (slot, item id) pairs of an `Equipment` value's `slots` object whose
/// item id is a string, in order.
pub open spec fn equipped_pairs(entries: Seq<(Seq<char>, JsonV)>) -> Seq<(Seq<char>, Seq<char>)>
    decreases entries.len(),
{
    if entries.len() == 0 {
        Seq::empty()
    } else {
        let rest = equipped_pairs(entries.drop_last());
        match entries.last().1.as_str() {
            Some(id) => rest.push((entries.last().0, id)),
            None => rest,
        }
    }
}

/// The entries of the `slots` object of an `Equipment` value.
pub open spec fn slot_entries(equipment: JsonV) -> Seq<(Seq<char>, JsonV)> {
    match equipment.get("slots"@) {
        Some(JsonV::Object(e)) => e,
        _ => Seq::empty(),
    }
}

/// The warnings for a template's equipment: one for each equipped item id
/// that the registry does not define.
pub open spec fn template_warnings(pairs: Seq<(Seq<char>, Seq<char>)>, items: Map<Seq<char>, Json>) -> Seq<(Seq<char>, Seq<char>)>
    decreases pairs.len(),
{
    if pairs.len() == 0 {
        Seq::empty()
    } else {
        let rest = template_warnings(pairs.drop_last(), items);
        if items.contains_key(pairs.last().1) {
            rest
        } else {
            rest.push(pairs.last())
        }
    }
}

/// Validate that all item IDs referenced in a template's Equipment component
/// exist in the item registry. Returns warnings for missing items — never errors.
pub fn validate_template_equipment(template: &UnitTemplate, registry: &ItemRegistry) -> (r: Vec<TemplateWarning>)
    ensures
        ({
            let pairs = if template.components@.contains_key("Equipment"@) {
                equipped_pairs(slot_entries(template.components@["Equipment"@]@))
            } else {
                Seq::empty()
            };
            let expected = template_warnings(pairs, registry.items());
            &&& r@.len() == expected.len()
            &&& forall|i: int| 0 <= i < r@.len() ==> {
                &&& (#[trigger] r@[i]).component@ == "Equipment"@
                &&& r@[i].slot@ == expected[i].0
                &&& r@[i].item_id@ == expected[i].1
                &&& r@[i].message@ == "Item '"@ + expected[i].1 + "' not found in registry"@
            }
        }),
{
    let mut warnings: Vec<TemplateWarning> = Vec::new();
    let equipment = match template.components.get(&String::from_str("Equipment")) {
        Some(e) => e,
        None => {
            return warnings;
        },
    };
    let slots = match equipment.get("slots") {
        Some(Json::Object(s)) => s,
        _ => {
            proof {
                assert(slot_entries(equipment@) =~= Seq::<(Seq<char>, JsonV)>::empty());
            }
            return warnings;
        },
    };
    let ghost ev = entries_view(slots);
    assert(slot_entries(equipment@) == ev);
    let mut i: usize = 0;
    while i < slots.len()
        invariant
            i <= slots.len(),
            ev == entries_view(slots),
            ({
                let expected = template_warnings(equipped_pairs(ev.subrange(0, i as int)), registry.items());
                &&& warnings@.len() == expected.len()
                &&& forall|k: int| 0 <= k < warnings@.len() ==> {
                    &&& (#[trigger] warnings@[k]).component@ == "Equipment"@
                    &&& warnings@[k].slot@ == expected[k].0
                    &&& warnings@[k].item_id@ == expected[k].1
                    &&& warnings@[k].message@ == "Item '"@ + expected[k].1 + "' not found in registry"@
                }
            }),
        decreases slots.len() - i,
    {
        assert(ev.subrange(0, i + 1).drop_last() =~= ev.subrange(0, i as int));
        let (slot_name, value) = (&slots[i].0, &slots[i].1);
        match value.as_str() {
            Some(item_id) => {
                let ghost pairs = equipped_pairs(ev.subrange(0, i as int));
                assert(equipped_pairs(ev.subrange(0, i + 1)) == pairs.push((slot_name@, item_id@)));
                assert(pairs.push((slot_name@, item_id@)).drop_last() =~= pairs);
                if registry.get_item(item_id).is_none() {
                    let mut message = String::from_str("Item '");
                    message.append(item_id);
                    message.append("' not found in registry");
                    warnings.push(TemplateWarning {
                        component: String::from_str("Equipment"),
                        slot: slot_name.clone(),
                        item_id: item_id.to_string(),
                        message,
                    });
                }
            },
            None => {},
        }
        i = i + 1;
    }
    assert(ev.subrange(0, i as int) =~= ev);
    warnings
}

/// Whether an item's stat requirements are unmet: some requirement is an
/// integer above the entity's integer stat of that name.
pub open spec fn unmet_requirements(def: JsonV, stats: JsonV) -> bool {
    match def.get("requirements"@) {
        Some(JsonV::Object(reqs)) => exists|j: int| 0 <= j < reqs.len() && #[trigger] req_unmet(reqs[j], stats),
        _ => false,
    }
}

/// Whether one requirement `(stat name, minimum)` is an integer above the
/// entity's integer stat.
pub open spec fn req_unmet(req: (Seq<char>, JsonV), stats: JsonV) -> bool {
    match (req.1.as_i64(), stats.int_at(req.0)) {
        (Some(min), Some(st)) => st < min,
        _ => false,
    }
}

/// A stat requirement is unmet exactly when the entity's integer stat is
/// below the required integer minimum; a stat at or above the minimum never
/// fails it, and a requirement that is not an integer, or a stat the entity
/// lacks as an integer, is never unmet.
pub proof fn law_requirement_unmet_iff_below(req: (Seq<char>, JsonV), stats: JsonV)
    ensures
        req.1.as_i64() is Some && stats.int_at(req.0) is Some ==> (req_unmet(req, stats) <==> stats.int_at(req.0)->Some_0
            < req.1.as_i64()->Some_0),
        (req.1.as_i64() is None || stats.int_at(req.0) is None) ==> !req_unmet(req, stats),
{
}

/// The reason given for an equipped item, checked in order: `unknown_slot`
/// exactly when slots are known and this one is not; otherwise
/// `item_not_registered` exactly when the registry lacks the item; otherwise
/// `slot_mismatch` exactly when the definition names another slot; and no
/// reason for a registered item in a known, matching slot whose integer
/// requirements are all met.
pub proof fn law_issue_reason_order(slot: Seq<char>, item: Seq<char>, valid: Set<Seq<char>>, items: Map<Seq<char>, Json>, stats: JsonV)
    ensures
        (issue_reason(slot, item, valid, items, stats) == Some("unknown_slot"@)) <==> (valid.len() > 0 && !valid.contains(slot)),
        (valid.len() == 0 || valid.contains(slot)) ==> ((issue_reason(slot, item, valid, items, stats) == Some(
            "item_not_registered"@,
        )) <==> !items.contains_key(item)),
        (valid.len() == 0 || valid.contains(slot)) && items.contains_key(item) ==> ((issue_reason(slot, item, valid, items, stats)
            == Some("slot_mismatch"@)) <==> (items[item]@.str_at("slot"@) is Some && items[item]@.str_at("slot"@)->Some_0 != slot)),
        (valid.len() == 0 || valid.contains(slot)) && items.contains_key(item) && !(items[item]@.str_at("slot"@) is Some
            && items[item]@.str_at("slot"@)->Some_0 != slot) && (items[item]@.get("requirements"@) matches Some(JsonV::Object(reqs))
            ==> forall|j: int| 0 <= j < reqs.len() && (#[trigger] reqs[j]).1.as_i64() is Some && stats.int_at(reqs[j].0) is Some
            ==> stats.int_at(reqs[j].0)->Some_0 >= reqs[j].1.as_i64()->Some_0) ==> issue_reason(slot, item, valid, items, stats) is None,
{
    reveal_strlit("unknown_slot");
    reveal_strlit("item_not_registered");
    reveal_strlit("slot_mismatch");
    reveal_strlit("unmet_requirements");
    assert("unknown_slot"@ != "item_not_registered"@) by { assert("unknown_slot"@.len() != "item_not_registered"@.len()); }
    assert("unknown_slot"@ != "slot_mismatch"@) by { assert("unknown_slot"@.len() != "slot_mismatch"@.len()); }
    assert("unknown_slot"@ != "unmet_requirements"@) by { assert("unknown_slot"@.len() != "unmet_requirements"@.len()); }
    assert("item_not_registered"@ != "slot_mismatch"@) by { assert("item_not_registered"@.len() != "slot_mismatch"@.len()); }
    assert("item_not_registered"@ != "unmet_requirements"@) by { assert("item_not_registered"@[0] != "unmet_requirements"@[0]); }
    assert("slot_mismatch"@ != "unmet_requirements"@) by { assert("slot_mismatch"@.len() != "unmet_requirements"@.len()); }
    match items[item]@.get("requirements"@) {
        Some(JsonV::Object(reqs)) => {
            if unmet_requirements(items[item]@, stats) {
                let j = choose|j: int| 0 <= j < reqs.len() && #[trigger] req_unmet(reqs[j], stats);
                assert(reqs[j].1.as_i64() is Some && stats.int_at(reqs[j].0) is Some);
            }
        },
        _ => {},
    }
}

/// An equipped item that is registered, sits in a known slot and matches its
/// definition's slot is reported for unmet requirements exactly when one of
/// its integer requirements is above the entity's integer stat of that name.
pub proof fn law_unmet_requirements_reason(slot: Seq<char>, item: Seq<char>, valid: Set<Seq<char>>, items: Map<Seq<char>, Json>, stats: JsonV)
    requires
        valid.len() == 0 || valid.contains(slot),
        items.contains_key(item),
        !(items[item]@.str_at("slot"@) matches Some(s) && s != slot),
    ensures
        issue_reason(slot, item, valid, items, stats) == Some("unmet_requirements"@) <==> (
        items[item]@.get("requirements"@) matches Some(JsonV::Object(reqs)) && exists|j: int|
            0 <= j < reqs.len() && (#[trigger] reqs[j]).1.as_i64() is Some && stats.int_at(reqs[j].0) is Some
                && stats.int_at(reqs[j].0)->Some_0 < reqs[j].1.as_i64()->Some_0),
        issue_reason(slot, item, valid, items, stats) is None || issue_reason(slot, item, valid, items, stats) == Some(
            "unmet_requirements"@,
        ),
{
    match items[item]@.get("requirements"@) {
        Some(JsonV::Object(reqs)) => {
            if unmet_requirements(items[item]@, stats) {
                let j = choose|j: int| 0 <= j < reqs.len() && #[trigger] req_unmet(reqs[j], stats);
                assert(reqs[j].1.as_i64() is Some && stats.int_at(reqs[j].0) is Some);
            }
            if exists|j: int|
                0 <= j < reqs.len() && (#[trigger] reqs[j]).1.as_i64() is Some && stats.int_at(reqs[j].0) is Some
                    && stats.int_at(reqs[j].0)->Some_0 < reqs[j].1.as_i64()->Some_0 {
                let j = choose|j: int|
                    0 <= j < reqs.len() && (#[trigger] reqs[j]).1.as_i64() is Some && stats.int_at(reqs[j].0) is Some
                        && stats.int_at(reqs[j].0)->Some_0 < reqs[j].1.as_i64()->Some_0;
                assert(req_unmet(reqs[j], stats));
            }
        },
        _ => {},
    }
}

/// The reason an equipped item is invalid, if any: an unknown slot (when
/// slots are known), an unregistered item, a definition for another slot,
/// or unmet stat requirements, checked in that order.
pub open spec fn issue_reason(slot: Seq<char>, item: Seq<char>, valid: Set<Seq<char>>, items: Map<Seq<char>, Json>, stats: JsonV) -> Option<Seq<char>> {
    if valid.len() > 0 && !valid.contains(slot) {
        Some("unknown_slot"@)
    } else if !items.contains_key(item) {
        Some("item_not_registered"@)
    } else if items[item]@.str_at("slot"@) matches Some(s) && s != slot {
        Some("slot_mismatch"@)
    } else if unmet_requirements(items[item]@, stats) {
        Some("unmet_requirements"@)
    } else {
        None
    }
}

/// The issues of the equipped pairs, in order, as (slot, item, reason).
pub open spec fn issues_of(pairs: Seq<(Seq<char>, Seq<char>)>, valid: Set<Seq<char>>, items: Map<Seq<char>, Json>, stats: JsonV) -> Seq<(Seq<char>, Seq<char>, Seq<char>)>
    decreases pairs.len(),
{
    if pairs.len() == 0 {
        Seq::empty()
    } else {
        let rest = issues_of(pairs.drop_last(), valid, items, stats);
        match issue_reason(pairs.last().0, pairs.last().1, valid, items, stats) {
            Some(reason) => rest.push((pairs.last().0, pairs.last().1, reason)),
            None => rest,
        }
    }
}

/// Each equipped pair is a slot entry whose value is that item id string,
/// and distinct slot names give distinct pairs' slots.
proof fn lemma_equipped_pairs_from_entries(entries: Seq<(Seq<char>, JsonV)>)
    ensures
        forall|i: int| #![trigger equipped_pairs(entries)[i]] 0 <= i < equipped_pairs(entries).len() ==> exists|j: int| 0 <= j < entries.len()
            && (#[trigger] entries[j]).0 == equipped_pairs(entries)[i].0
            && entries[j].1 == JsonV::Str(equipped_pairs(entries)[i].1),
        (forall|j: int, k: int| 0 <= j < k < entries.len() ==> entries[j].0 != entries[k].0) ==>
            (forall|i: int, k: int| 0 <= i < k < equipped_pairs(entries).len() ==>
                equipped_pairs(entries)[i].0 != equipped_pairs(entries)[k].0),
    decreases entries.len(),
{
    if entries.len() > 0 {
        let init = entries.drop_last();
        lemma_equipped_pairs_from_entries(init);
        let rest = equipped_pairs(init);
        let p = equipped_pairs(entries);
        assert forall|i: int| #![trigger rest[i]] 0 <= i < rest.len() implies exists|j: int| 0 <= j < entries.len()
            && (#[trigger] entries[j]).0 == rest[i].0 && entries[j].1 == JsonV::Str(rest[i].1) by {
            let j = choose|j: int| 0 <= j < init.len() && init[j].0 == (#[trigger] rest[i]).0
                && init[j].1 == JsonV::Str(rest[i].1);
            assert(entries[j] == init[j]);
        }
        match entries.last().1.as_str() {
            Some(id) => {
                assert(p == rest.push((entries.last().0, id)));
                assert forall|i: int| #![trigger p[i]] 0 <= i < p.len() implies exists|j: int| 0 <= j < entries.len()
                    && (#[trigger] entries[j]).0 == p[i].0 && entries[j].1 == JsonV::Str(p[i].1) by {
                    if i == rest.len() {
                        assert(entries[entries.len() - 1] == entries.last());
                    } else {
                        assert(p[i] == rest[i]);
                    }
                }
                if forall|j: int, k: int| 0 <= j < k < entries.len() ==> entries[j].0 != entries[k].0 {
                    assert forall|i: int, k: int| 0 <= i < k < p.len() implies p[i].0 != p[k].0 by {
                        assert(p[i] == rest[i]);
                        if k == rest.len() {
                            let j = choose|j: int| 0 <= j < init.len() && init[j].0 == (#[trigger] rest[i]).0
                                && init[j].1 == JsonV::Str(rest[i].1);
                            assert(entries[j] == init[j]);
                            assert(entries[entries.len() - 1] == entries.last());
                        } else {
                            assert(p[k] == rest[k]);
                            assert forall|j: int, l: int| 0 <= j < l < init.len() implies init[j].0 != init[l].0 by {
                                assert(init[j] == entries[j] && init[l] == entries[l]);
                            }
                        }
                    }
                }
            },
            None => {
                assert(p == rest);
                if forall|j: int, k: int| 0 <= j < k < entries.len() ==> entries[j].0 != entries[k].0 {
                    assert forall|j: int, l: int| 0 <= j < l < init.len() implies init[j].0 != init[l].0 by {
                        assert(init[j] == entries[j] && init[l] == entries[l]);
                    }
                }
            },
        }
    }
}

/// Each issue names an equipped pair with one of the four reasons, and
/// distinct slots among the pairs give distinct issue slots.
proof fn lemma_issues_from_pairs(pairs: Seq<(Seq<char>, Seq<char>)>, valid: Set<Seq<char>>, items: Map<Seq<char>, Json>, stats: JsonV)
    ensures
        forall|i: int| 0 <= i < issues_of(pairs, valid, items, stats).len() ==> {
            let is = #[trigger] issues_of(pairs, valid, items, stats)[i];
            &&& exists|j: int| 0 <= j < pairs.len() && (#[trigger] pairs[j]).0 == is.0 && pairs[j].1 == is.1
            &&& (is.2 == "unknown_slot"@ || is.2 == "item_not_registered"@
                || is.2 == "slot_mismatch"@ || is.2 == "unmet_requirements"@)
        },
        (forall|j: int, k: int| 0 <= j < k < pairs.len() ==> pairs[j].0 != pairs[k].0) ==>
            (forall|i: int, k: int| 0 <= i < k < issues_of(pairs, valid, items, stats).len() ==>
                issues_of(pairs, valid, items, stats)[i].0 != issues_of(pairs, valid, items, stats)[k].0),
    decreases pairs.len(),
{
    if pairs.len() > 0 {
        let init = pairs.drop_last();
        lemma_issues_from_pairs(init, valid, items, stats);
        let rest = issues_of(init, valid, items, stats);
        let p = issues_of(pairs, valid, items, stats);
        assert forall|i: int| #![trigger rest[i]] 0 <= i < rest.len() implies exists|j: int| 0 <= j < pairs.len()
            && (#[trigger] pairs[j]).0 == rest[i].0 && pairs[j].1 == rest[i].1 by {
            let j = choose|j: int| 0 <= j < init.len() && init[j].0 == (#[trigger] rest[i]).0 && init[j].1 == rest[i].1;
            assert(pairs[j] == init[j]);
        }
        if forall|j: int, k: int| 0 <= j < k < pairs.len() ==> pairs[j].0 != pairs[k].0 {
            assert forall|j: int, l: int| 0 <= j < l < init.len() implies init[j].0 != init[l].0 by {
                assert(init[j] == pairs[j] && init[l] == pairs[l]);
            }
        }
        match issue_reason(pairs.last().0, pairs.last().1, valid, items, stats) {
            Some(reason) => {
                assert(p == rest.push((pairs.last().0, pairs.last().1, reason)));
                assert forall|i: int| 0 <= i < p.len() implies {
                    let is = #[trigger] p[i];
                    &&& exists|j: int| 0 <= j < pairs.len() && (#[trigger] pairs[j]).0 == is.0 && pairs[j].1 == is.1
                    &&& (is.2 == "unknown_slot"@ || is.2 == "item_not_registered"@
                        || is.2 == "slot_mismatch"@ || is.2 == "unmet_requirements"@)
                } by {
                    if i == rest.len() {
                        assert(pairs[pairs.len() - 1] == pairs.last());
                    } else {
                        assert(p[i] == rest[i]);
                    }
                }
                if forall|j: int, k: int| 0 <= j < k < pairs.len() ==> pairs[j].0 != pairs[k].0 {
                    assert forall|i: int, k: int| 0 <= i < k < p.len() implies p[i].0 != p[k].0 by {
                        assert(p[i] == rest[i]);
                        if k == rest.len() {
                            let j = choose|j: int| 0 <= j < init.len() && init[j].0 == (#[trigger] rest[i]).0 && init[j].1 == rest[i].1;
                            assert(pairs[j] == init[j]);
                            assert(pairs[pairs.len() - 1] == pairs.last());
                        } else {
                            assert(p[k] == rest[k]);
                        }
                    }
                }
            },
            None => {
                assert(p == rest);
            },
        }
    }
}

/// The issues that equipment validation reports: each names a slot of the
/// `slots` entries whose value is that item id string, its reason is one of
/// `unknown_slot`, `item_not_registered`, `slot_mismatch` and
/// `unmet_requirements`, and no two issues share a slot when the slot names
/// are distinct (as the keys of a parsed object are).
pub proof fn law_equipment_issues(entries: Seq<(Seq<char>, JsonV)>, valid: Set<Seq<char>>, items: Map<Seq<char>, Json>, stats: JsonV)
    ensures
        forall|i: int| 0 <= i < issues_of(equipped_pairs(entries), valid, items, stats).len() ==> {
            let is = #[trigger] issues_of(equipped_pairs(entries), valid, items, stats)[i];
            &&& exists|j: int| 0 <= j < entries.len() && (#[trigger] entries[j]).0 == is.0 && entries[j].1 == JsonV::Str(is.1)
            &&& (is.2 == "unknown_slot"@ || is.2 == "item_not_registered"@
                || is.2 == "slot_mismatch"@ || is.2 == "unmet_requirements"@)
        },
        (forall|j: int, k: int| 0 <= j < k < entries.len() ==> entries[j].0 != entries[k].0) ==>
            (forall|i: int, k: int| 0 <= i < k < issues_of(equipped_pairs(entries), valid, items, stats).len() ==>
                issues_of(equipped_pairs(entries), valid, items, stats)[i].0
                    != issues_of(equipped_pairs(entries), valid, items, stats)[k].0),
{
    let pairs = equipped_pairs(entries);
    lemma_equipped_pairs_from_entries(entries);
    lemma_issues_from_pairs(pairs, valid, items, stats);
    let iss = issues_of(pairs, valid, items, stats);
    assert forall|i: int| #![trigger iss[i]] 0 <= i < iss.len() implies exists|j: int| 0 <= j < entries.len()
        && (#[trigger] entries[j]).0 == iss[i].0 && entries[j].1 == JsonV::Str(iss[i].1) by {
        let m = choose|m: int| 0 <= m < pairs.len() && pairs[m].0 == iss[i].0 && pairs[m].1 == iss[i].1;
        assert(0 <= m < pairs.len());
        let _ = pairs[m];
    }
}

/// The `slots` entries of the entity's `Equipment` as reads see it (none
/// without one).
pub open spec fn equipment_entries<H: Fn(&Json)>(w: World<H>, entity: u32) -> Seq<(Seq<char>, JsonV)> {
    match w.gated("Equipment"@, entity) {
        Some(eq) => slot_entries(eq),
        None => Seq::empty(),
    }
}

/// The issues equipment validation reports for the entity, in order, as
/// (slot, item, reason).
pub open spec fn equipment_issues<H: Fn(&Json)>(w: World<H>, entity: u32, valid: Set<Seq<char>>) -> Seq<(Seq<char>, Seq<char>, Seq<char>)> {
    let stats = match w.gated("Stats"@, entity) {
        Some(s) => s,
        None => JsonV::Null,
    };
    issues_of(equipped_pairs(equipment_entries(w, entity)), valid, w.item_registry.items(), stats)
}

/// What equipment validation reports of an entity: nothing when it has no
/// `Equipment` or its `slots` is not an object; otherwise each issue names a
/// slot whose value is that item id as a string (so null and non-string
/// slots are never reported), its reason is one of `unknown_slot`,
/// `item_not_registered`, `slot_mismatch` and `unmet_requirements`, and no
/// two issues share a slot when the slot names are distinct (as the keys of
/// a parsed object are).
pub proof fn law_validate_equipment_issues<H: Fn(&Json)>(w: World<H>, entity: u32, valid: Set<Seq<char>>)
    ensures
        (match w.gated("Equipment"@, entity) {
            Some(eq) => !(eq.get("slots"@) matches Some(JsonV::Object(_))),
            None => true,
        }) ==> equipment_issues(w, entity, valid).len() == 0,
        forall|i: int| 0 <= i < equipment_issues(w, entity, valid).len() ==> {
            let is = #[trigger] equipment_issues(w, entity, valid)[i];
            &&& exists|j: int| 0 <= j < equipment_entries(w, entity).len()
                && (#[trigger] equipment_entries(w, entity)[j]).0 == is.0 && equipment_entries(w, entity)[j].1 == JsonV::Str(is.1)
            &&& (is.2 == "unknown_slot"@ || is.2 == "item_not_registered"@
                || is.2 == "slot_mismatch"@ || is.2 == "unmet_requirements"@)
        },
        (forall|j: int, k: int| 0 <= j < k < equipment_entries(w, entity).len() ==> equipment_entries(w, entity)[j].0
            != equipment_entries(w, entity)[k].0) ==> (forall|i: int, k: int| 0 <= i < k < equipment_issues(w, entity, valid).len()
            ==> equipment_issues(w, entity, valid)[i].0 != equipment_issues(w, entity, valid)[k].0),
{
    let stats = match w.gated("Stats"@, entity) {
        Some(s) => s,
        None => JsonV::Null,
    };
    let entries = equipment_entries(w, entity);
    law_equipment_issues(entries, valid, w.item_registry.items(), stats);
    if entries.len() == 0 {
        assert(equipped_pairs(entries).len() == 0);
        assert(issues_of(equipped_pairs(entries), valid, w.item_registry.items(), stats).len() == 0);
    }
}

/// Whether an item's requirements are unmet by the stats.
fn requirements_unmet(def: &Json, stats: &Json) -> (r: bool)
    ensures
        r == unmet_requirements(def@, stats@),
{
    match def.get("requirements") {
        Some(Json::Object(reqs)) => {
            let ghost rv = entries_view(reqs);
            let mut j: usize = 0;
            while j < reqs.len()
                invariant
                    j <= reqs.len(),
                    rv == entries_view(reqs),
                    def@.get("requirements"@) == Some(JsonV::Object(rv)),
                    forall|k: int| 0 <= k < j ==> !#[trigger] req_unmet(rv[k], stats@),
                decreases reqs.len() - j,
            {
                assert(rv[j as int] == (reqs@[j as int].0@, reqs@[j as int].1@));
                match (reqs[j].1.as_i64(), stats.get_i64(reqs[j].0.as_str())) {
                    (Some(req), Some(st)) => {
                        if st < req {
                            assert(req_unmet(rv[j as int], stats@));
                            assert(rv.len() == reqs.len());
                            assert(match def@.get("requirements"@) {
                                Some(JsonV::Object(rq)) => rq == rv,
                                _ => false,
                            });
                            return true;
                        }
                    },
                    _ => {},
                }
                j = j + 1;
            }
            false
        },
        _ => false,
    }
}

impl<H: Fn(&Json)> World<H> {
    /// Validate an entity's equipment against slot rules and the item
    /// registry; `valid_slots` lists the known slot names (none known when
    /// empty). Returns a list of issues. An empty list means valid
    /// equipment.
    pub fn validate_equipment(&self, entity: u32, valid_slots: &KeySet<String>) -> (r: Vec<EquipmentIssue>)
        ensures
            ({
                let expected = equipment_issues(*self, entity, valid_slots@);
                &&& r@.len() == expected.len()
                &&& forall|i: int| 0 <= i < r@.len() ==> {
                    &&& (#[trigger] r@[i]).slot@ == expected[i].0
                    &&& r@[i].item_id@ == expected[i].1
                    &&& r@[i].reason@ == expected[i].2
                }
            }),
    {
        let mut issues: Vec<EquipmentIssue> = Vec::new();
        let equipment = match self.get_component(entity, "Equipment") {
            Some(e) => e,
            None => {
                return issues;
            },
        };
        let slots = match equipment.get("slots") {
            Some(Json::Object(s)) => s,
            _ => {
                proof {
                    assert(slot_entries(equipment@) =~= Seq::<(Seq<char>, JsonV)>::empty());
                }
                return issues;
            },
        };
        let stats = match self.get_component(entity, "Stats") {
            Some(s) => s.deep_clone(),
            None => Json::Null,
        };
        let ghost ev = entries_view(slots);
        assert(slot_entries(equipment@) == ev);
        let ghost valid = valid_slots@;
        let ghost items = self.item_registry.items();
        let has_slots = valid_slots.len() > 0;
        let mut i: usize = 0;
        while i < slots.len()
            invariant
                i <= slots.len(),
                ev == entries_view(slots),
                valid == valid_slots@,
                has_slots == (valid.len() > 0),
                items == self.item_registry.items(),
                ({
                    let expected = issues_of(equipped_pairs(ev.subrange(0, i as int)), valid, items, stats@);
                    &&& issues@.len() == expected.len()
                    &&& forall|k: int| 0 <= k < issues@.len() ==> {
                        &&& (#[trigger] issues@[k]).slot@ == expected[k].0
                        &&& issues@[k].item_id@ == expected[k].1
                        &&& issues@[k].reason@ == expected[k].2
                    }
                }),
            decreases slots.len() - i,
        {
            assert(ev.subrange(0, i + 1).drop_last() =~= ev.subrange(0, i as int));
            let slot_name = &slots[i].0;
            match slots[i].1.as_str() {
                Some(item_id) => {
                    let ghost pairs = equipped_pairs(ev.subrange(0, i as int));
                    assert(equipped_pairs(ev.subrange(0, i + 1)) == pairs.push((slot_name@, item_id@)));
                    assert(pairs.push((slot_name@, item_id@)).drop_last() =~= pairs);
                    let reason: Option<&str> = if has_slots && !valid_slots.contains(slot_name) {
                        Some("unknown_slot")
                    } else {
                        match self.item_registry.get_item(item_id) {
                            None => Some("item_not_registered"),
                            Some(def) => {
                                let mismatch = match def.get_str("slot") {
                                    Some(s) => !crate::json::str_eq(s, slot_name.as_str()),
                                    None => false,
                                };
                                if mismatch {
                                    Some("slot_mismatch")
                                } else if requirements_unmet(def, &stats) {
                                    Some("unmet_requirements")
                                } else {
                                    None
                                }
                            },
                        }
                    };
                    match reason {
                        Some(text) => {
                            proof {
                                reveal_strlit("unknown_slot");
                                reveal_strlit("item_not_registered");
                                reveal_strlit("slot_mismatch");
                                reveal_strlit("unmet_requirements");
                            }
                            assert(issue_reason(slot_name@, item_id@, valid, items, stats@) == Some(text@));
                            issues.push(EquipmentIssue {
                                slot: slot_name.clone(),
                                item_id: item_id.to_string(),
                                reason: String::from_str(text),
                            });
                        },
                        None => {
                            assert(issue_reason(slot_name@, item_id@, valid, items, stats@) is None);
                        },
                    }
                },
                None => {},
            }
            i = i + 1;
        }
        assert(ev.subrange(0, i as int) =~= ev);
        issues
    }
}


/// The (slot, item id) pairs of an equipment set, in order.
pub open spec fn set_pairs(set: EquipmentSet) -> Seq<(Seq<char>, Seq<char>)> {
    set.items.entries().map_values(|e: (String, String)| (e.0@, e.1@))
}

/// What storing `value` as component `name` comes to in world `w`: the
/// error text, or success (see [`World::set_component`]).
pub open spec fn set_outcome<H: Fn(&Json)>(w: World<H>, name: Seq<char>, value: JsonV) -> Result<(), Seq<char>> {
    if !w.allowed(name, w.current_mode@) {
        Err("Component "@ + name + " not allowed in mode "@ + w.current_mode@)
    } else {
        match schema_check(w.registry.schemas()[name].schema@, value) {
            Err(e) => Err("Schema compile error: "@ + e),
            Ok(msgs) => if msgs.len() > 0 {
                Err("Schema validation failed: "@ + join_comma(msgs))
            } else {
                Ok(())
            },
        }
    }
}

/// An inventory with `id` appended to its `slots` array (unchanged when
/// it has none).
pub open spec fn inv_push(inv: JsonV, id: Seq<char>) -> JsonV {
    match inv.get("slots"@) {
        Some(JsonV::Array(items)) => inv.insert("slots"@, JsonV::Array(items.push(JsonV::Str(id)))),
        _ => inv,
    }
}

/// The equipment value a step starts from: the stored one, else
/// `{"slots": {}}`.
pub open spec fn equip_base(eq: Option<JsonV>) -> JsonV {
    match eq {
        Some(e) => e,
        None => JsonV::Object(Seq::empty()).insert("slots"@, JsonV::Object(Seq::empty())),
    }
}

/// An equipment value with `slot` holding `id` in its `slots` object
/// (unchanged when it has none).
pub open spec fn equip_put(eq: JsonV, slot: Seq<char>, id: Seq<char>) -> JsonV {
    match eq.get("slots"@) {
        Some(JsonV::Object(s)) => eq.insert("slots"@, JsonV::Object(s).insert(slot, JsonV::Str(id))),
        _ => eq,
    }
}

/// Whether the loadout step for `pair` fails from the state `(inv, eq)`:
/// its item is unregistered, or a store of the item, the inventory or the
/// equipment is refused.
pub open spec fn step_fails<H: Fn(&Json)>(w: World<H>, state: (JsonV, Option<JsonV>), pair: (Seq<char>, Seq<char>)) -> bool {
    let (inv, eq) = state;
    let id = pair.1;
    ||| !w.item_registry.items().contains_key(id)
    ||| set_outcome(w, "Item"@, w.item_registry.items()[id]@) is Err
    ||| set_outcome(w, "Inventory"@, inv_push(inv, id)) is Err
    ||| set_outcome(w, "Equipment"@, equip_put(equip_base(eq), pair.0, id)) is Err
}

/// Applying the pairs in order from an inventory and an equipment value:
/// the final (inventory, equipment), or the error of the first step that
/// fails. A step fails on an unregistered item, then on storing the item
/// definition, the inventory and the equipment, in that order.
pub open spec fn loadout_steps<H: Fn(&Json)>(w: World<H>, pairs: Seq<(Seq<char>, Seq<char>)>, inv0: JsonV, eq0: Option<JsonV>) -> Result<(JsonV, Option<JsonV>), Seq<char>>
    decreases pairs.len(),
{
    if pairs.len() == 0 {
        Ok((inv0, eq0))
    } else {
        match loadout_steps(w, pairs.drop_last(), inv0, eq0) {
            Err(e) => Err(e),
            Ok((inv, eq)) => {
                let slot = pairs.last().0;
                let id = pairs.last().1;
                if !w.item_registry.items().contains_key(id) {
                    Err("Item '"@ + id + "' not found in registry"@)
                } else {
                    let inv2 = inv_push(inv, id);
                    let eq2 = equip_put(equip_base(eq), slot, id);
                    match set_outcome(w, "Item"@, w.item_registry.items()[id]@) {
                        Err(e) => Err(e),
                        Ok(_) => match set_outcome(w, "Inventory"@, inv2) {
                            Err(e) => Err(e),
                            Ok(_) => match set_outcome(w, "Equipment"@, eq2) {
                                Err(e) => Err(e),
                                Ok(_) => Ok((inv2, Some(eq2))),
                            },
                        },
                    }
                }
            },
        }
    }
}

/// `after` is `before` with the first `pairs.len()` loadout steps applied:
/// one new item entity per pair carrying the item's definition, and the
/// entity's inventory and equipment as given.
pub open spec fn loadout_applied<H: Fn(&Json)>(before: World<H>, after: World<H>, entity: u32, pairs: Seq<(Seq<char>, Seq<char>)>, inv: JsonV, eq: Option<JsonV>) -> bool {
    let n = pairs.len();
    let base = before.next_entity();
    &&& after.next_entity() == base + n
    &&& after.entities@ == before.entities@ + Seq::new(n, |j: int| (base + j) as u32)
    &&& forall|name: Seq<char>, e: u32| #[trigger] after.comp(name, e) == if name == "Item"@ && base <= e < base + n {
        Some(before.item_registry.items()[pairs[e - base].1]@)
    } else if n > 0 && e == entity && name == "Inventory"@ {
        Some(inv)
    } else if n > 0 && e == entity && name == "Equipment"@ {
        eq
    } else {
        before.comp(name, e)
    }
}

proof fn lemma_loadout_sticky<H: Fn(&Json)>(w: World<H>, pairs: Seq<(Seq<char>, Seq<char>)>, inv0: JsonV, eq0: Option<JsonV>, i: int)
    requires
        0 <= i <= pairs.len(),
        loadout_steps(w, pairs.subrange(0, i), inv0, eq0) is Err,
    ensures
        loadout_steps(w, pairs, inv0, eq0) == loadout_steps(w, pairs.subrange(0, i), inv0, eq0),
    decreases pairs.len() - i,
{
    if i < pairs.len() {
        assert(pairs.subrange(0, i + 1).drop_last() =~= pairs.subrange(0, i));
        lemma_loadout_sticky(w, pairs, inv0, eq0, i + 1);
    } else {
        assert(pairs.subrange(0, i) =~= pairs);
    }
}

/// A step that fails after a run of accepted steps is the first failing
/// step.
proof fn lemma_only_failing_step<H: Fn(&Json)>(w: World<H>, ps: Seq<(Seq<char>, Seq<char>)>, inv0: JsonV, eq0: Option<JsonV>, i: int)
    requires
        0 <= i <= ps.len(),
        loadout_steps(w, ps.subrange(0, i), inv0, eq0) is Ok,
        i < ps.len() ==> loadout_steps(w, ps.subrange(0, i + 1), inv0, eq0) is Err,
    ensures
        forall|k: int| 0 <= k < ps.len() && #[trigger] loadout_steps(w, ps.subrange(0, k), inv0, eq0) is Ok
            && step_fails(w, loadout_steps(w, ps.subrange(0, k), inv0, eq0)->Ok_0, ps[k]) ==> k == i,
{
    assert forall|k: int| 0 <= k < ps.len() && #[trigger] loadout_steps(w, ps.subrange(0, k), inv0, eq0) is Ok
        && step_fails(w, loadout_steps(w, ps.subrange(0, k), inv0, eq0)->Ok_0, ps[k]) implies k == i by {
        let pk1 = ps.subrange(0, k + 1);
        assert(pk1.drop_last() =~= ps.subrange(0, k));
        assert(pk1.last() == ps[k]);
        assert(loadout_steps(w, pk1, inv0, eq0) is Err);
        if k < i {
            let pi = ps.subrange(0, i);
            assert(pi.subrange(0, k + 1) =~= pk1);
            lemma_loadout_sticky(w, pi, inv0, eq0, k + 1);
        } else if k > i {
            let pk = ps.subrange(0, k);
            assert(pk.subrange(0, i + 1) =~= ps.subrange(0, i + 1));
            lemma_loadout_sticky(w, pk, inv0, eq0, i + 1);
        }
    }
}

/// Copies of an equipment set's (slot, item id) pairs.
fn set_pairs_exec(set: &EquipmentSet) -> (r: Vec<(String, String)>)
    ensures
        r@.map_values(|e: (String, String)| (e.0@, e.1@)) == set_pairs(*set),
{
    let mut out: Vec<(String, String)> = Vec::new();
    let n = set.items.len();
    let mut i: usize = 0;
    while i < n
        invariant
            i <= n,
            n == set.items.entries().len(),
            out@.map_values(|e: (String, String)| (e.0@, e.1@)) == set_pairs(*set).subrange(0, i as int),
        decreases n - i,
    {
        let slot = set.items.key_at(i).key_clone();
        let id = set.items.value_at(i).key_clone();
        let ghost before = out@;
        let ghost pair = (slot@, id@);
        assert(set_pairs(*set)[i as int] == pair);
        out.push((slot, id));
        assert(out@.map_values(|e: (String, String)| (e.0@, e.1@)) =~= before.map_values(
            |e: (String, String)| (e.0@, e.1@),
        ).push(pair));
        assert(set_pairs(*set).subrange(0, i + 1) =~= set_pairs(*set).subrange(0, i as int).push(pair));
        i = i + 1;
    }
    assert(set_pairs(*set).subrange(0, n as int) =~= set_pairs(*set));
    out
}

/// An inventory with `id` appended to its `slots` array.
fn inv_pushed(inv: &Json, id: &str) -> (r: Json)
    ensures
        r@ == inv_push(inv@, id@),
{
    let items = match inv.get("slots") {
        Some(Json::Array(items)) => items,
        _ => {
            return inv.deep_clone();
        },
    };
    let mut list = clone_items(items);
    list.push(Json::Str(String::from_str(id)));
    assert(items_view(&list) =~= items_view(items).push(JsonV::Str(id@)));
    let mut out = inv.deep_clone();
    out.insert(String::from_str("slots"), Json::Array(list));
    out
}

/// The equipment value a step starts from (see [`equip_base`]).
fn equip_start(eq: Option<&Json>) -> (r: Json)
    ensures
        r@ == equip_base(match eq {
            Some(e) => Some(e@),
            None => None,
        }),
{
    match eq {
        Some(e) => e.deep_clone(),
        None => {
            let mut o = Json::new_object();
            o.insert(String::from_str("slots"), Json::new_object());
            o
        },
    }
}

/// An equipment value with `slot` holding `id` (see [`equip_put`]).
fn equip_with(eq: &Json, slot: &str, id: &str) -> (r: Json)
    ensures
        r@ == equip_put(eq@, slot@, id@),
{
    match eq.get("slots") {
        Some(s) => {
            if s.is_object() {
                let mut inner = s.deep_clone();
                inner.insert(String::from_str(slot), Json::Str(String::from_str(id)));
                let mut out = eq.deep_clone();
                out.insert(String::from_str("slots"), inner);
                out
            } else {
                eq.deep_clone()
            }
        },
        None => eq.deep_clone(),
    }
}

/// An inventory with its last `n` `slots` entries dropped (unchanged when
/// it has no `slots` array).
pub open spec fn inv_truncated(inv: JsonV, n: int) -> JsonV {
    match inv.get("slots"@) {
        Some(JsonV::Array(items)) => inv.insert(
            "slots"@,
            JsonV::Array(items.take(if items.len() > n { items.len() - n } else { 0 })),
        ),
        _ => inv,
    }
}

/// The slot entries with each named slot set to `null`, in order.
pub open spec fn slots_nulled(slots: Seq<(Seq<char>, JsonV)>, names: Seq<Seq<char>>) -> Seq<(Seq<char>, JsonV)>
    decreases names.len(),
{
    if names.len() == 0 {
        slots
    } else {
        crate::json::entry_insert(slots_nulled(slots, names.drop_last()), names.last(), JsonV::Null)
    }
}

/// An equipment value with each named slot set to `null` (unchanged when
/// its `slots` is not an object).
pub open spec fn equip_cleared(eq: JsonV, names: Seq<Seq<char>>) -> JsonV {
    match eq.get("slots"@) {
        Some(JsonV::Object(e)) => eq.insert("slots"@, JsonV::Object(slots_nulled(e, names))),
        _ => eq,
    }
}

/// The value a rollback stores as component `name` of `entity`, if it
/// stores one: `fix` applied to the value read after the spawned items
/// are gone, when that value passes the component's checks.
pub open spec fn rollback_store<H: Fn(&Json)>(w: World<H>, spawned: Seq<u32>, entity: u32, name: Seq<char>, fixed: spec_fn(JsonV) -> JsonV) -> Option<JsonV> {
    if spawned.contains(entity) {
        None
    } else {
        match w.gated(name, entity) {
            Some(v) => if set_outcome(w, name, fixed(v)) is Ok { Some(fixed(v)) } else { None },
            None => None,
        }
    }
}

/// `after` is `mid` once a rollback has despawned the `spawned` items,
/// dropped `n` trailing inventory entries of `entity` and set the `names`
/// slots of its equipment to `null`, each store made only when accepted.
pub open spec fn rolled_back<H: Fn(&Json)>(mid: World<H>, after: World<H>, spawned: Seq<u32>, entity: u32, n: int, names: Seq<Seq<char>>) -> bool {
    &&& after.current_mode == mid.current_mode
    &&& after.registry == mid.registry
    &&& after.next_entity() == mid.next_entity()
    &&& after.entities@ == drop_set(mid.entities@, spawned.to_set())
    &&& forall|c: Seq<char>, e: u32| #[trigger] after.comp(c, e) == {
        let inv = rollback_store(mid, spawned, entity, "Inventory"@, |v: JsonV| inv_truncated(v, n));
        let eq = rollback_store(mid, spawned, entity, "Equipment"@, |v: JsonV| equip_cleared(v, names));
        if e == entity && c == "Inventory"@ && inv is Some {
            inv
        } else if e == entity && c == "Equipment"@ && eq is Some {
            eq
        } else if spawned.contains(e) {
            None
        } else {
            mid.comp(c, e)
        }
    }
}

/// The slot names of the pairs, in order.
pub open spec fn pair_slots(pairs: Seq<(Seq<char>, Seq<char>)>) -> Seq<Seq<char>> {
    pairs.map_values(|p: (Seq<char>, Seq<char>)| p.0)
}

/// `after` is what a loadout that stopped on an unregistered item makes of
/// `before`: the steps of `done` were applied (ending with `inv` and `eq`),
/// then rolled back.
pub open spec fn loadout_undone<H: Fn(&Json)>(before: World<H>, after: World<H>, entity: u32, done: Seq<(Seq<char>, Seq<char>)>, inv: JsonV, eq: Option<JsonV>) -> bool {
    exists|mid: World<H>| #[trigger] loadout_applied(before, mid, entity, done, inv, eq)
        && mid.current_mode == before.current_mode && mid.registry == before.registry
        && rolled_back(mid, after, Seq::new(done.len(), |j: int| (before.next_entity() + j) as u32), entity,
            done.len() as int, pair_slots(done))
}

/// `after` is what a loadout that stopped because the store of the next
/// item's definition was refused makes of `before`: the steps of `done`
/// were applied, the next item entity was spawned and despawned again, then
/// the steps were rolled back.
pub open spec fn loadout_undone_item_refused<H: Fn(&Json)>(before: World<H>, after: World<H>, entity: u32, done: Seq<(Seq<char>, Seq<char>)>, inv: JsonV, eq: Option<JsonV>) -> bool {
    let k = done.len();
    let base = before.next_entity();
    exists|mid: World<H>, applied: World<H>|
        #![trigger loadout_applied(before, applied, entity, done, inv, eq), mid.registry]
        loadout_applied(before, applied, entity, done, inv, eq)
        && mid.current_mode == before.current_mode && mid.registry == before.registry
        && mid.next_entity() == base + k + 1
        && mid.entities@ == crate::ecs::world::without(applied.entities@.push((base + k) as u32), (base + k) as u32)
        && (forall|c: Seq<char>, e: u32| #[trigger] mid.comp(c, e) == if e == base + k { None } else { applied.comp(c, e) })
        && rolled_back(mid, after, Seq::new(k, |j: int| (base + j) as u32), entity, k as int, pair_slots(done))
}

/// `after` is what a loadout that stopped because the store of the
/// inventory was refused makes of `before`: the steps of `done` were
/// applied, the next item entity was spawned with the definition `def`,
/// then all of them were rolled back.
pub open spec fn loadout_undone_inventory_refused<H: Fn(&Json)>(before: World<H>, after: World<H>, entity: u32, done: Seq<(Seq<char>, Seq<char>)>, inv: JsonV, eq: Option<JsonV>, def: JsonV) -> bool {
    let k = done.len();
    let base = before.next_entity();
    exists|mid: World<H>, applied: World<H>|
        #![trigger loadout_applied(before, applied, entity, done, inv, eq), mid.registry]
        loadout_applied(before, applied, entity, done, inv, eq)
        && mid.current_mode == before.current_mode && mid.registry == before.registry
        && mid.next_entity() == base + k + 1
        && mid.entities@ == applied.entities@.push((base + k) as u32)
        && (forall|c: Seq<char>, e: u32| #[trigger] mid.comp(c, e) == if c == "Item"@ && e == base + k { Some(def) } else { applied.comp(c, e) })
        && rolled_back(mid, after, Seq::new(k + 1, |j: int| (base + j) as u32), entity, k as int, pair_slots(done))
}

/// `after` is what a loadout that stopped because the store of the
/// equipment was refused makes of `before`: the steps of `done` were
/// applied, the next item entity was spawned with the definition `def` and
/// the inventory `inv2` stored, then the steps of `done` were rolled back
/// (dropping as many inventory entries as `done` has steps) and the new
/// item entity despawned.
pub open spec fn loadout_undone_equipment_refused<H: Fn(&Json)>(before: World<H>, after: World<H>, entity: u32, done: Seq<(Seq<char>, Seq<char>)>, inv: JsonV, eq: Option<JsonV>, def: JsonV, inv2: JsonV) -> bool {
    let k = done.len();
    let base = before.next_entity();
    exists|mid: World<H>, applied: World<H>|
        #![trigger loadout_applied(before, applied, entity, done, inv, eq), mid.registry]
        loadout_applied(before, applied, entity, done, inv, eq)
        && mid.current_mode == before.current_mode && mid.registry == before.registry
        && mid.next_entity() == base + k + 1
        && mid.entities@ == applied.entities@.push((base + k) as u32)
        && (forall|c: Seq<char>, e: u32| #[trigger] mid.comp(c, e) == if c == "Item"@ && e == base + k {
            Some(def)
        } else if c == "Inventory"@ && e == entity {
            Some(inv2)
        } else {
            applied.comp(c, e)
        })
        && rolled_back(mid, after, Seq::new(k + 1, |j: int| (base + j) as u32), entity, k as int, pair_slots(done))
}

/// The item ids of the pairs, as JSON strings, in order.
pub open spec fn pair_item_strs(pairs: Seq<(Seq<char>, Seq<char>)>) -> Seq<JsonV> {
    pairs.map_values(|p: (Seq<char>, Seq<char>)| JsonV::Str(p.1))
}

proof fn lemma_steps_inventory_slots<H: Fn(&Json)>(w: World<H>, pre: Seq<(Seq<char>, Seq<char>)>, inv0: JsonV, eq0: Option<JsonV>, items0: Seq<JsonV>)
    requires
        inv0.get("slots"@) == Some(JsonV::Array(items0)),
        loadout_steps(w, pre, inv0, eq0) is Ok,
    ensures
        loadout_steps(w, pre, inv0, eq0)->Ok_0.0.get("slots"@) == Some(JsonV::Array(items0 + pair_item_strs(pre))),
    decreases pre.len(),
{
    if pre.len() == 0 {
        assert(items0 + pair_item_strs(pre) =~= items0);
    } else {
        let init = pre.drop_last();
        lemma_steps_inventory_slots(w, init, inv0, eq0, items0);
        let inv = loadout_steps(w, init, inv0, eq0)->Ok_0.0;
        let id = pre.last().1;
        let items = items0 + pair_item_strs(init);
        match inv {
            JsonV::Object(en) => {
                crate::json::lemma_entry_insert_get(en, "slots"@, JsonV::Array(items.push(JsonV::Str(id))), "slots"@);
            },
            _ => {},
        }
        assert(items.push(JsonV::Str(id)) =~= items0 + pair_item_strs(pre));
    }
}

proof fn lemma_drop_set_none(a: Seq<u32>, d: Set<u32>)
    requires
        forall|i: int| 0 <= i < a.len() ==> !d.contains(#[trigger] a[i]),
    ensures
        drop_set(a, d) == a,
    decreases a.len(),
{
    if a.len() > 0 {
        assert(!d.contains(a[a.len() - 1]));
        lemma_drop_set_none(a.drop_last(), d);
        assert(a.drop_last().push(a.last()) =~= a);
    }
}

proof fn lemma_drop_set_appended(a: Seq<u32>, b: Seq<u32>, d: Set<u32>)
    requires
        forall|i: int| 0 <= i < a.len() ==> !d.contains(#[trigger] a[i]),
        forall|j: int| 0 <= j < b.len() ==> d.contains(#[trigger] b[j]),
    ensures
        drop_set(a + b, d) == a,
    decreases b.len(),
{
    if b.len() == 0 {
        assert(a + b =~= a);
        lemma_drop_set_none(a, d);
    } else {
        assert(d.contains(b[b.len() - 1]));
        assert((a + b).drop_last() =~= a + b.drop_last());
        assert((a + b).last() == b.last());
        lemma_drop_set_appended(a, b.drop_last(), d);
    }
}

/// A loadout that stops on an unregistered item leaves no trace of the
/// items it had applied: their entities are gone, the entity list is as it
/// was, and the inventory's `slots` are as they were, when the rollback's
/// inventory store is accepted.
pub proof fn law_loadout_rolls_back_on_missing_item<H: Fn(&Json)>(w0: World<H>, w2: World<H>, entity: u32, done: Seq<(Seq<char>, Seq<char>)>, inv0: JsonV, items0: Seq<JsonV>, inv: JsonV, eq: Option<JsonV>)
    requires
        entity < w0.next_entity(),
        w0.ids_below_next(),
        w0.gated("Inventory"@, entity) == Some(inv0),
        inv0.get("slots"@) == Some(JsonV::Array(items0)),
        loadout_steps(w0, done, inv0, w0.gated("Equipment"@, entity)) == Ok::<(JsonV, Option<JsonV>), Seq<char>>((inv, eq)),
        loadout_undone(w0, w2, entity, done, inv, eq),
        set_outcome(w0, "Inventory"@, inv_truncated(inv, done.len() as int)) is Ok,
    ensures
        w2.entities@ == w0.entities@,
        w2.gated("Inventory"@, entity) matches Some(v) && v.get("slots"@) == Some(JsonV::Array(items0)),
        forall|j: int, c: Seq<char>| 0 <= j < done.len() ==> #[trigger] w2.comp(c, (w0.next_entity() + j) as u32) is None,
{
    reveal_strlit("Inventory");
    reveal_strlit("Equipment");
    reveal_strlit("Item");
    assert("Inventory"@ != "Equipment"@) by {
        assert("Inventory"@[0] != "Equipment"@[0]);
    }
    assert("Inventory"@ != "Item"@) by {
        assert("Inventory"@.len() != "Item"@.len());
    }
    let k = done.len();
    let base = w0.next_entity();
    let spawned = Seq::new(k, |j: int| (base + j) as u32);
    let mid = choose|mid: World<H>| #[trigger] loadout_applied(w0, mid, entity, done, inv, eq)
        && mid.current_mode == w0.current_mode && mid.registry == w0.registry
        && rolled_back(mid, w2, spawned, entity, k as int, pair_slots(done));
    assert(mid.next_entity() == base + k);
    assert(mid.entities@ =~= w0.entities@ + spawned);
    assert(entity < base);
    assert forall|j: int| 0 <= j < k implies #[trigger] spawned[j] == base + j && spawned[j] >= base by {}
    assert(!spawned.contains(entity)) by {
        if spawned.contains(entity) {
            let j = choose|j: int| 0 <= j < spawned.len() && spawned[j] == entity;
            assert(spawned[j] >= base);
        }
    }
    // the entity list
    let d = spawned.to_set();
    assert forall|i: int| 0 <= i < w0.entities@.len() implies !d.contains(#[trigger] w0.entities@[i]) by {
        assert(w0.entities@[i] < base);
        if d.contains(w0.entities@[i]) {
            let j = choose|j: int| 0 <= j < spawned.len() && spawned[j] == w0.entities@[i];
            assert(spawned[j] >= base);
        }
    }
    assert forall|j: int| 0 <= j < spawned.len() implies d.contains(#[trigger] spawned[j]) by {}
    lemma_drop_set_appended(w0.entities@, spawned, d);
    // the inventory
    lemma_steps_inventory_slots(w0, done, inv0, w0.gated("Equipment"@, entity), items0);
    if k == 0 {
        assert(inv == inv0);
    }
    assert(mid.comp("Inventory"@, entity) == Some(inv));
    assert(mid.gated("Inventory"@, entity) == Some(inv));
    let fi = |v: JsonV| inv_truncated(v, k as int);
    assert(set_outcome(mid, "Inventory"@, fi(inv)) == set_outcome(w0, "Inventory"@, fi(inv)));
    assert(rollback_store(mid, spawned, entity, "Inventory"@, fi) == Some(fi(inv)));
    assert(w2.comp("Inventory"@, entity) == Some(fi(inv)));
    let items = items0 + pair_item_strs(done);
    assert(items.len() == items0.len() + k);
    match inv {
        JsonV::Object(en) => {
            let kept = items.take(if items.len() > k { items.len() - k } else { 0 });
            assert(kept =~= items0);
            crate::json::lemma_entry_insert_get(en, "slots"@, JsonV::Array(kept), "slots"@);
        },
        _ => {},
    }
    // the item entities
    assert forall|j: int, c: Seq<char>| 0 <= j < k implies #[trigger] w2.comp(c, (base + j) as u32) is None by {
        let e = (base + j) as u32;
        assert(spawned[j] == e);
        assert(spawned.contains(e));
    }
}

proof fn lemma_slots_nulled_get(e: Seq<(Seq<char>, JsonV)>, names: Seq<Seq<char>>, nm: Seq<char>)
    ensures
        crate::json::entry_get(slots_nulled(e, names), nm) == if names.contains(nm) {
            Some(JsonV::Null)
        } else {
            crate::json::entry_get(e, nm)
        },
    decreases names.len(),
{
    if names.len() > 0 {
        let init = names.drop_last();
        lemma_slots_nulled_get(e, init, nm);
        crate::json::lemma_entry_insert_get(slots_nulled(e, init), names.last(), JsonV::Null, nm);
        if init.contains(nm) {
            let i = choose|i: int| 0 <= i < init.len() && init[i] == nm;
            assert(names[i] == nm);
        }
        if names.contains(nm) && nm != names.last() {
            let i = choose|i: int| 0 <= i < names.len() && names[i] == nm;
            assert(i != names.len() - 1);
            assert(init[i] == nm);
        }
        if nm == names.last() {
            assert(names[names.len() - 1] == nm);
        }
    }
}

proof fn lemma_steps_equipment_slots<H: Fn(&Json)>(w: World<H>, pre: Seq<(Seq<char>, Seq<char>)>, inv0: JsonV, eq0: Option<JsonV>, s0: Seq<(Seq<char>, JsonV)>)
    requires
        equip_base(eq0).get("slots"@) == Some(JsonV::Object(s0)),
        loadout_steps(w, pre, inv0, eq0) is Ok,
        pre.len() > 0,
    ensures
        loadout_steps(w, pre, inv0, eq0)->Ok_0.1 matches Some(ev) && ev.get("slots"@) matches Some(JsonV::Object(s))
            && forall|nm: Seq<char>| !pair_slots(pre).contains(nm) ==> #[trigger] crate::json::entry_get(s, nm)
                == crate::json::entry_get(s0, nm),
    decreases pre.len(),
{
    let init = pre.drop_last();
    let eqi = loadout_steps(w, init, inv0, eq0)->Ok_0.1;
    let slot = pre.last().0;
    let id = pre.last().1;
    let base_slots = if init.len() == 0 {
        s0
    } else {
        lemma_steps_equipment_slots(w, init, inv0, eq0, s0);
        equip_base(eqi).get("slots"@)->Some_0->Object_0
    };
    if init.len() == 0 {
        assert(eqi == eq0);
    }
    assert(equip_base(eqi).get("slots"@) == Some(JsonV::Object(base_slots)));
    let nv = JsonV::Object(base_slots).insert(slot, JsonV::Str(id));
    match equip_base(eqi) {
        JsonV::Object(en) => {
            crate::json::lemma_entry_insert_get(en, "slots"@, nv, "slots"@);
        },
        _ => {},
    }
    let ev = loadout_steps(w, pre, inv0, eq0)->Ok_0.1->Some_0;
    assert(ev.get("slots"@) == Some(nv));
    let s = crate::json::entry_insert(base_slots, slot, JsonV::Str(id));
    assert forall|nm: Seq<char>| !pair_slots(pre).contains(nm) implies #[trigger] crate::json::entry_get(s, nm)
        == crate::json::entry_get(s0, nm) by {
        crate::json::lemma_entry_insert_get(base_slots, slot, JsonV::Str(id), nm);
        assert(pair_slots(pre)[pre.len() - 1] == slot);
        if init.len() > 0 {
            assert(!pair_slots(init).contains(nm)) by {
                if pair_slots(init).contains(nm) {
                    let i = choose|i: int| 0 <= i < pair_slots(init).len() && pair_slots(init)[i] == nm;
                    assert(pair_slots(pre)[i] == nm);
                }
            }
            assert(crate::json::entry_get(base_slots, nm) == crate::json::entry_get(s0, nm));
        }
    }
}

proof fn lemma_without_absent(a: Seq<u32>, x: u32)
    requires
        !a.contains(x),
    ensures
        crate::ecs::world::without(a, x) == a,
    decreases a.len(),
{
    if a.len() > 0 {
        assert(a[a.len() - 1] != x);
        assert(!a.drop_last().contains(x)) by {
            if a.drop_last().contains(x) {
                let i = choose|i: int| 0 <= i < a.drop_last().len() && a.drop_last()[i] == x;
                assert(a[i] == x);
            }
        }
        lemma_without_absent(a.drop_last(), x);
        assert(a.drop_last().push(a.last()) =~= a);
    }
}

/// After a rollback whose inventory store is accepted, the inventory's
/// `slots` hold what they held before the `k` steps pushed their items.
proof fn lemma_rollback_inventory<H: Fn(&Json)>(w0: World<H>, mid: World<H>, w2: World<H>, entity: u32, spawned: Seq<u32>, done: Seq<(Seq<char>, Seq<char>)>, inv: JsonV, items0: Seq<JsonV>)
    requires
        mid.current_mode == w0.current_mode,
        mid.registry == w0.registry,
        mid.gated("Inventory"@, entity) == Some(inv),
        !spawned.contains(entity),
        rolled_back(mid, w2, spawned, entity, done.len() as int, pair_slots(done)),
        set_outcome(w0, "Inventory"@, inv_truncated(inv, done.len() as int)) is Ok,
        inv.get("slots"@) == Some(JsonV::Array(items0 + pair_item_strs(done))),
    ensures
        w2.gated("Inventory"@, entity) matches Some(v) && v.get("slots"@) == Some(JsonV::Array(items0)),
{
    let k = done.len();
    let fi = |v: JsonV| inv_truncated(v, k as int);
    assert(set_outcome(mid, "Inventory"@, fi(inv)) == set_outcome(w0, "Inventory"@, fi(inv)));
    assert(rollback_store(mid, spawned, entity, "Inventory"@, fi) == Some(fi(inv)));
    assert(w2.comp("Inventory"@, entity) == Some(fi(inv)));
    let items = items0 + pair_item_strs(done);
    assert(items.len() == items0.len() + k);
    match inv {
        JsonV::Object(en) => {
            let kept = items.take(if items.len() > k { items.len() - k } else { 0 });
            assert(kept =~= items0);
            crate::json::lemma_entry_insert_get(en, "slots"@, JsonV::Array(kept), "slots"@);
        },
        _ => {},
    }
}

/// A loadout that stops because the store of an item's definition, or of
/// the inventory, is refused leaves no trace of the items it had applied:
/// their entities are gone, the entity list is as it was, and the
/// inventory's `slots` are as they were, when the rollback's inventory store
/// is accepted.
pub proof fn law_loadout_rolls_back_on_refused_store<H: Fn(&Json)>(w0: World<H>, w2: World<H>, entity: u32, done: Seq<(Seq<char>, Seq<char>)>, inv0: JsonV, items0: Seq<JsonV>, inv: JsonV, eq: Option<JsonV>, def: JsonV)
    requires
        entity < w0.next_entity(),
        w0.ids_below_next(),
        w0.gated("Inventory"@, entity) == Some(inv0),
        inv0.get("slots"@) == Some(JsonV::Array(items0)),
        loadout_steps(w0, done, inv0, w0.gated("Equipment"@, entity)) == Ok::<(JsonV, Option<JsonV>), Seq<char>>((inv, eq)),
        loadout_undone_item_refused(w0, w2, entity, done, inv, eq) || loadout_undone_inventory_refused(w0, w2, entity, done, inv, eq, def),
        set_outcome(w0, "Inventory"@, inv_truncated(inv, done.len() as int)) is Ok,
    ensures
        w2.entities@ == w0.entities@,
        w2.gated("Inventory"@, entity) matches Some(v) && v.get("slots"@) == Some(JsonV::Array(items0)),
        forall|j: int, c: Seq<char>| 0 <= j <= done.len() ==> #[trigger] w2.comp(c, (w0.next_entity() + j) as u32) is None,
{
    reveal_strlit("Inventory");
    reveal_strlit("Item");
    assert("Inventory"@ != "Item"@) by {
        assert("Inventory"@.len() != "Item"@.len());
    }
    let k = done.len();
    let base = w0.next_entity();
    assert(entity < base);
    lemma_steps_inventory_slots(w0, done, inv0, w0.gated("Equipment"@, entity), items0);
    if k == 0 {
        assert(inv == inv0);
    }
    assert forall|i: int| 0 <= i < w0.entities@.len() implies #[trigger] w0.entities@[i] < base by {}
    if loadout_undone_item_refused(w0, w2, entity, done, inv, eq) {
        let spawned = Seq::new(k, |j: int| (base + j) as u32);
        let (mid, applied) = choose|mid: World<H>, applied: World<H>|
            #![trigger loadout_applied(w0, applied, entity, done, inv, eq), mid.registry]
            loadout_applied(w0, applied, entity, done, inv, eq)
            && mid.current_mode == w0.current_mode && mid.registry == w0.registry
            && mid.next_entity() == base + k + 1
            && mid.entities@ == crate::ecs::world::without(applied.entities@.push((base + k) as u32), (base + k) as u32)
            && (forall|c: Seq<char>, e: u32| #[trigger] mid.comp(c, e) == if e == base + k { None } else { applied.comp(c, e) })
            && rolled_back(mid, w2, spawned, entity, k as int, pair_slots(done));
        assert(applied.entities@ =~= w0.entities@ + spawned);
        let x = (base + k) as u32;
        assert(!applied.entities@.contains(x)) by {
            if applied.entities@.contains(x) {
                let i = choose|i: int| 0 <= i < applied.entities@.len() && applied.entities@[i] == x;
                if i < w0.entities@.len() {
                    assert(w0.entities@[i] < base);
                } else {
                    assert(spawned[i - w0.entities@.len()] == x);
                }
            }
        }
        assert(applied.entities@.push(x).drop_last() =~= applied.entities@);
        lemma_without_absent(applied.entities@, x);
        let d = spawned.to_set();
        assert forall|i: int| 0 <= i < w0.entities@.len() implies !d.contains(#[trigger] w0.entities@[i]) by {
            if d.contains(w0.entities@[i]) {
                let j = choose|j: int| 0 <= j < spawned.len() && spawned[j] == w0.entities@[i];
            }
        }
        assert forall|j: int| 0 <= j < spawned.len() implies d.contains(#[trigger] spawned[j]) by {}
        lemma_drop_set_appended(w0.entities@, spawned, d);
        assert(!spawned.contains(entity)) by {
            if spawned.contains(entity) {
                let j = choose|j: int| 0 <= j < spawned.len() && spawned[j] == entity;
            }
        }
        assert(mid.comp("Inventory"@, entity) == applied.comp("Inventory"@, entity));
        lemma_rollback_inventory(w0, mid, w2, entity, spawned, done, inv, items0);
        assert forall|j: int, c: Seq<char>| 0 <= j <= k implies #[trigger] w2.comp(c, (base + j) as u32) is None by {
            let e = (base + j) as u32;
            if j < k {
                assert(spawned[j] == e);
            } else {
                assert(!spawned.contains(e)) by {
                    if spawned.contains(e) {
                        let t = choose|t: int| 0 <= t < spawned.len() && spawned[t] == e;
                    }
                }
                assert(mid.comp(c, e) is None);
            }
        }
    } else {
        let spawned = Seq::new(k + 1, |j: int| (base + j) as u32);
        let (mid, applied) = choose|mid: World<H>, applied: World<H>|
            #![trigger loadout_applied(w0, applied, entity, done, inv, eq), mid.registry]
            loadout_applied(w0, applied, entity, done, inv, eq)
            && mid.current_mode == w0.current_mode && mid.registry == w0.registry
            && mid.next_entity() == base + k + 1
            && mid.entities@ == applied.entities@.push((base + k) as u32)
            && (forall|c: Seq<char>, e: u32| #[trigger] mid.comp(c, e) == if c == "Item"@ && e == base + k { Some(def) } else { applied.comp(c, e) })
            && rolled_back(mid, w2, spawned, entity, k as int, pair_slots(done));
        assert(mid.entities@ =~= w0.entities@ + spawned);
        let d = spawned.to_set();
        assert forall|i: int| 0 <= i < w0.entities@.len() implies !d.contains(#[trigger] w0.entities@[i]) by {
            if d.contains(w0.entities@[i]) {
                let j = choose|j: int| 0 <= j < spawned.len() && spawned[j] == w0.entities@[i];
            }
        }
        assert forall|j: int| 0 <= j < spawned.len() implies d.contains(#[trigger] spawned[j]) by {}
        lemma_drop_set_appended(w0.entities@, spawned, d);
        assert(!spawned.contains(entity)) by {
            if spawned.contains(entity) {
                let j = choose|j: int| 0 <= j < spawned.len() && spawned[j] == entity;
            }
        }
        assert(mid.comp("Inventory"@, entity) == applied.comp("Inventory"@, entity));
        lemma_rollback_inventory(w0, mid, w2, entity, spawned, done, inv, items0);
        assert forall|j: int, c: Seq<char>| 0 <= j <= k implies #[trigger] w2.comp(c, (base + j) as u32) is None by {
            assert(spawned[j] == (base + j) as u32);
        }
    }
}

/// After a rollback whose equipment store is accepted, the named slots hold
/// `null` and every other slot holds what it held before the steps.
proof fn lemma_rollback_equipment<H: Fn(&Json)>(w0: World<H>, mid: World<H>, w2: World<H>, entity: u32, spawned: Seq<u32>, done: Seq<(Seq<char>, Seq<char>)>, ev: JsonV, s0: Seq<(Seq<char>, JsonV)>)
    requires
        mid.current_mode == w0.current_mode,
        mid.registry == w0.registry,
        mid.gated("Equipment"@, entity) == Some(ev),
        !spawned.contains(entity),
        rolled_back(mid, w2, spawned, entity, done.len() as int, pair_slots(done)),
        set_outcome(w0, "Equipment"@, equip_cleared(ev, pair_slots(done))) is Ok,
        ev.get("slots"@) matches Some(JsonV::Object(s)) && forall|nm: Seq<char>| !pair_slots(done).contains(nm)
            ==> #[trigger] crate::json::entry_get(s, nm) == crate::json::entry_get(s0, nm),
    ensures
        w2.gated("Equipment"@, entity) matches Some(v) && v.get("slots"@) matches Some(JsonV::Object(e))
            && (forall|nm: Seq<char>| pair_slots(done).contains(nm) ==> #[trigger] crate::json::entry_get(e, nm) == Some(JsonV::Null))
            && (forall|nm: Seq<char>| !pair_slots(done).contains(nm) ==> #[trigger] crate::json::entry_get(e, nm)
                == crate::json::entry_get(s0, nm)),
{
    reveal_strlit("Inventory");
    reveal_strlit("Equipment");
    assert("Inventory"@ != "Equipment"@) by {
        assert("Inventory"@[0] != "Equipment"@[0]);
    }
    let names = pair_slots(done);
    let s = ev.get("slots"@)->Some_0->Object_0;
    let fe = |v: JsonV| equip_cleared(v, names);
    assert(set_outcome(mid, "Equipment"@, fe(ev)) == set_outcome(w0, "Equipment"@, fe(ev)));
    assert(rollback_store(mid, spawned, entity, "Equipment"@, fe) == Some(fe(ev)));
    assert(w2.comp("Equipment"@, entity) == Some(fe(ev)));
    match ev {
        JsonV::Object(en) => {
            crate::json::lemma_entry_insert_get(en, "slots"@, JsonV::Object(slots_nulled(s, names)), "slots"@);
        },
        _ => {},
    }
    assert forall|nm: Seq<char>| names.contains(nm) implies #[trigger] crate::json::entry_get(slots_nulled(s, names), nm)
        == Some(JsonV::Null) by {
        lemma_slots_nulled_get(s, names, nm);
    }
    assert forall|nm: Seq<char>| !names.contains(nm) implies #[trigger] crate::json::entry_get(slots_nulled(s, names), nm)
        == crate::json::entry_get(s0, nm) by {
        lemma_slots_nulled_get(s, names, nm);
    }
}

/// A loadout that fails after applying some steps, however it fails (an
/// unregistered item, or a refused store of an item, of the inventory or of
/// the equipment), leaves the entity's equipment with every slot that the
/// applied steps named set to `null` and every other slot as it was, when
/// the rollback's equipment store is accepted.
pub proof fn law_failed_loadout_clears_equipment<H: Fn(&Json)>(w0: World<H>, w2: World<H>, entity: u32, done: Seq<(Seq<char>, Seq<char>)>, inv0: JsonV, inv: JsonV, eq: Option<JsonV>, s0: Seq<(Seq<char>, JsonV)>, def: JsonV, inv2: JsonV)
    requires
        entity < w0.next_entity(),
        w0.gated("Inventory"@, entity) == Some(inv0),
        equip_base(w0.gated("Equipment"@, entity)).get("slots"@) == Some(JsonV::Object(s0)),
        done.len() > 0,
        loadout_steps(w0, done, inv0, w0.gated("Equipment"@, entity)) == Ok::<(JsonV, Option<JsonV>), Seq<char>>((inv, eq)),
        loadout_undone(w0, w2, entity, done, inv, eq) || loadout_undone_item_refused(w0, w2, entity, done, inv, eq)
            || loadout_undone_inventory_refused(w0, w2, entity, done, inv, eq, def)
            || loadout_undone_equipment_refused(w0, w2, entity, done, inv, eq, def, inv2),
        eq is Some ==> set_outcome(w0, "Equipment"@, equip_cleared(eq->Some_0, pair_slots(done))) is Ok,
    ensures
        w2.gated("Equipment"@, entity) matches Some(v) && v.get("slots"@) matches Some(JsonV::Object(e))
            && (forall|nm: Seq<char>| pair_slots(done).contains(nm) ==> #[trigger] crate::json::entry_get(e, nm) == Some(JsonV::Null))
            && (forall|nm: Seq<char>| !pair_slots(done).contains(nm) ==> #[trigger] crate::json::entry_get(e, nm)
                == crate::json::entry_get(s0, nm)),
{
    reveal_strlit("Inventory");
    reveal_strlit("Equipment");
    reveal_strlit("Item");
    assert("Inventory"@ != "Equipment"@) by {
        assert("Inventory"@[0] != "Equipment"@[0]);
    }
    assert("Item"@ != "Equipment"@) by {
        assert("Item"@.len() != "Equipment"@.len());
    }
    let k = done.len();
    let base = w0.next_entity();
    let names = pair_slots(done);
    lemma_steps_equipment_slots(w0, done, inv0, w0.gated("Equipment"@, entity), s0);
    let ev = eq->Some_0;
    assert(w0.allowed("Equipment"@, w0.current_mode@));
    let sp_k = Seq::new(k, |j: int| (base + j) as u32);
    let sp_k1 = Seq::new(k + 1, |j: int| (base + j) as u32);
    assert(!sp_k.contains(entity)) by {
        if sp_k.contains(entity) {
            let j = choose|j: int| 0 <= j < sp_k.len() && sp_k[j] == entity;
        }
    }
    assert(!sp_k1.contains(entity)) by {
        if sp_k1.contains(entity) {
            let j = choose|j: int| 0 <= j < sp_k1.len() && sp_k1[j] == entity;
        }
    }
    if loadout_undone(w0, w2, entity, done, inv, eq) {
        let mid = choose|mid: World<H>| #[trigger] loadout_applied(w0, mid, entity, done, inv, eq)
            && mid.current_mode == w0.current_mode && mid.registry == w0.registry
            && rolled_back(mid, w2, sp_k, entity, k as int, names);
        assert(mid.comp("Equipment"@, entity) == Some(ev));
        lemma_rollback_equipment(w0, mid, w2, entity, sp_k, done, ev, s0);
    } else if loadout_undone_item_refused(w0, w2, entity, done, inv, eq) {
        let (mid, applied) = choose|mid: World<H>, applied: World<H>|
            #![trigger loadout_applied(w0, applied, entity, done, inv, eq), mid.registry]
            loadout_applied(w0, applied, entity, done, inv, eq)
            && mid.current_mode == w0.current_mode && mid.registry == w0.registry
            && mid.next_entity() == base + k + 1
            && mid.entities@ == crate::ecs::world::without(applied.entities@.push((base + k) as u32), (base + k) as u32)
            && (forall|c: Seq<char>, e: u32| #[trigger] mid.comp(c, e) == if e == base + k { None } else { applied.comp(c, e) })
            && rolled_back(mid, w2, sp_k, entity, k as int, names);
        assert(mid.comp("Equipment"@, entity) == applied.comp("Equipment"@, entity));
        lemma_rollback_equipment(w0, mid, w2, entity, sp_k, done, ev, s0);
    } else if loadout_undone_inventory_refused(w0, w2, entity, done, inv, eq, def) {
        let (mid, applied) = choose|mid: World<H>, applied: World<H>|
            #![trigger loadout_applied(w0, applied, entity, done, inv, eq), mid.registry]
            loadout_applied(w0, applied, entity, done, inv, eq)
            && mid.current_mode == w0.current_mode && mid.registry == w0.registry
            && mid.next_entity() == base + k + 1
            && mid.entities@ == applied.entities@.push((base + k) as u32)
            && (forall|c: Seq<char>, e: u32| #[trigger] mid.comp(c, e) == if c == "Item"@ && e == base + k { Some(def) } else { applied.comp(c, e) })
            && rolled_back(mid, w2, sp_k1, entity, k as int, names);
        assert(mid.comp("Equipment"@, entity) == applied.comp("Equipment"@, entity));
        lemma_rollback_equipment(w0, mid, w2, entity, sp_k1, done, ev, s0);
    } else {
        let (mid, applied) = choose|mid: World<H>, applied: World<H>|
            #![trigger loadout_applied(w0, applied, entity, done, inv, eq), mid.registry]
            loadout_applied(w0, applied, entity, done, inv, eq)
            && mid.current_mode == w0.current_mode && mid.registry == w0.registry
            && mid.next_entity() == base + k + 1
            && mid.entities@ == applied.entities@.push((base + k) as u32)
            && (forall|c: Seq<char>, e: u32| #[trigger] mid.comp(c, e) == if c == "Item"@ && e == base + k {
                Some(def)
            } else if c == "Inventory"@ && e == entity {
                Some(inv2)
            } else {
                applied.comp(c, e)
            })
            && rolled_back(mid, w2, sp_k1, entity, k as int, names);
        assert(mid.comp("Equipment"@, entity) == applied.comp("Equipment"@, entity));
        lemma_rollback_equipment(w0, mid, w2, entity, sp_k1, done, ev, s0);
    }
}

/// An inventory with trailing entries dropped (see [`inv_truncated`]).
fn inv_truncated_exec(inv: &Json, n: usize) -> (r: Json)
    ensures
        r@ == inv_truncated(inv@, n as int),
{
    let mut out = inv.deep_clone();
    match inv.get("slots") {
        Some(Json::Array(items)) => {
            let ghost iv = crate::json::items_view(items);
            let new_len = if items.len() > n { items.len() - n } else { 0 };
            let mut kept: Vec<Json> = Vec::new();
            let mut j: usize = 0;
            while j < new_len
                invariant
                    j <= new_len,
                    new_len <= items.len(),
                    iv == crate::json::items_view(items),
                    crate::json::items_view(&kept) == iv.take(j as int),
                decreases new_len - j,
            {
                let ghost kv = crate::json::items_view(&kept);
                let x = items[j].deep_clone();
                let ghost xv = x@;
                assert(xv == iv[j as int]);
                kept.push(x);
                assert(crate::json::items_view(&kept) =~= kv.push(xv));
                assert(crate::json::items_view(&kept) =~= iv.take(j + 1));
                j = j + 1;
            }
            let ghost kept_v = crate::json::items_view(&kept);
            out.insert(String::from_str("slots"), Json::Array(kept));
            assert(kept_v == iv.take(if iv.len() > n { iv.len() - n } else { 0 }));
        },
        _ => {},
    }
    out
}

/// An equipment value with the named slots set to `null` (see
/// [`equip_cleared`]).
fn equip_cleared_exec(eq: &Json, names: &Vec<String>) -> (r: Json)
    ensures
        r@ == equip_cleared(eq@, names@.map_values(|s: String| s@)),
{
    let ghost nv = names@.map_values(|s: String| s@);
    let mut out = eq.deep_clone();
    match eq.get("slots") {
        Some(s) => {
            if let Json::Object(entries) = s {
                let ghost ev = crate::json::entries_view(entries);
                let mut inner = s.deep_clone();
                assert(inner@ == JsonV::Object(ev));
                let mut k: usize = 0;
                while k < names.len()
                    invariant
                        k <= names.len(),
                        nv == names@.map_values(|s: String| s@),
                        inner@ == JsonV::Object(slots_nulled(ev, nv.take(k as int))),
                    decreases names.len() - k,
                {
                    inner.insert(names[k].clone(), Json::Null);
                    assert(nv.take(k + 1).drop_last() =~= nv.take(k as int));
                    k = k + 1;
                }
                assert(nv.take(k as int) =~= nv);
                out.insert(String::from_str("slots"), inner);
            }
        },
        None => {},
    }
    out
}

impl<H: Fn(&Json)> World<H> {
    /// Undo a partial loadout, best effort: despawn the created item
    /// entities, drop as many trailing inventory entries as slots were
    /// equipped, and set each equipped slot to `null`; a store that fails
    /// its checks is skipped.
    fn rollback_loadout(&mut self, spawned_items: &Vec<u32>, equipped_slots: &Vec<String>, entity: u32)
        ensures
            rolled_back(*old(self), *final(self), spawned_items@, entity, equipped_slots@.len() as int,
                equipped_slots@.map_values(|s: String| s@)),
            final(self).current_mode == old(self).current_mode,
            final(self).registry == old(self).registry,
            final(self).next_entity() == old(self).next_entity(),
            final(self).next_zone() == old(self).next_zone(),
            final(self).entities@ == drop_set(old(self).entities@, spawned_items@.to_set()),
            forall|n: Seq<char>, e: u32| #[trigger] final(self).comp(n, e) == {
                let inv = rollback_store(*old(self), spawned_items@, entity, "Inventory"@,
                    |v: JsonV| inv_truncated(v, equipped_slots@.len() as int));
                let eq = rollback_store(*old(self), spawned_items@, entity, "Equipment"@,
                    |v: JsonV| equip_cleared(v, equipped_slots@.map_values(|s: String| s@)));
                if e == entity && n == "Inventory"@ && inv is Some {
                    inv
                } else if e == entity && n == "Equipment"@ && eq is Some {
                    eq
                } else if spawned_items@.contains(e) {
                    None
                } else {
                    old(self).comp(n, e)
                }
            },
    {
        let ghost w0 = *self;
        let ghost fi = |v: JsonV| inv_truncated(v, equipped_slots@.len() as int);
        let ghost fe = |v: JsonV| equip_cleared(v, equipped_slots@.map_values(|s: String| s@));
        proof {
            reveal_strlit("Inventory");
            reveal_strlit("Equipment");
            assert("Inventory"@ != "Equipment"@) by {
                assert("Inventory"@[0] != "Equipment"@[0]);
            }
        }
        self.despawn_all(spawned_items);
        let ghost w1 = *self;
        let inv = match self.get_component(entity, "Inventory") {
            Some(v) => Some(inv_truncated_exec(v, equipped_slots.len())),
            None => None,
        };
        proof {
            assert(inv matches Some(x) ==> w0.gated("Inventory"@, entity) matches Some(v0) && x@ == fi(v0) && !spawned_items@.contains(entity));
            assert(inv is None ==> rollback_store(w0, spawned_items@, entity, "Inventory"@, fi) is None);
        }
        if let Some(inv) = inv {
            let ghost iv = inv@;
            let r = self.set_component(entity, "Inventory", inv);
            proof {
                assert(set_outcome(w0, "Inventory"@, iv) is Ok <==> r is Ok);
            }
        }
        let ghost w2 = *self;
        let eq = match self.get_component(entity, "Equipment") {
            Some(v) => Some(equip_cleared_exec(v, equipped_slots)),
            None => None,
        };
        proof {
            assert(w2.comp("Equipment"@, entity) == w1.comp("Equipment"@, entity));
            assert(eq matches Some(x) ==> w0.gated("Equipment"@, entity) matches Some(v0) && x@ == fe(v0) && !spawned_items@.contains(entity));
            assert(eq is None ==> rollback_store(w0, spawned_items@, entity, "Equipment"@, fe) is None);
        }
        if let Some(eq) = eq {
            let ghost ev = eq@;
            let r = self.set_component(entity, "Equipment", eq);
            proof {
                assert(set_outcome(w0, "Equipment"@, ev) is Ok <==> r is Ok);
            }
        }
    }
}

/// The registered definition of each pair's item, when there is one.
fn item_definitions(registry: &ItemRegistry, pairs: &Vec<(String, String)>) -> (r: Vec<Option<Json>>)
    ensures
        r.len() == pairs.len(),
        forall|k: int| 0 <= k < pairs.len() ==> match #[trigger] r@[k] {
            Some(d) => registry.items().contains_key(pairs@[k].1@) && d@ == registry.items()[pairs@[k].1@]@,
            None => !registry.items().contains_key(pairs@[k].1@),
        },
{
    let mut out: Vec<Option<Json>> = Vec::new();
    let mut i: usize = 0;
    while i < pairs.len()
        invariant
            i <= pairs.len(),
            out.len() == i,
            forall|k: int| 0 <= k < i ==> match #[trigger] out@[k] {
                Some(d) => registry.items().contains_key(pairs@[k].1@) && d@ == registry.items()[pairs@[k].1@]@,
                None => !registry.items().contains_key(pairs@[k].1@),
            },
        decreases pairs.len() - i,
    {
        let d = match registry.get_item(pairs[i].1.as_str()) {
            Some(d) => Some(d.deep_clone()),
            None => None,
        };
        out.push(d);
        i = i + 1;
    }
    out
}

impl<H: Fn(&Json)> World<H> {
    /// Apply a named equipment set to an entity.
    ///
    /// For each slot→item_id in the set, in order: looks up the item in the
    /// item registry, spawns an Item entity with the item definition as its
    /// `Item` component, appends the item id to the entity's `Inventory`
    /// slots and sets the `Equipment` slot. Returns the entity id on
    /// success. When a step fails, the items created so far are despawned,
    /// trailing inventory entries are dropped and equipped slots cleared,
    /// best effort.
    #[verifier::rlimit(60)]
    pub fn apply_loadout(&mut self, entity: u32, set_name: &str) -> (r: Result<u32, String>)
        requires
            old(self).equipment_set_registry.sets().contains_key(set_name@) ==> old(self).next_entity()
                + old(self).equipment_set_registry.sets()[set_name@].items.entries().len() <= u32::MAX,
        ensures
            final(self).current_mode == old(self).current_mode,
            final(self).registry == old(self).registry,
            !old(self).equipment_set_registry.sets().contains_key(set_name@) ==> r is Err && err_text(r)@
                == "Equipment set '"@ + set_name@ + "' not found"@ && *final(self) == *old(self),
            old(self).equipment_set_registry.sets().contains_key(set_name@) && old(self).gated("Inventory"@, entity)
                is None ==> r is Err && err_text(r)@ == "Entity has no Inventory component"@ && *final(self)
                == *old(self),
            old(self).equipment_set_registry.sets().contains_key(set_name@) && old(self).gated("Inventory"@, entity)
                is Some ==> ({
                let pairs = set_pairs(old(self).equipment_set_registry.sets()[set_name@]);
                let run = loadout_steps(
                    *old(self),
                    pairs,
                    old(self).gated("Inventory"@, entity)->Some_0,
                    old(self).gated("Equipment"@, entity),
                );
                &&& (r is Ok <==> run is Ok)
                &&& (run matches Ok((inv, eq)) ==> r == Ok::<u32, String>(entity) && loadout_applied(
                    *old(self),
                    *final(self),
                    entity,
                    pairs,
                    inv,
                    eq,
                ))
                &&& (run matches Err(e) ==> err_text(r)@ == e)
                &&& forall|k: int| 0 <= k < pairs.len() && #[trigger] loadout_steps(
                    *old(self),
                    pairs.subrange(0, k),
                    old(self).gated("Inventory"@, entity)->Some_0,
                    old(self).gated("Equipment"@, entity),
                ) is Ok && !old(self).item_registry.items().contains_key(pairs[k].1) ==> loadout_undone(
                    *old(self),
                    *final(self),
                    entity,
                    pairs.subrange(0, k),
                    loadout_steps(*old(self), pairs.subrange(0, k), old(self).gated("Inventory"@, entity)->Some_0,
                        old(self).gated("Equipment"@, entity))->Ok_0.0,
                    loadout_steps(*old(self), pairs.subrange(0, k), old(self).gated("Inventory"@, entity)->Some_0,
                        old(self).gated("Equipment"@, entity))->Ok_0.1,
                )
                &&& forall|k: int| 0 <= k < pairs.len() && #[trigger] loadout_steps(
                    *old(self),
                    pairs.subrange(0, k),
                    old(self).gated("Inventory"@, entity)->Some_0,
                    old(self).gated("Equipment"@, entity),
                ) is Ok && old(self).item_registry.items().contains_key(pairs[k].1) && set_outcome(
                    *old(self),
                    "Item"@,
                    old(self).item_registry.items()[pairs[k].1]@,
                ) is Err ==> loadout_undone_item_refused(
                    *old(self),
                    *final(self),
                    entity,
                    pairs.subrange(0, k),
                    loadout_steps(*old(self), pairs.subrange(0, k), old(self).gated("Inventory"@, entity)->Some_0,
                        old(self).gated("Equipment"@, entity))->Ok_0.0,
                    loadout_steps(*old(self), pairs.subrange(0, k), old(self).gated("Inventory"@, entity)->Some_0,
                        old(self).gated("Equipment"@, entity))->Ok_0.1,
                )
                &&& forall|k: int| 0 <= k < pairs.len() && #[trigger] loadout_steps(
                    *old(self),
                    pairs.subrange(0, k),
                    old(self).gated("Inventory"@, entity)->Some_0,
                    old(self).gated("Equipment"@, entity),
                ) is Ok && old(self).item_registry.items().contains_key(pairs[k].1) && set_outcome(
                    *old(self),
                    "Item"@,
                    old(self).item_registry.items()[pairs[k].1]@,
                ) is Ok && set_outcome(
                    *old(self),
                    "Inventory"@,
                    inv_push(loadout_steps(*old(self), pairs.subrange(0, k), old(self).gated("Inventory"@, entity)->Some_0,
                        old(self).gated("Equipment"@, entity))->Ok_0.0, pairs[k].1),
                ) is Err ==> loadout_undone_inventory_refused(
                    *old(self),
                    *final(self),
                    entity,
                    pairs.subrange(0, k),
                    loadout_steps(*old(self), pairs.subrange(0, k), old(self).gated("Inventory"@, entity)->Some_0,
                        old(self).gated("Equipment"@, entity))->Ok_0.0,
                    loadout_steps(*old(self), pairs.subrange(0, k), old(self).gated("Inventory"@, entity)->Some_0,
                        old(self).gated("Equipment"@, entity))->Ok_0.1,
                    old(self).item_registry.items()[pairs[k].1]@,
                )
                &&& forall|k: int| 0 <= k < pairs.len() && #[trigger] loadout_steps(
                    *old(self),
                    pairs.subrange(0, k),
                    old(self).gated("Inventory"@, entity)->Some_0,
                    old(self).gated("Equipment"@, entity),
                ) is Ok && old(self).item_registry.items().contains_key(pairs[k].1) && set_outcome(
                    *old(self),
                    "Item"@,
                    old(self).item_registry.items()[pairs[k].1]@,
                ) is Ok && set_outcome(
                    *old(self),
                    "Inventory"@,
                    inv_push(loadout_steps(*old(self), pairs.subrange(0, k), old(self).gated("Inventory"@, entity)->Some_0,
                        old(self).gated("Equipment"@, entity))->Ok_0.0, pairs[k].1),
                ) is Ok && set_outcome(
                    *old(self),
                    "Equipment"@,
                    equip_put(equip_base(loadout_steps(*old(self), pairs.subrange(0, k), old(self).gated("Inventory"@, entity)->Some_0,
                        old(self).gated("Equipment"@, entity))->Ok_0.1), pairs[k].0, pairs[k].1),
                ) is Err ==> loadout_undone_equipment_refused(
                    *old(self),
                    *final(self),
                    entity,
                    pairs.subrange(0, k),
                    loadout_steps(*old(self), pairs.subrange(0, k), old(self).gated("Inventory"@, entity)->Some_0,
                        old(self).gated("Equipment"@, entity))->Ok_0.0,
                    loadout_steps(*old(self), pairs.subrange(0, k), old(self).gated("Inventory"@, entity)->Some_0,
                        old(self).gated("Equipment"@, entity))->Ok_0.1,
                    old(self).item_registry.items()[pairs[k].1]@,
                    inv_push(loadout_steps(*old(self), pairs.subrange(0, k), old(self).gated("Inventory"@, entity)->Some_0,
                        old(self).gated("Equipment"@, entity))->Ok_0.0, pairs[k].1),
                )
            }),
    {
        let pairs = match self.equipment_set_registry.get_set(set_name) {
            Some(set) => set_pairs_exec(set),
            None => {
                let mut m = String::from_str("Equipment set '");
                m.append(set_name);
                m.append("' not found");
                return Err(m);
            },
        };
        if self.get_component(entity, "Inventory").is_none() {
            return Err(String::from_str("Entity has no Inventory component"));
        }
        let defs = item_definitions(&self.item_registry, &pairs);
        let ghost w0 = *self;
        let ghost ps = pairs@.map_values(|e: (String, String)| (e.0@, e.1@));
        let ghost inv0 = w0.gated("Inventory"@, entity)->Some_0;
        let ghost eq0 = w0.gated("Equipment"@, entity);
        let ghost mut inv_g = inv0;
        let ghost mut eq_g = eq0;
        let mut spawned: Vec<u32> = Vec::new();
        let mut equipped: Vec<String> = Vec::new();
        let mut i: usize = 0;
        assert(ps.subrange(0, 0) =~= Seq::<(Seq<char>, Seq<char>)>::empty());
        assert(self.entities@ =~= w0.entities@ + Seq::new(0, |j: int| (w0.next_entity() + j) as u32));
        while i < pairs.len()
            invariant
                i <= pairs.len(),
                ps == pairs@.map_values(|e: (String, String)| (e.0@, e.1@)),
                w0 == *old(self),
                w0.equipment_set_registry.sets().contains_key(set_name@),
                ps == set_pairs(w0.equipment_set_registry.sets()[set_name@]),
                w0.gated("Inventory"@, entity) is Some,
                inv0 == w0.gated("Inventory"@, entity)->Some_0,
                eq0 == w0.gated("Equipment"@, entity),
                defs.len() == pairs.len(),
                forall|k: int| 0 <= k < pairs.len() ==> match #[trigger] defs@[k] {
                    Some(d) => w0.item_registry.items().contains_key(pairs@[k].1@) && d@
                        == w0.item_registry.items()[pairs@[k].1@]@,
                    None => !w0.item_registry.items().contains_key(pairs@[k].1@),
                },
                w0.next_entity() + pairs.len() <= u32::MAX,
                self.current_mode == w0.current_mode,
                self.registry == w0.registry,
                loadout_steps(w0, ps.subrange(0, i as int), inv0, eq0) == Ok::<(JsonV, Option<JsonV>), Seq<char>>(
                    (inv_g, eq_g),
                ),
                loadout_applied(w0, *self, entity, ps.subrange(0, i as int), inv_g, eq_g),
                self.gated("Inventory"@, entity) == Some(inv_g),
                self.gated("Equipment"@, entity) == eq_g,
                spawned@ == Seq::new(i as nat, |j: int| (w0.next_entity() + j) as u32),
                equipped@.map_values(|s: String| s@) == pair_slots(ps.subrange(0, i as int)),
            decreases pairs.len() - i,
        {
            proof {
                reveal_strlit("Item");
                reveal_strlit("Inventory");
                reveal_strlit("Equipment");
                assert("Item"@.len() == 4);
                assert("Inventory"@.len() == 9);
                assert("Equipment"@.len() == 9);
                assert("Inventory"@[0] != "Equipment"@[0]);
            }
            let ghost pre = ps.subrange(0, i as int);
            let ghost nxt = ps.subrange(0, i + 1);
            assert(nxt.drop_last() =~= pre);
            assert(nxt.last() == ps[i as int]);
            let slot = &pairs[i].0;
            let id = &pairs[i].1;
            let def = match &defs[i] {
                Some(d) => d.deep_clone(),
                None => {
                    proof {
                        lemma_loadout_sticky(w0, ps, inv0, eq0, i + 1);
                        lemma_only_failing_step(w0, ps, inv0, eq0, i as int);
                    }
                    let ghost mid = *self;
                    self.rollback_loadout(&spawned, &equipped, entity);
                    proof {
                        let done = ps.subrange(0, i as int);
                        assert(equipped@.map_values(|s: String| s@).len() == i);
                        assert(loadout_applied(w0, mid, entity, done, inv_g, eq_g));
                        assert(rolled_back(mid, *self, Seq::new(done.len(), |j: int| (w0.next_entity() + j) as u32), entity,
                            done.len() as int, pair_slots(done)));
                        assert(loadout_undone(w0, *self, entity, done, inv_g, eq_g));
                    }
                    let mut m = String::from_str("Item '");
                    m.append(id.as_str());
                    m.append("' not found in registry");
                    return Err(m);
                },
            };
            let ghost mid0 = *self;
            let ghost defv = def@;
            let item_eid = self.spawn_entity();
            let ghost mid1 = *self;
            match self.set_component(item_eid, "Item", def) {
                Err(e) => {
                    proof {
                        assert(set_outcome(mid1, "Item"@, defv) == set_outcome(w0, "Item"@, defv));
                        lemma_loadout_sticky(w0, ps, inv0, eq0, i + 1);
                        lemma_only_failing_step(w0, ps, inv0, eq0, i as int);
                    }
                    self.despawn_entity(item_eid);
                    self.rollback_loadout(&spawned, &equipped, entity);
                    return Err(e);
                },
                Ok(()) => {},
            }
            spawned.push(item_eid);
            let ghost mid2 = *self;
            proof {
                assert(set_outcome(mid1, "Item"@, defv) == set_outcome(w0, "Item"@, defv));
                assert(set_outcome(w0, "Item"@, defv) is Ok);
                assert(mid2.comp("Inventory"@, entity) == mid1.comp("Inventory"@, entity));
                assert(mid2.comp("Equipment"@, entity) == mid1.comp("Equipment"@, entity));
            }
            let ghost inv2 = inv_push(inv_g, id@);
            let new_inv = match self.get_component(entity, "Inventory") {
                Some(v) => Some(inv_pushed(v, id.as_str())),
                None => None,
            };
            if let Some(new_inv) = new_inv {
                match self.set_component(entity, "Inventory", new_inv) {
                    Err(e) => {
                        proof {
                            assert(set_outcome(mid2, "Inventory"@, inv2) == set_outcome(w0, "Inventory"@, inv2));
                            assert(loadout_steps(w0, nxt, inv0, eq0) == Err::<(JsonV, Option<JsonV>), Seq<char>>(e@));
                            lemma_loadout_sticky(w0, ps, inv0, eq0, i + 1);
                            lemma_only_failing_step(w0, ps, inv0, eq0, i as int);
                        }
                        let ghost mid = *self;
                        self.rollback_loadout(&spawned, &equipped, entity);
                        proof {
                            let done = ps.subrange(0, i as int);
                            let base = w0.next_entity();
                            assert(equipped@.map_values(|s: String| s@).len() == i);
                            assert(item_eid == base + i);
                            assert(spawned@ =~= Seq::new((i + 1) as nat, |j: int| (base + j) as u32));
                            assert(loadout_applied(w0, mid0, entity, done, inv_g, eq_g));
                            assert(mid.entities@ =~= mid0.entities@.push((base + i) as u32));
                            assert forall|c: Seq<char>, x: u32| #[trigger] mid.comp(c, x) == if c == "Item"@ && x == base + i {
                                Some(defv)
                            } else {
                                mid0.comp(c, x)
                            } by {
                                assert(mid1.comp(c, x) == mid0.comp(c, x));
                            }
                            assert(w0.item_registry.items()[ps[i as int].1]@ == defv);
                            assert(rolled_back(mid, *self, Seq::new((done.len() + 1) as nat, |j: int| (base + j) as u32), entity,
                                done.len() as int, pair_slots(done)));
                            assert(loadout_undone_inventory_refused(w0, *self, entity, done, inv_g, eq_g, defv));
                        }
                        return Err(e);
                    },
                    Ok(()) => {},
                }
            }
            let ghost mid3 = *self;
            proof {
                assert(set_outcome(mid2, "Inventory"@, inv2) == set_outcome(w0, "Inventory"@, inv2));
                assert(set_outcome(w0, "Inventory"@, inv2) is Ok);
                assert(mid3.comp("Equipment"@, entity) == mid2.comp("Equipment"@, entity));
            }
            let ghost eq2 = equip_put(equip_base(eq_g), slot@, id@);
            let start = equip_start(self.get_component(entity, "Equipment"));
            let new_eq = equip_with(&start, slot.as_str(), id.as_str());
            match self.set_component(entity, "Equipment", new_eq) {
                Err(e) => {
                    proof {
                        assert(set_outcome(mid3, "Equipment"@, eq2) == set_outcome(w0, "Equipment"@, eq2));
                        assert(loadout_steps(w0, nxt, inv0, eq0) == Err::<(JsonV, Option<JsonV>), Seq<char>>(e@));
                        lemma_loadout_sticky(w0, ps, inv0, eq0, i + 1);
                        lemma_only_failing_step(w0, ps, inv0, eq0, i as int);
                    }
                    let ghost mid = *self;
                    self.rollback_loadout(&spawned, &equipped, entity);
                    proof {
                        let done = ps.subrange(0, i as int);
                        let base = w0.next_entity();
                        assert(equipped@.map_values(|s: String| s@).len() == i);
                        assert(item_eid == base + i);
                        assert(spawned@ =~= Seq::new((i + 1) as nat, |j: int| (base + j) as u32));
                        assert(loadout_applied(w0, mid0, entity, done, inv_g, eq_g));
                        assert(mid.entities@ =~= mid0.entities@.push((base + i) as u32));
                        assert forall|c: Seq<char>, x: u32| #[trigger] mid.comp(c, x) == if c == "Item"@ && x == base + i {
                            Some(defv)
                        } else if c == "Inventory"@ && x == entity {
                            Some(inv2)
                        } else {
                            mid0.comp(c, x)
                        } by {
                            assert(mid1.comp(c, x) == mid0.comp(c, x));
                            assert(mid3.comp(c, x) == if c == "Inventory"@ && x == entity { Some(inv2) } else { mid2.comp(c, x) });
                        }
                        assert(w0.item_registry.items()[ps[i as int].1]@ == defv);
                        assert(rolled_back(mid, *self, Seq::new((done.len() + 1) as nat, |j: int| (base + j) as u32), entity,
                            done.len() as int, pair_slots(done)));
                        assert(loadout_undone_equipment_refused(w0, *self, entity, done, inv_g, eq_g, defv, inv2));
                    }
                    return Err(e);
                },
                Ok(()) => {},
            }
            let slot_copy = slot.clone();
            let ghost old_eq = equipped@;
            equipped.push(slot_copy);
            proof {
                let nm = equipped@.map_values(|s: String| s@);
                let pre = ps.subrange(0, i + 1);
                assert(slot_copy@ == slot@);
                assert(slot@ == ps[i as int].0);
                assert(pair_slots(ps.subrange(0, i as int)).len() == i);
                assert(old_eq.map_values(|s: String| s@).len() == old_eq.len());
                assert(old_eq.len() == i);
                assert(nm.len() == pre.len());
                assert forall|j: int| 0 <= j < pre.len() implies nm[j] == pair_slots(pre)[j] by {
                    if j < i {
                        assert(equipped@[j] == old_eq[j]);
                        assert(old_eq.map_values(|s: String| s@)[j] == pair_slots(ps.subrange(0, i as int))[j]);
                    } else {
                        assert(equipped@[j] == slot_copy);
                    }
                }
                assert(equipped@.map_values(|s: String| s@) =~= pair_slots(ps.subrange(0, i + 1)));
                assert(spawned@ =~= Seq::new((i + 1) as nat, |j: int| (w0.next_entity() + j) as u32));
            }
            proof {
                assert(set_outcome(mid3, "Equipment"@, eq2) == set_outcome(w0, "Equipment"@, eq2));
                assert(loadout_steps(w0, nxt, inv0, eq0) == Ok::<(JsonV, Option<JsonV>), Seq<char>>((inv2, Some(eq2))));
                let base = w0.next_entity();
                assert(self.entities@ =~= w0.entities@ + Seq::new((i + 1) as nat, |j: int| (base + j) as u32));
                assert forall|name: Seq<char>, e: u32| #[trigger] self.comp(name, e) == if name == "Item"@ && base
                    <= e < base + nxt.len() {
                    Some(w0.item_registry.items()[nxt[e - base].1]@)
                } else if nxt.len() > 0 && e == entity && name == "Inventory"@ {
                    Some(inv2)
                } else if nxt.len() > 0 && e == entity && name == "Equipment"@ {
                    Some(eq2)
                } else {
                    w0.comp(name, e)
                } by {
                    assert(mid1.comp(name, e) == mid0.comp(name, e));
                }
                inv_g = inv2;
                eq_g = Some(eq2);
            }
            i = i + 1;
        }
        proof {
            assert(ps.subrange(0, i as int) =~= ps);
            lemma_only_failing_step(w0, ps, inv0, eq0, i as int);
        }
        Ok(entity)
    }
}

/// The slot names a slot list names: the string items of its `slots` array
/// (none without such an array).
pub open spec fn slot_names(j: JsonV) -> Set<Seq<char>> {
    match j.get("slots"@) {
        Some(JsonV::Array(items)) => Set::new(|s: Seq<char>| exists|i: int| 0 <= i < items.len() && items[i] == JsonV::Str(s)),
        _ => Set::empty(),
    }
}

/// The valid slot names of a slot list (as in `equipment_slots.json`).
pub fn valid_slots_from_json(j: &Json) -> (r: KeySet<String>)
    ensures
        r@ == slot_names(j@),
{
    let mut out: KeySet<String> = KeySet::new();
    let items = match j.get("slots") {
        Some(v) => match v.as_array() {
            Some(a) => a,
            None => {
                proof {
                    assert(out@ =~= slot_names(j@));
                }
                return out;
            },
        },
        None => {
            proof {
                assert(out@ =~= slot_names(j@));
            }
            return out;
        },
    };
    let ghost iv = items_view(items);
    let mut i: usize = 0;
    while i < items.len()
        invariant
            i <= items.len(),
            iv == items_view(items),
            iv.len() == items.len(),
            out@ == Set::new(|s: Seq<char>| exists|k: int| 0 <= k < i && iv[k] == JsonV::Str(s)),
        decreases items.len() - i,
    {
        let ghost before = out@;
        assert(iv[i as int] == items[i as int]@);
        match items[i].as_str() {
            Some(s) => {
                out.insert(s.to_string());
            },
            None => {},
        }
        proof {
            assert(out@ =~= Set::new(|s: Seq<char>| exists|k: int| 0 <= k < i + 1 && iv[k] == JsonV::Str(s))) by {
                assert forall|s: Seq<char>| (exists|k: int| 0 <= k < i + 1 && iv[k] == JsonV::Str(s)) implies out@.contains(s) by {
                    let k = choose|k: int| 0 <= k < i + 1 && iv[k] == JsonV::Str(s);
                    if k < i {
                        assert(before.contains(s));
                    }
                }
            }
        }
        i = i + 1;
    }
    proof {
        assert(out@ =~= slot_names(j@));
    }
    out
}

} // verus!
