//! Spawning entities from unit templates, with component overrides.
use vstd::prelude::*;

use crate::collections::Key;
use crate::ecs::loadout::set_outcome;
use crate::ecs::template::UnitTemplate;
use crate::ecs::world::{err_text, World};
use crate::json::{deep_merge, merge_json, Json, JsonV};

verus! {

/// The (component, value) entries of a template, in order.
pub open spec fn template_entries(t: UnitTemplate) -> Seq<(Seq<char>, JsonV)> {
    t.components.entries().map_values(|e: (String, Json)| (e.0@, e.1@))
}

/// A template component's value with its override, if any, deep-merged in.
pub open spec fn merged_data(name: Seq<char>, data: JsonV, overrides: Option<JsonV>) -> JsonV {
    match overrides {
        Some(ov) => match ov.get(name) {
            Some(o) => deep_merge(data, o),
            None => data,
        },
        None => data,
    }
}

/// Index of the first template entry whose store is refused in world `w`,
/// or the number of entries when none is.
pub open spec fn first_refusal<H: Fn(&Json)>(w: World<H>, comps: Seq<(Seq<char>, JsonV)>, overrides: Option<JsonV>) -> int
    decreases comps.len(),
{
    if comps.len() == 0 {
        0
    } else {
        let i = first_refusal(w, comps.drop_last(), overrides);
        if i < comps.len() - 1 {
            i
        } else if set_outcome(w, comps.last().0, merged_data(comps.last().0, comps.last().1, overrides)) is Err {
            comps.len() - 1
        } else {
            comps.len() as int
        }
    }
}

/// The value the first `j` entries leave stored under `name`: that of the
/// last of them with that name.
pub open spec fn stored_among(comps: Seq<(Seq<char>, JsonV)>, j: int, name: Seq<char>, overrides: Option<JsonV>) -> Option<JsonV>
    decreases j,
{
    if j <= 0 {
        None
    } else if comps[j - 1].0 == name {
        Some(merged_data(name, comps[j - 1].1, overrides))
    } else {
        stored_among(comps, j - 1, name, overrides)
    }
}

proof fn lemma_first_refusal_bounds<H: Fn(&Json)>(w: World<H>, comps: Seq<(Seq<char>, JsonV)>, overrides: Option<JsonV>)
    ensures
        0 <= first_refusal(w, comps, overrides) <= comps.len(),
    decreases comps.len(),
{
    if comps.len() > 0 {
        lemma_first_refusal_bounds(w, comps.drop_last(), overrides);
    }
}

/// A prefix of the entries that is all accepted extends by one entry when
/// that entry is accepted too, and otherwise stops there.
proof fn lemma_first_refusal_step<H: Fn(&Json)>(w: World<H>, comps: Seq<(Seq<char>, JsonV)>, overrides: Option<JsonV>, i: int)
    requires
        0 <= i < comps.len(),
        first_refusal(w, comps.subrange(0, i), overrides) == i,
    ensures
        first_refusal(w, comps.subrange(0, i + 1), overrides) == if set_outcome(
            w,
            comps[i].0,
            merged_data(comps[i].0, comps[i].1, overrides),
        ) is Err {
            i
        } else {
            i + 1
        },
{
    assert(comps.subrange(0, i + 1).drop_last() =~= comps.subrange(0, i));
}

/// Once the first refusal lies inside a prefix, longer prefixes keep it.
proof fn lemma_first_refusal_sticky<H: Fn(&Json)>(w: World<H>, comps: Seq<(Seq<char>, JsonV)>, overrides: Option<JsonV>, i: int)
    requires
        0 <= i <= comps.len(),
        first_refusal(w, comps.subrange(0, i), overrides) < i,
    ensures
        first_refusal(w, comps, overrides) == first_refusal(w, comps.subrange(0, i), overrides),
    decreases comps.len() - i,
{
    if i < comps.len() {
        assert(comps.subrange(0, i + 1).drop_last() =~= comps.subrange(0, i));
        lemma_first_refusal_sticky(w, comps, overrides, i + 1);
    } else {
        assert(comps.subrange(0, i) =~= comps);
    }
}

/// Copies of a template's (component, value) entries.
fn template_entries_exec(t: &UnitTemplate) -> (r: Vec<(String, Json)>)
    ensures
        r@.map_values(|e: (String, Json)| (e.0@, e.1@)) == template_entries(*t),
{
    let mut out: Vec<(String, Json)> = Vec::new();
    let n = t.components.len();
    let mut i: usize = 0;
    while i < n
        invariant
            i <= n,
            n == t.components.entries().len(),
            out@.map_values(|e: (String, Json)| (e.0@, e.1@)) == template_entries(*t).subrange(0, i as int),
        decreases n - i,
    {
        let name = t.components.key_at(i).key_clone();
        let data = t.components.value_at(i).deep_clone();
        let ghost before = out@;
        let ghost pair = (name@, data@);
        assert(template_entries(*t)[i as int] == pair);
        out.push((name, data));
        assert(out@.map_values(|e: (String, Json)| (e.0@, e.1@)) =~= before.map_values(|e: (String, Json)| (e.0@, e.1@)).push(pair));
        assert(template_entries(*t).subrange(0, i + 1) =~= template_entries(*t).subrange(0, i as int).push(pair));
        i = i + 1;
    }
    assert(template_entries(*t).subrange(0, n as int) =~= template_entries(*t));
    out
}

/// The value to store for a template component (see [`merged_data`]).
fn merged_component(name: &str, data: &Json, overrides: Option<&Json>) -> (r: Json)
    ensures
        r@ == merged_data(name@, data@, match overrides {
            Some(o) => Some(o@),
            None => None,
        }),
{
    match overrides {
        Some(ov) => match ov.get(name) {
            Some(o) => merge_json(data, o),
            None => data.deep_clone(),
        },
        None => data.deep_clone(),
    }
}

/// The view of optional overrides.
pub open spec fn overrides_view(overrides: Option<&Json>) -> Option<JsonV> {
    match overrides {
        Some(o) => Some(o@),
        None => None,
    }
}

impl<H: Fn(&Json)> World<H> {
    /// Spawn an entity from a named template, each component's value
    /// deep-merged with its override when `overrides` (an object keyed by
    /// component name) has one. Returns the new entity id; fails when the
    /// template is unknown or a component store is refused, leaving the
    /// entity with the components stored before the refusal.
    pub fn spawn_from_template(&mut self, template_name: &str, overrides: Option<&Json>) -> (r: Result<u32, String>)
        requires
            old(self).template_registry.templates().contains_key(template_name@) ==> old(self).next_entity() < u32::MAX,
        ensures
            final(self).current_mode == old(self).current_mode,
            final(self).registry == old(self).registry,
            !old(self).template_registry.templates().contains_key(template_name@) ==> r is Err && err_text(r)@
                == "Template '"@ + template_name@ + "' not found"@ && *final(self) == *old(self),
            old(self).template_registry.templates().contains_key(template_name@) ==> ({
                let comps = template_entries(old(self).template_registry.templates()[template_name@]);
                let ov = overrides_view(overrides);
                let j = first_refusal(*old(self), comps, ov);
                let id = old(self).next_entity();
                &&& final(self).entities@ == old(self).entities@.push(id)
                &&& final(self).next_entity() == id + 1
                &&& (r is Ok <==> j == comps.len())
                &&& (r is Ok ==> r == Ok::<u32, String>(id))
                &&& (r is Err ==> err_text(r)@ == set_outcome(*old(self), comps[j].0, merged_data(comps[j].0, comps[j].1, ov))->Err_0)
                &&& forall|n: Seq<char>, e: u32| #[trigger] final(self).comp(n, e) == if e == id && stored_among(comps, j, n, ov) is Some {
                    stored_among(comps, j, n, ov)
                } else {
                    old(self).comp(n, e)
                }
            }),
    {
        let comps = match self.template_registry.get_template(template_name) {
            Some(t) => template_entries_exec(t),
            None => {
                let mut m = String::from_str("Template '");
                m.append(template_name);
                m.append("' not found");
                return Err(m);
            },
        };
        let ghost w0 = *self;
        let ghost cs = comps@.map_values(|e: (String, Json)| (e.0@, e.1@));
        let ghost ov = overrides_view(overrides);
        let id = self.spawn_entity();
        let mut i: usize = 0;
        assert(cs.subrange(0, 0) =~= Seq::<(Seq<char>, JsonV)>::empty());
        while i < comps.len()
            invariant
                i <= comps.len(),
                w0 == *old(self),
                w0.template_registry.templates().contains_key(template_name@),
                cs == comps@.map_values(|e: (String, Json)| (e.0@, e.1@)),
                cs == template_entries(w0.template_registry.templates()[template_name@]),
                ov == overrides_view(overrides),
                id == w0.next_entity(),
                self.entities@ == w0.entities@.push(id),
                self.next_entity() == id + 1,
                self.current_mode == w0.current_mode,
                self.registry == w0.registry,
                first_refusal(w0, cs.subrange(0, i as int), ov) == i,
                forall|n: Seq<char>, e: u32| #[trigger] self.comp(n, e) == if e == id && stored_among(cs, i as int, n, ov) is Some {
                    stored_among(cs, i as int, n, ov)
                } else {
                    w0.comp(n, e)
                },
            decreases comps.len() - i,
        {
            proof {
                lemma_first_refusal_step(w0, cs, ov, i as int);
            }
            let data = merged_component(comps[i].0.as_str(), &comps[i].1, overrides);
            let ghost dv = data@;
            let ghost mid = *self;
            assert(cs[i as int] == (comps@[i as int].0@, comps@[i as int].1@));
            match self.set_component(id, comps[i].0.as_str(), data) {
                Err(e) => {
                    proof {
                        assert(set_outcome(mid, cs[i as int].0, dv) == set_outcome(w0, cs[i as int].0, dv));
                        assert(first_refusal(w0, cs.subrange(0, i + 1), ov) == i);
                        lemma_first_refusal_sticky(w0, cs, ov, i + 1);
                        assert(cs.subrange(0, i + 1)[i as int] == cs[i as int]);
                        assert forall|n: Seq<char>, e: u32| #[trigger] self.comp(n, e) == if e == id && stored_among(cs, i as int, n, ov) is Some {
                            stored_among(cs, i as int, n, ov)
                        } else {
                            w0.comp(n, e)
                        } by {
                            assert(self.comp(n, e) == mid.comp(n, e));
                        }
                    }
                    return Err(e);
                },
                Ok(()) => {},
            }
            proof {
                assert(set_outcome(mid, cs[i as int].0, dv) == set_outcome(w0, cs[i as int].0, dv));
                assert forall|n: Seq<char>, e: u32| #[trigger] self.comp(n, e) == if e == id && stored_among(cs, i + 1, n, ov) is Some {
                    stored_among(cs, i + 1, n, ov)
                } else {
                    w0.comp(n, e)
                } by {
                    assert(self.comp(n, e) == if n == cs[i as int].0 && e == id { Some(dv) } else { mid.comp(n, e) });
                }
            }
            i = i + 1;
        }
        proof {
            assert(cs.subrange(0, i as int) =~= cs);
        }
        Ok(id)
    }
}

} // verus!
