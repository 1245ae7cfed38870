//! Moving skills recorded on agents into their own `SkillLevels` component.
use vstd::prelude::*;

use crate::collections::KeyMap;
use crate::ecs::world::World;
use crate::json::{entries_view, push_entry, Json, JsonV};

verus! {

/// The `SkillLevels` record made from an agent's skills.
pub open spec fn skill_record(skills: Seq<(Seq<char>, JsonV)>) -> JsonV {
    JsonV::Object(seq![
        ("skill_levels"@, JsonV::Object(Seq::empty())),
        ("skill_xp"@, JsonV::Object(Seq::empty())),
        ("skills"@, JsonV::Object(skills)),
        ("total_xp"@, JsonV::Float("0.0"@)),
    ])
}

impl<H: Fn(&Json)> World<H> {
    /// Whether `e`'s agent skills move into a new `SkillLevels`: it has an
    /// `Agent` with a non-empty `skills` object and no `SkillLevels`.
    pub open spec fn migrates_skills(self, e: u32) -> bool {
        &&& self.comp("SkillLevels"@, e) is None
        &&& self.comp("Agent"@, e) matches Some(a) && (a.get("skills"@) matches Some(JsonV::Object(s)) && s.len() > 0)
    }

    /// The agent skills of `e` (meaningful when [`Self::migrates_skills`]).
    pub open spec fn agent_skills(self, e: u32) -> Seq<(Seq<char>, JsonV)> {
        self.comp("Agent"@, e).unwrap().get("skills"@).unwrap()->Object_0
    }

    /// For every entity whose `Agent` carries a non-empty `skills` object and
    /// which has no `SkillLevels`, store `SkillLevels` with those skills, no
    /// experience and empty level and experience tables. Existing
    /// `SkillLevels` take precedence. The stores bypass mode and schema
    /// checks and send no event.
    pub fn migrate_agent_skills(&mut self)
        ensures
            forall|n: Seq<char>, e: u32| #[trigger] final(self).comp(n, e) == if n == "SkillLevels"@ && old(self).migrates_skills(e) {
                Some(skill_record(old(self).agent_skills(e)))
            } else {
                old(self).comp(n, e)
            },
            final(self).components@.dom() == if exists|e: u32| old(self).migrates_skills(e) {
                old(self).components@.dom().insert("SkillLevels"@)
            } else {
                old(self).components@.dom()
            },
            final(self).entities == old(self).entities,
            final(self).next_id == old(self).next_id,
            final(self).current_mode == old(self).current_mode,
            final(self).registry == old(self).registry,
            final(self).event_buses == old(self).event_buses,
            final(self).next_zone_id == old(self).next_zone_id,
    {
        proof {
            reveal_strlit("SkillLevels");
            reveal_strlit("Agent");
            assert("SkillLevels"@.len() == 11);
            assert("Agent"@.len() == 5);
        }
        let agents = match self.components.get(&String::from_str("Agent")) {
            Some(table) => table.keys(),
            None => Vec::new(),
        };
        let ghost w0 = *self;
        let ghost mut done: Set<u32> = Set::empty();
        let mut i: usize = 0;
        proof {
            assert forall|e: u32| w0.migrates_skills(e) implies agents@.contains(e) by {
                assert(w0.components@.contains_key("Agent"@));
                let t = w0.components@["Agent"@];
                assert(t@.contains_key(e));
            }
        }
        assert(self.components@.dom() =~= w0.components@.dom());
        while i < agents.len()
            invariant
                i <= agents@.len(),
                w0 == *old(self),
                forall|e: u32| w0.migrates_skills(e) ==> agents@.contains(e),
                forall|a: int, b: int| 0 <= a < agents@.len() && 0 <= b < agents@.len() && a != b ==> agents@[a] != agents@[b],
                forall|e: u32| #[trigger] done.contains(e) <==> (exists|k: int| 0 <= k < i && agents@[k] == e) && w0.migrates_skills(e),
                forall|n: Seq<char>, e: u32| #[trigger] self.comp(n, e) == if n == "SkillLevels"@ && done.contains(e) {
                    Some(skill_record(w0.agent_skills(e)))
                } else {
                    w0.comp(n, e)
                },
                self.components@.dom() == if exists|e: u32| done.contains(e) {
                    w0.components@.dom().insert("SkillLevels"@)
                } else {
                    w0.components@.dom()
                },
                self.entities == w0.entities,
                self.next_id == w0.next_id,
                self.current_mode == w0.current_mode,
                self.registry == w0.registry,
                self.event_buses == w0.event_buses,
                self.next_zone_id == w0.next_zone_id,
            decreases agents.len() - i,
        {
            let e = agents[i];
            proof {
                if done.contains(e) {
                    let k = choose|k: int| 0 <= k < i && agents@[k] == e;
                    assert(agents@[k] != agents@[i as int]);
                }
                assert(self.comp("SkillLevels"@, e) == w0.comp("SkillLevels"@, e));
                assert(self.comp("Agent"@, e) == w0.comp("Agent"@, e));
            }
            let ghost wprev = *self;
            let record = self.skill_record_for(e);
            let ghost prev = done;
            match record {
                Some(rec) => {
                    let ghost before = self.components@;
                    let ghost rv = rec@;
                    let key = String::from_str("SkillLevels");
                    let mut table = match self.components.remove(&key) {
                        Some(t) => t,
                        None => KeyMap::new(),
                    };
                    let ghost t0 = table@;
                    proof {
                        assert(before.contains_key("SkillLevels"@) ==> t0 == before["SkillLevels"@]@);
                        assert(!before.contains_key("SkillLevels"@) ==> t0 == Map::<u32, Json>::empty());
                    }
                    table.insert(e, rec);
                    let ghost t1 = table@;
                    self.components.insert(key, table);
                    proof {
                        done = prev.insert(e);
                        assert(self.components@.contains_key("SkillLevels"@));
                        assert(self.components@["SkillLevels"@]@ == t1);
                        assert(t1 == t0.insert(e, rec));
                        assert forall|n: Seq<char>, x: u32| #[trigger] self.comp(n, x) == if n == "SkillLevels"@ && done.contains(x) {
                            Some(skill_record(w0.agent_skills(x)))
                        } else {
                            w0.comp(n, x)
                        } by {
                            assert(wprev.comp(n, x) == if n == "SkillLevels"@ && prev.contains(x) {
                                Some(skill_record(w0.agent_skills(x)))
                            } else {
                                w0.comp(n, x)
                            });
                            assert(w0.agent_skills(e) == wprev.agent_skills(e));
                            assert(w0.migrates_skills(e));
                            if n != "SkillLevels"@ {
                                assert(self.components@.contains_key(n) == before.contains_key(n));
                                if before.contains_key(n) {
                                    assert(self.components@[n] == before[n]);
                                }
                            } else {
                                if x != e {
                                    assert(t1.contains_key(x) == t0.contains_key(x));
                                    if t0.contains_key(x) {
                                        assert(t1[x] == t0[x]);
                                    }
                                } else {
                                    assert(t1[x]@ == rv);
                                }
                            }
                        }
                        assert(self.components@.dom() =~= before.dom().insert("SkillLevels"@));
                        assert(done.contains(e));
                        if exists|x: u32| prev.contains(x) {
                            assert(self.components@.dom() =~= w0.components@.dom().insert("SkillLevels"@));
                        }
                    }
                },
                None => {},
            }
            proof {
                assert forall|x: u32| #[trigger] done.contains(x) <==> (exists|k: int| 0 <= k < i + 1 && agents@[k] == x) && w0.migrates_skills(x) by {
                    if x == e {
                        assert(agents@[i as int] == x);
                    }
                    if (exists|k: int| 0 <= k < i + 1 && agents@[k] == x) && x != e {
                        let k = choose|k: int| 0 <= k < i + 1 && agents@[k] == x;
                        assert(k < i);
                    }
                }
                if record is None {
                    assert forall|x: u32| #[trigger] done.contains(x) implies prev.contains(x) by {}
                }
            }
            i = i + 1;
        }
        proof {
            assert forall|x: u32| #[trigger] done.contains(x) <==> w0.migrates_skills(x) by {
                if w0.migrates_skills(x) {
                    assert(agents@.contains(x));
                }
            }
            if exists|x: u32| w0.migrates_skills(x) {
                let x = choose|x: u32| w0.migrates_skills(x);
                assert(done.contains(x));
            }
            if exists|x: u32| done.contains(x) {
                let x = choose|x: u32| done.contains(x);
                assert(w0.migrates_skills(x));
            }
        }
    }

    /// The `SkillLevels` record to store for `e`, when it migrates.
    fn skill_record_for(&self, e: u32) -> (r: Option<Json>)
        ensures
            r is Some <==> self.migrates_skills(e),
            r matches Some(v) ==> v@ == skill_record(self.agent_skills(e)),
    {
        let levels_key = String::from_str("SkillLevels");
        match self.components.get(&levels_key) {
            Some(t) => {
                if t.contains_key(&e) {
                    return None;
                }
            },
            None => {},
        }
        let agent_key = String::from_str("Agent");
        let agent = match self.components.get(&agent_key) {
            Some(t) => match t.get(&e) {
                Some(a) => a,
                None => {
                    return None;
                },
            },
            None => {
                return None;
            },
        };
        match agent.get("skills") {
            Some(s) => match s {
                Json::Object(entries) => {
                    if entries.len() == 0 {
                        return None;
                    }
                    let mut en: Vec<(String, Json)> = Vec::new();
                    assert(entries_view(&en) =~= Seq::<(Seq<char>, JsonV)>::empty());
                    push_entry(&mut en, "skill_levels", Json::new_object());
                    push_entry(&mut en, "skill_xp", Json::new_object());
                    push_entry(&mut en, "skills", s.deep_clone());
                    push_entry(&mut en, "total_xp", Json::Float(String::from_str("0.0")));
                    let ghost ev = entries_view(&en);
                    assert(ev =~= seq![
                        ("skill_levels"@, JsonV::Object(Seq::empty())),
                        ("skill_xp"@, JsonV::Object(Seq::empty())),
                        ("skills"@, s@),
                        ("total_xp"@, JsonV::Float("0.0"@)),
                    ]);
                    Some(Json::Object(en))
                },
                _ => None,
            },
            None => None,
        }
    }
}

} // verus!
