//! Double-buffered event queues: events emitted in a frame are delivered
//! for processing after the next update.
use vstd::prelude::*;

use crate::ecs::world::World;
use crate::json::{Json, JsonV};
use crate::wasm_map::jsons_view;

verus! {

/// The (emitted, delivered) events of a queue.
pub open spec fn queue_view(q: (Vec<Json>, Vec<Json>)) -> (Seq<JsonV>, Seq<JsonV>) {
    (jsons_view(q.0@), jsons_view(q.1@))
}

impl<H: Fn(&Json)> World<H> {
    /// The (emitted, delivered) events of type `t` (both empty when the
    /// type has no queue).
    pub open spec fn queue(self, t: Seq<char>) -> (Seq<JsonV>, Seq<JsonV>) {
        if self.event_queues@.contains_key(t) {
            queue_view(self.event_queues@[t])
        } else {
            (Seq::empty(), Seq::empty())
        }
    }

    /// Emit an event of the given type; it is delivered after the next
    /// update.
    pub fn emit_event(&mut self, event_type: &str, payload: Json)
        ensures
            final(self).event_queues@.dom() == old(self).event_queues@.dom().insert(event_type@),
            final(self).queue(event_type@) == (old(self).queue(event_type@).0.push(payload@), old(self).queue(event_type@).1),
            forall|t: Seq<char>| t != event_type@ ==> #[trigger] final(self).event_queues@.get(t) == old(self).event_queues@.get(t),
            final(self).components == old(self).components,
            final(self).entities == old(self).entities,
    {
        let key = String::from_str(event_type);
        let (mut write, read) = match self.event_queues.remove(&key) {
            Some(q) => q,
            None => (Vec::new(), Vec::new()),
        };
        let ghost w0 = write@;
        let ghost pv = payload@;
        write.push(payload);
        assert(jsons_view(write@) =~= jsons_view(w0).push(pv));
        self.event_queues.insert(key, (write, read));
        proof {
            assert(self.event_queues@.dom() =~= old(self).event_queues@.dom().insert(event_type@));
            assert forall|t: Seq<char>| t != event_type@ implies #[trigger] self.event_queues@.get(t) == old(self).event_queues@.get(t) by {}
        }
    }

    /// Hand every delivered event of the given type to `handler`, in order,
    /// and drop them.
    pub fn process_events<F: FnMut(&Json)>(&mut self, event_type: &str, mut handler: F)
        requires
            forall|x: &Json, g: F| #[trigger] call_requires(g, (x,)),
        ensures
            final(self).event_queues@.dom() == old(self).event_queues@.dom(),
            final(self).queue(event_type@) == (old(self).queue(event_type@).0, Seq::<JsonV>::empty()),
            forall|t: Seq<char>| t != event_type@ ==> #[trigger] final(self).event_queues@.get(t) == old(self).event_queues@.get(t),
            final(self).components == old(self).components,
            final(self).entities == old(self).entities,
    {
        let key = String::from_str(event_type);
        match self.event_queues.remove(&key) {
            Some(q) => {
                let (write, read) = q;
                let mut i: usize = 0;
                while i < read.len()
                    invariant
                        i <= read@.len(),
                        forall|x: &Json, g: F| #[trigger] call_requires(g, (x,)),
                    decreases read@.len() - i,
                {
                    handler(&read[i]);
                    i = i + 1;
                }
                let empty: Vec<Json> = Vec::new();
                assert(jsons_view(empty@) =~= Seq::<JsonV>::empty());
                self.event_queues.insert(key, (write, empty));
                proof {
                    assert(self.event_queues@.dom() =~= old(self).event_queues@.dom());
                    assert forall|t: Seq<char>| t != event_type@ implies #[trigger] self.event_queues@.get(t) == old(self).event_queues@.get(t) by {}
                }
            },
            None => {},
        }
    }

    /// Swap each queue's buffers: the events emitted since the last update
    /// become the delivered ones, and the delivered ones are dropped.
    pub fn update_event_queues(&mut self)
        ensures
            final(self).event_queues@.dom() == old(self).event_queues@.dom(),
            forall|t: Seq<char>| #[trigger] old(self).event_queues@.contains_key(t) ==> final(self).queue(t) == (
                Seq::<JsonV>::empty(),
                old(self).queue(t).0,
            ),
            final(self).components == old(self).components,
            final(self).entities == old(self).entities,
    {
        let keys = self.event_queues.keys();
        let ghost q0 = self.event_queues@;
        let mut i: usize = 0;
        while i < keys.len()
            invariant
                i <= keys@.len(),
                q0 == old(self).event_queues@,
                forall|k: int| 0 <= k < keys@.len() ==> q0.contains_key(#[trigger] keys@[k]@),
                forall|t: Seq<char>| q0.contains_key(t) ==> exists|k: int| 0 <= k < keys@.len() && #[trigger] keys@[k]@ == t,
                forall|a: int, b: int| 0 <= a < keys@.len() && 0 <= b < keys@.len() && a != b ==> keys@[a]@ != keys@[b]@,
                self.event_queues@.dom() == q0.dom(),
                forall|t: Seq<char>| #[trigger] q0.contains_key(t) ==> queue_view(self.event_queues@[t]) == if exists|k: int| 0 <= k < i && #[trigger] keys@[k]@ == t {
                    (Seq::<JsonV>::empty(), queue_view(q0[t]).0)
                } else {
                    queue_view(q0[t])
                },
                self.components == old(self).components,
                self.entities == old(self).entities,
            decreases keys.len() - i,
        {
            let ghost before = self.event_queues@;
            let k = &keys[i];
            proof {
                assert(q0.contains_key(keys@[i as int]@));
                assert(!(exists|j: int| 0 <= j < i && #[trigger] keys@[j]@ == keys@[i as int]@));
            }
            match self.event_queues.remove(k) {
                Some(q) => {
                    let (write, _read) = q;
                    let empty: Vec<Json> = Vec::new();
                    assert(jsons_view(empty@) =~= Seq::<JsonV>::empty());
                    self.event_queues.insert(k.clone(), (empty, write));
                },
                None => {},
            }
            proof {
                assert(self.event_queues@.dom() =~= q0.dom());
                assert forall|t: Seq<char>| #[trigger] q0.contains_key(t) implies queue_view(self.event_queues@[t]) == if exists|j: int| 0 <= j < i + 1 && #[trigger] keys@[j]@ == t {
                    (Seq::<JsonV>::empty(), queue_view(q0[t]).0)
                } else {
                    queue_view(q0[t])
                } by {
                    if t == keys@[i as int]@ {
                        assert(exists|j: int| 0 <= j < i + 1 && #[trigger] keys@[j]@ == t);
                    } else {
                        assert(self.event_queues@[t] == before[t]);
                        if exists|j: int| 0 <= j < i + 1 && #[trigger] keys@[j]@ == t {
                            let j = choose|j: int| 0 <= j < i + 1 && #[trigger] keys@[j]@ == t;
                            assert(j < i);
                        }
                    }
                }
            }
            i = i + 1;
        }
        proof {
            assert forall|t: Seq<char>| #[trigger] q0.contains_key(t) implies self.queue(t) == (Seq::<JsonV>::empty(), old(self).queue(t).0) by {
                let k = choose|k: int| 0 <= k < keys@.len() && #[trigger] keys@[k]@ == t;
                assert(exists|j: int| 0 <= j < i && #[trigger] keys@[j]@ == t);
            }
        }
    }
}

} // verus!
