//! The system registry: named systems with their dependencies, ordered so
//! that every system runs after the registered systems it depends on.
use vstd::prelude::*;

use crate::json::str_eq;
use topo_sort::{SortResults, TopoSort};

verus! {

#[verifier::external_type_specification]
#[verifier::external_body]
#[verifier::reject_recursive_types(T)]
pub struct ExTopoSort<T: Eq + std::hash::Hash>(TopoSort<T>);

/// The nodes a `TopoSort` holds, each with the set of its dependencies.
pub uninterp spec fn sorter_nodes(s: TopoSort<String>) -> Map<Seq<char>, Set<Seq<char>>>;

/// Whether `order` lists every node of `g` once, each after the other
/// nodes of `g` it depends on (a node depending on itself is ignored).
pub open spec fn is_topo_order(order: Seq<Seq<char>>, g: Map<Seq<char>, Set<Seq<char>>>) -> bool {
    &&& order.no_duplicates()
    &&& forall|n: Seq<char>| order.contains(n) <==> g.contains_key(n)
    &&& forall|i: int, j: int|
        0 <= i < order.len() && 0 <= j < order.len() && i != j && #[trigger] g[order[i]].contains(#[trigger] order[j]) ==> j < i
}

/// Whether the dependency graph `g` has an order (has no cycle).
pub open spec fn has_topo_order(g: Map<Seq<char>, Set<Seq<char>>>) -> bool {
    exists|order: Seq<Seq<char>>| is_topo_order(order, g)
}

/// The graph with no node.
pub open spec fn no_nodes() -> Map<Seq<char>, Set<Seq<char>>> {
    Map::empty()
}

/// The views of a list of strings.
pub open spec fn names_view(v: Seq<String>) -> Seq<Seq<char>> {
    v.map_values(|s: String| s@)
}

/// `TopoSort::new`: a sorter holding no node.
#[verifier::external_body]
fn sorter_new() -> (r: TopoSort<String>)
    ensures
        sorter_nodes(r) == no_nodes(),
{
    TopoSort::new()
}

/// `TopoSort::insert`: `node` now depends on exactly the given nodes
/// (replacing what it depended on before).
#[verifier::external_body]
fn sorter_insert(s: &mut TopoSort<String>, node: String, deps: Vec<String>)
    ensures
        sorter_nodes(*final(s)) == sorter_nodes(*old(s)).insert(node@, names_view(deps@).to_set()),
{
    s.insert(node, deps)
}

/// `TopoSort::into_vec_nodes` (Kahn's algorithm): `Ok` with the full order
/// when the graph has one, `Err` with the nodes sorted before the cycle
/// otherwise. Which of several valid orders comes out is left open.
#[verifier::external_body]
fn sorter_order(s: TopoSort<String>) -> (r: Result<Vec<String>, Vec<String>>)
    ensures
        r matches Ok(order) ==> is_topo_order(names_view(order@), sorter_nodes(s)),
        r is Err ==> !has_topo_order(sorter_nodes(s)),
{
    match s.into_vec_nodes() {
        SortResults::Full(order) => Ok(order),
        SortResults::Partial(done) => Err(done),
    }
}

/// Registered systems by name, each with the names of the systems it
/// depends on, in registration order.
pub struct SystemRegistry {
    systems: Vec<(String, Vec<String>)>,
}

/// The dependency graph of the first `i` systems: each system with its
/// dependencies that are registered.
pub open spec fn graph_upto(entries: Seq<(String, Vec<String>)>, names: Set<Seq<char>>, i: int) -> Map<Seq<char>, Set<Seq<char>>>
    decreases i,
{
    if i <= 0 {
        Map::empty()
    } else {
        graph_upto(entries, names, i - 1).insert(
            entries[i - 1].0@,
            names_view(entries[i - 1].1@).to_set().filter(|d: Seq<char>| names.contains(d)),
        )
    }
}

impl SystemRegistry {
    #[verifier::type_invariant]
    spec fn distinct(self) -> bool {
        forall|a: int, b: int| 0 <= a < self.systems@.len() && 0 <= b < self.systems@.len() && a != b ==> self.systems@[a].0@
            != self.systems@[b].0@
    }

    /// The registered systems (name, dependencies), in order.
    pub closed spec fn entries(self) -> Seq<(Seq<char>, Seq<Seq<char>>)> {
        self.systems@.map_values(|e: (String, Vec<String>)| (e.0@, names_view(e.1@)))
    }

    /// The registered names.
    pub closed spec fn names(self) -> Set<Seq<char>> {
        Set::new(|n: Seq<char>| exists|i: int| 0 <= i < self.systems@.len() && #[trigger] self.systems@[i].0@ == n)
    }

    /// The dependency graph among the registered systems.
    pub closed spec fn graph(self) -> Map<Seq<char>, Set<Seq<char>>> {
        graph_upto(self.systems@, self.names(), self.systems@.len() as int)
    }

    /// An empty registry.
    pub fn new() -> (r: Self)
        ensures
            r.entries() == Seq::<(Seq<char>, Seq<Seq<char>>)>::empty(),
    {
        let r = SystemRegistry { systems: Vec::new() };
        assert(r.entries() =~= Seq::<(Seq<char>, Seq<Seq<char>>)>::empty());
        r
    }

    fn position(&self, name: &str) -> (r: Option<usize>)
        ensures
            r matches Some(i) ==> i < self.systems@.len() && self.systems@[i as int].0@ == name@,
            r is None ==> forall|i: int| 0 <= i < self.systems@.len() ==> self.systems@[i].0@ != name@,
    {
        let mut i: usize = 0;
        while i < self.systems.len()
            invariant
                i <= self.systems@.len(),
                forall|k: int| 0 <= k < i ==> self.systems@[k].0@ != name@,
            decreases self.systems.len() - i,
        {
            if str_eq(self.systems[i].0.as_str(), name) {
                return Some(i);
            }
            i = i + 1;
        }
        None
    }

    /// Register a system with its dependencies; a system of the same name
    /// keeps its place and takes the new dependencies.
    pub fn register_system(&mut self, name: &str, dependencies: Vec<String>)
        ensures
            (exists|i: int| 0 <= i < old(self).entries().len() && old(self).entries()[i].0 == name@) ==> exists|i: int|
                0 <= i < old(self).entries().len() && old(self).entries()[i].0 == name@ && final(self).entries() == old(
                    self,
                ).entries().update(i, (name@, names_view(dependencies@))),
            !(exists|i: int| 0 <= i < old(self).entries().len() && old(self).entries()[i].0 == name@) ==> final(self).entries()
                == old(self).entries().push((name@, names_view(dependencies@))),
    {
        proof {
            use_type_invariant(&*self);
        }
        let ghost e0 = self.entries();
        let pos = self.position(name);
        let mut systems: Vec<(String, Vec<String>)> = Vec::new();
        std::mem::swap(&mut systems, &mut self.systems);
        match pos {
            Some(i) => {
                systems.set(i, (String::from_str(name), dependencies));
                self.systems = systems;
                proof {
                    assert(e0[i as int].0 == name@);
                    assert(self.entries() =~= e0.update(i as int, (name@, names_view(dependencies@))));
                }
            },
            None => {
                systems.push((String::from_str(name), dependencies));
                self.systems = systems;
                proof {
                    assert(self.entries() =~= e0.push((name@, names_view(dependencies@))));
                    assert forall|i: int| 0 <= i < e0.len() implies e0[i].0 != name@ by {}
                }
            },
        }
    }

    /// Unregister a system by name, keeping the order of the others.
    pub fn unregister_system(&mut self, name: &str)
        ensures
            final(self).entries() == old(self).entries().filter(|e: (Seq<char>, Seq<Seq<char>>)| e.0 != name@),
    {
        proof {
            use_type_invariant(&*self);
        }
        let ghost e0 = self.entries();
        match self.position(name) {
            Some(i) => {
                let mut systems: Vec<(String, Vec<String>)> = Vec::new();
                std::mem::swap(&mut systems, &mut self.systems);
                let _ = systems.remove(i);
                self.systems = systems;
                proof {
                    let p = |e: (Seq<char>, Seq<Seq<char>>)| e.0 != name@;
                    assert forall|k: int| 0 <= k < e0.len() && k != i implies p(e0[k]) by {}
                    lemma_filter_drops_one(e0, i as int, p);
                    assert(self.entries() =~= e0.remove(i as int));
                }
            },
            None => {
                proof {
                    let p = |e: (Seq<char>, Seq<Seq<char>>)| e.0 != name@;
                    assert forall|k: int| 0 <= k < e0.len() implies p(e0[k]) by {}
                    lemma_filter_keeps_all(e0, p);
                }
            },
        }
    }

    /// The registered system names, in registration order.
    pub fn list_systems(&self) -> (r: Vec<String>)
        ensures
            names_view(r@) == self.entries().map_values(|e: (Seq<char>, Seq<Seq<char>>)| e.0),
    {
        let mut out: Vec<String> = Vec::new();
        let mut i: usize = 0;
        while i < self.systems.len()
            invariant
                i <= self.systems@.len(),
                names_view(out@) == self.entries().subrange(0, i as int).map_values(|e: (Seq<char>, Seq<Seq<char>>)| e.0),
            decreases self.systems.len() - i,
        {
            let ghost before = out@;
            let name = self.systems[i].0.clone();
            assert(name@ == self.systems@[i as int].0@);
            out.push(name);
            assert(names_view(out@) =~= names_view(before).push(self.systems@[i as int].0@));
            assert(names_view(out@) =~= self.entries().subrange(0, i + 1).map_values(|e: (Seq<char>, Seq<Seq<char>>)| e.0));
            i = i + 1;
        }
        assert(self.entries().subrange(0, i as int) =~= self.entries());
        out
    }

    /// Whether a system of that name is registered.
    pub fn is_registered(&self, name: &str) -> (r: bool)
        ensures
            r == self.names().contains(name@),
    {
        match self.position(name) {
            Some(i) => {
                assert(self.names().contains(name@));
                true
            },
            None => false,
        }
    }

    /// The system names ordered so that each comes after the registered
    /// systems it depends on (dependencies on unregistered names are
    /// ignored); `Err` with the names ordered before the cycle when the
    /// dependencies form one.
    pub fn sorted_system_names(&self) -> (r: Result<Vec<String>, Vec<String>>)
        ensures
            r is Ok <==> has_topo_order(self.graph()),
            r matches Ok(order) ==> is_topo_order(names_view(order@), self.graph()),
    {
        let ghost names = self.names();
        let mut sorter = sorter_new();
        let mut i: usize = 0;
        while i < self.systems.len()
            invariant
                i <= self.systems@.len(),
                names == self.names(),
                sorter_nodes(sorter) == graph_upto(self.systems@, names, i as int),
            decreases self.systems.len() - i,
        {
            let deps = &self.systems[i].1;
            let mut kept: Vec<String> = Vec::new();
            let mut k: usize = 0;
            while k < deps.len()
                invariant
                    k <= deps@.len(),
                    names == self.names(),
                    forall|d: Seq<char>| #[trigger] names_view(kept@).contains(d) <==> (exists|t: int| 0 <= t < k && deps@[t]@ == d)
                        && names.contains(d),
                decreases deps.len() - k,
            {
                let ghost before = names_view(kept@);
                if self.is_registered(deps[k].as_str()) {
                    kept.push(deps[k].clone());
                    assert(names_view(kept@) =~= before.push(deps@[k as int]@));
                } else {
                    assert(names_view(kept@) == before);
                }
                proof {
                    assert forall|d: Seq<char>| #[trigger] names_view(kept@).contains(d) <==> (exists|t: int| 0 <= t < k + 1 && deps@[t]@ == d)
                        && names.contains(d) by {
                        let now = names_view(kept@);
                        if now.contains(d) && !before.contains(d) {
                            let t = choose|t: int| 0 <= t < now.len() && now[t] == d;
                            assert(t == before.len());
                        }
                        if before.contains(d) {
                            let t = choose|t: int| 0 <= t < before.len() && before[t] == d;
                            assert(now[t] == d);
                        }
                        if (exists|t: int| 0 <= t < k + 1 && deps@[t]@ == d) && names.contains(d) {
                            let t = choose|t: int| 0 <= t < k + 1 && deps@[t]@ == d;
                            if t == k {
                                assert(now[now.len() - 1] == d);
                            } else {
                                assert(before.contains(d));
                            }
                        }
                    }
                }
                k = k + 1;
            }
            proof {
                assert(names_view(kept@).to_set() =~= names_view(deps@).to_set().filter(|d: Seq<char>| names.contains(d))) by {
                    assert forall|d: Seq<char>| names_view(kept@).to_set().contains(d) <==> names_view(deps@).to_set().filter(
                        |d: Seq<char>| names.contains(d),
                    ).contains(d) by {
                        if names_view(deps@).contains(d) {
                            let t = choose|t: int| 0 <= t < names_view(deps@).len() && names_view(deps@)[t] == d;
                            assert(deps@[t]@ == d);
                        }
                        if exists|t: int| 0 <= t < deps@.len() && deps@[t]@ == d {
                            let t = choose|t: int| 0 <= t < deps@.len() && deps@[t]@ == d;
                            assert(names_view(deps@)[t] == d);
                        }
                    }
                }
            }
            sorter_insert(&mut sorter, self.systems[i].0.clone(), kept);
            i = i + 1;
        }
        sorter_order(sorter)
    }
}

proof fn lemma_filter_keeps_all<A>(s: Seq<A>, p: spec_fn(A) -> bool)
    requires
        forall|k: int| 0 <= k < s.len() ==> p(s[k]),
    ensures
        s.filter(p) == s,
    decreases s.len(),
{
    reveal(Seq::filter);
    if s.len() > 0 {
        lemma_filter_keeps_all(s.drop_last(), p);
        assert(s.drop_last().push(s.last()) =~= s);
    }
}

proof fn lemma_filter_drops_one<A>(s: Seq<A>, i: int, p: spec_fn(A) -> bool)
    requires
        0 <= i < s.len(),
        !p(s[i]),
        forall|k: int| 0 <= k < s.len() && k != i ==> p(s[k]),
    ensures
        s.filter(p) == s.remove(i),
    decreases s.len(),
{
    reveal(Seq::filter);
    if i == s.len() - 1 {
        lemma_filter_keeps_all(s.drop_last(), p);
        assert(s.remove(i) =~= s.drop_last());
    } else {
        lemma_filter_drops_one(s.drop_last(), i, p);
        assert(s.remove(i) =~= s.drop_last().remove(i).push(s.last()));
    }
}

} // verus!
