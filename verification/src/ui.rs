//! The widget tree of a user interface: widgets with their properties and
//! types, parent/child links and the top-level widgets, and loading a
//! tree from JSON.
use vstd::prelude::*;

use crate::collections::KeyMap;
use crate::ecs::world::without;
use crate::json::{items_view, Json, JsonV};
use crate::json_text::{parse_json, parsed_json};

verus! {

/// The widget tree.
pub struct UiState {
    /// Widget id to its properties.
    pub widget_registry: KeyMap<u32, Json>,
    /// Widget id to its type name.
    pub widget_types: KeyMap<u32, String>,
    /// Parent id to its child ids, in order.
    pub widget_tree: KeyMap<u32, Vec<u32>>,
    /// Child id to its parent id.
    pub widget_parents: KeyMap<u32, u32>,
    /// Top-level widget ids (no parent).
    pub widget_roots: Vec<u32>,
    /// The id an automatically numbered widget gets next.
    pub next_widget_id: u32,
}

/// View of a widget tree.
pub struct UiV {
    pub reg: Map<u32, JsonV>,
    pub types: Map<u32, Seq<char>>,
    pub tree: Map<u32, Seq<u32>>,
    pub parents: Map<u32, u32>,
    pub roots: Seq<u32>,
    pub next: u32,
}

/// The view of a widget tree.
pub open spec fn ui_view(ui: &UiState) -> UiV {
    UiV {
        reg: ui.widget_registry@.map_values(|j: Json| j@),
        types: ui.widget_types@.map_values(|s: String| s@),
        tree: ui.widget_tree@.map_values(|v: Vec<u32>| v@),
        parents: ui.widget_parents@,
        roots: ui.widget_roots@,
        next: ui.next_widget_id,
    }
}

/// The non-negative integer a JSON number holds, if any.
pub open spec fn json_u64(j: JsonV) -> Option<u64> {
    match j {
        JsonV::Int(n) => if n >= 0 { Some(n as u64) } else { None },
        JsonV::UInt(u) => Some(u),
        _ => None,
    }
}

/// The child ids of a `children` array: its non-negative integers, each
/// truncated to 32 bits, in order.
pub open spec fn child_ids(items: Seq<JsonV>) -> Seq<u32>
    decreases items.len(),
{
    if items.len() == 0 {
        Seq::empty()
    } else {
        match json_u64(items.last()) {
            Some(u) => child_ids(items.drop_last()).push(u as u32),
            None => child_ids(items.drop_last()),
        }
    }
}

/// A widget description read from `{"id", "type", "props", "children"}`:
/// (id truncated to 32 bits, type, props or `{}`, child ids); `None`
/// without a non-negative integer `id` or a string `type`.
pub open spec fn widget_entry(w: JsonV) -> Option<(u32, Seq<char>, JsonV, Seq<u32>)> {
    match w.get("id"@) {
        Some(idv) => match json_u64(idv) {
            Some(id) => match w.str_at("type"@) {
                Some(t) => Some((
                    id as u32,
                    t,
                    match w.get("props"@) {
                        Some(p) => p,
                        None => JsonV::Object(Seq::empty()),
                    },
                    match w.get("children"@) {
                        Some(JsonV::Array(items)) => child_ids(items),
                        _ => Seq::empty(),
                    },
                )),
                None => None,
            },
            None => None,
        },
        None => None,
    }
}

/// Every description is well formed and names a widget not yet in `reg`.
pub open spec fn entries_ok(ws: Seq<JsonV>, reg: Map<u32, JsonV>) -> bool {
    forall|i: int| 0 <= i < ws.len() ==> (#[trigger] widget_entry(ws[i])) is Some && !reg.contains_key(widget_entry(ws[i]).unwrap().0)
}

/// The descriptions read, in order.
pub open spec fn entries_of(ws: Seq<JsonV>) -> Seq<(u32, Seq<char>, JsonV, Seq<u32>)> {
    Seq::new(ws.len(), |i: int| widget_entry(ws[i]).unwrap())
}

/// The largest id among the descriptions (0 when there are none).
pub open spec fn max_entry_id(es: Seq<(u32, Seq<char>, JsonV, Seq<u32>)>) -> u32
    decreases es.len(),
{
    if es.len() == 0 {
        0
    } else {
        let m = max_entry_id(es.drop_last());
        if es.last().0 > m { es.last().0 } else { m }
    }
}

/// Register the described widgets, in order: properties, type, an empty
/// child list, and a place among the top-level widgets.
pub open spec fn register_all(u: UiV, es: Seq<(u32, Seq<char>, JsonV, Seq<u32>)>) -> UiV
    decreases es.len(),
{
    if es.len() == 0 {
        u
    } else {
        let v = register_all(u, es.drop_last());
        let e = es.last();
        UiV {
            reg: v.reg.insert(e.0, e.2),
            types: v.types.insert(e.0, e.1),
            tree: v.tree.insert(e.0, Seq::empty()),
            roots: v.roots.push(e.0),
            ..v
        }
    }
}

/// Make `child` a child of `parent` (it leaves the top level and its
/// former parent's list, and goes last in `parent`'s list); `None` when no
/// widget `child` is registered.
pub open spec fn attach(u: UiV, parent: u32, child: u32) -> Option<UiV> {
    if !u.reg.contains_key(child) {
        None
    } else {
        let tree1 = if u.parents.contains_key(child) && u.tree.contains_key(u.parents[child]) {
            u.tree.insert(u.parents[child], without(u.tree[u.parents[child]], child))
        } else {
            u.tree
        };
        let list = if tree1.contains_key(parent) { tree1[parent] } else { Seq::empty() };
        Some(UiV {
            roots: without(u.roots, child),
            tree: tree1.insert(parent, list.push(child)),
            parents: u.parents.insert(child, parent),
            ..u
        })
    }
}

/// Attach the children `cs` to `parent` in order; stops (`false`) at the
/// first child that is not registered, keeping the links made so far.
pub open spec fn attach_all(u: UiV, parent: u32, cs: Seq<u32>) -> (UiV, bool)
    decreases cs.len(),
{
    if cs.len() == 0 {
        (u, true)
    } else {
        let (v, ok) = attach_all(u, parent, cs.drop_last());
        if !ok {
            (v, false)
        } else {
            match attach(v, parent, cs.last()) {
                Some(w) => (w, true),
                None => (v, false),
            }
        }
    }
}

/// Link every description's children, in order; stops (`false`) at the
/// first unknown child.
pub open spec fn link_all(u: UiV, es: Seq<(u32, Seq<char>, JsonV, Seq<u32>)>) -> (UiV, bool)
    decreases es.len(),
{
    if es.len() == 0 {
        (u, true)
    } else {
        let (v, ok) = link_all(u, es.drop_last());
        if !ok {
            (v, false)
        } else {
            attach_all(v, es.last().0, es.last().3)
        }
    }
}

/// Whether some description of the tree would have the id `u32::MAX`.
pub open spec fn has_max_id(v: JsonV) -> bool {
    match v.get("widgets"@) {
        Some(JsonV::Array(ws)) => exists|i: int| 0 <= i < ws.len() && (#[trigger] widget_entry(ws[i]) matches Some(e) && e.0 == u32::MAX),
        _ => false,
    }
}

/// What loading the tree `v` does to `u`: the new tree and the created
/// ids, or `None` with the tree as it ends up. A tree without a non-empty
/// `widgets` array of well-formed descriptions of new widgets changes
/// nothing.
pub open spec fn load_outcome(u: UiV, v: JsonV) -> (UiV, Option<Seq<u32>>) {
    match v.get("widgets"@) {
        Some(JsonV::Array(ws)) => if ws.len() > 0 && entries_ok(ws, u.reg) {
            let es = entries_of(ws);
            let m = max_entry_id(es);
            let u0 = UiV { next: if m >= u.next { (m + 1) as u32 } else { u.next }, ..u };
            let (u2, ok) = link_all(register_all(u0, es), es);
            (u2, if ok { Some(es.map_values(|e: (u32, Seq<char>, JsonV, Seq<u32>)| e.0)) } else { None })
        } else {
            (u, None)
        },
        _ => (u, None),
    }
}

/// `v` without any occurrence of `x`, order kept.
fn vec_without(v: &Vec<u32>, x: u32) -> (r: Vec<u32>)
    ensures
        r@ == without(v@, x),
{
    let mut out: Vec<u32> = Vec::new();
    let mut k: usize = 0;
    while k < v.len()
        invariant
            k <= v.len(),
            out@ == without(v@.subrange(0, k as int), x),
        decreases v.len() - k,
    {
        assert(v@.subrange(0, k + 1).drop_last() =~= v@.subrange(0, k as int));
        if v[k] != x {
            out.push(v[k]);
        }
        k = k + 1;
    }
    assert(v@.subrange(0, k as int) =~= v@);
    out
}

/// The non-negative integer a JSON number holds (see [`json_u64`]).
fn json_u64_exec(j: &Json) -> (r: Option<u64>)
    ensures
        r == json_u64(j@),
{
    match j {
        Json::Int(n) => if *n >= 0 { Some(*n as u64) } else { None },
        Json::UInt(u) => Some(*u),
        _ => None,
    }
}

/// The view of a read widget description.
pub open spec fn entry_view(e: (u32, String, Json, Vec<u32>)) -> (u32, Seq<char>, JsonV, Seq<u32>) {
    (e.0, e.1@, e.2@, e.3@)
}

/// Read a widget description (see [`widget_entry`]).
fn read_entry(w: &Json) -> (r: Option<(u32, String, Json, Vec<u32>)>)
    ensures
        match r {
            Some(e) => widget_entry(w@) == Some(entry_view(e)),
            None => widget_entry(w@) is None,
        },
{
    let id = match w.get("id") {
        Some(idv) => match json_u64_exec(idv) {
            Some(id) => id as u32,
            None => {
                return None;
            },
        },
        None => {
            return None;
        },
    };
    let t = match w.get_str("type") {
        Some(t) => t.to_string(),
        None => {
            return None;
        },
    };
    let props = match w.get("props") {
        Some(p) => p.deep_clone(),
        None => Json::new_object(),
    };
    let mut cs: Vec<u32> = Vec::new();
    match w.get("children") {
        Some(Json::Array(items)) => {
            let ghost iv = items_view(items);
            let mut k: usize = 0;
            while k < items.len()
                invariant
                    k <= items.len(),
                    iv == items_view(items),
                    cs@ == child_ids(iv.subrange(0, k as int)),
                decreases items.len() - k,
            {
                assert(iv.subrange(0, k + 1).drop_last() =~= iv.subrange(0, k as int));
                assert(iv.subrange(0, k + 1).last() == items[k as int]@);
                match json_u64_exec(&items[k]) {
                    Some(u) => {
                        cs.push(u as u32);
                    },
                    None => {},
                }
                k = k + 1;
            }
            assert(iv.subrange(0, k as int) =~= iv);
        },
        _ => {},
    }
    Some((id, t, props, cs))
}

impl UiState {
    /// An empty tree.
    pub fn new() -> (r: Self)
        ensures
            ui_view(&r).reg == Map::<u32, JsonV>::empty(),
            ui_view(&r).types == Map::<u32, Seq<char>>::empty(),
            ui_view(&r).tree == Map::<u32, Seq<u32>>::empty(),
            ui_view(&r).parents == Map::<u32, u32>::empty(),
            ui_view(&r).roots == Seq::<u32>::empty(),
            ui_view(&r).next == 1,
    {
        let r = UiState {
            widget_registry: KeyMap::new(),
            widget_types: KeyMap::new(),
            widget_tree: KeyMap::new(),
            widget_parents: KeyMap::new(),
            widget_roots: Vec::new(),
            next_widget_id: 1,
        };
        assert(ui_view(&r).reg =~= Map::<u32, JsonV>::empty());
        assert(ui_view(&r).types =~= Map::<u32, Seq<char>>::empty());
        assert(ui_view(&r).tree =~= Map::<u32, Seq<u32>>::empty());
        r
    }

    /// Make `child` a child of `parent` (see [`attach`]); `false` and no
    /// change when `child` is not registered.
    fn attach_child(&mut self, parent: u32, child: u32) -> (r: bool)
        ensures
            match attach(ui_view(old(self)), parent, child) {
                Some(v) => r && ui_view(final(self)) == v,
                None => !r && ui_view(final(self)) == ui_view(old(self)),
            },
    {
        if !self.widget_registry.contains_key(&child) {
            return false;
        }
        let ghost u = ui_view(self);
        self.widget_roots = vec_without(&self.widget_roots, child);
        match self.widget_parents.get(&child) {
            Some(p) => {
                let old_parent = *p;
                match self.widget_tree.remove(&old_parent) {
                    Some(list) => {
                        let kept = vec_without(&list, child);
                        self.widget_tree.insert(old_parent, kept);
                    },
                    None => {},
                }
            },
            None => {},
        }
        let ghost tree1 = self.widget_tree@.map_values(|v: Vec<u32>| v@);
        assert(tree1 =~= (if u.parents.contains_key(child) && u.tree.contains_key(u.parents[child]) {
            u.tree.insert(u.parents[child], without(u.tree[u.parents[child]], child))
        } else {
            u.tree
        }));
        let mut list = match self.widget_tree.remove(&parent) {
            Some(l) => l,
            None => Vec::new(),
        };
        assert(list@ == (if tree1.contains_key(parent) { tree1[parent] } else { Seq::<u32>::empty() }));
        list.push(child);
        let ghost lv = list@;
        self.widget_tree.insert(parent, list);
        self.widget_parents.insert(child, parent);
        assert(ui_view(self).tree =~= tree1.insert(parent, lv));
        assert(ui_view(self).reg =~= u.reg);
        assert(ui_view(self).types =~= u.types);
        true
    }
}

/// The views of read widget descriptions.
pub open spec fn entries_view(es: Seq<(u32, String, Json, Vec<u32>)>) -> Seq<(u32, Seq<char>, JsonV, Seq<u32>)> {
    es.map_values(|e: (u32, String, Json, Vec<u32>)| entry_view(e))
}

/// The largest id is one of the ids, or 0.
proof fn lemma_max_entry_id(es: Seq<(u32, Seq<char>, JsonV, Seq<u32>)>)
    ensures
        max_entry_id(es) == 0 || exists|i: int| 0 <= i < es.len() && es[i].0 == max_entry_id(es),
    decreases es.len(),
{
    if es.len() > 0 {
        lemma_max_entry_id(es.drop_last());
        if max_entry_id(es.drop_last()) != 0 && es.last().0 <= max_entry_id(es.drop_last()) {
            let i = choose|i: int| 0 <= i < es.drop_last().len() && es.drop_last()[i].0 == max_entry_id(es.drop_last());
            assert(es[i] == es.drop_last()[i]);
        }
    }
}

/// Load a widget tree from a JSON value of the form
/// `{"widgets": [{"id", "type", "props", "children"}, ...]}` (see
/// [`load_outcome`]): the ids of the created widgets, or `None` when the
/// value has no non-empty `widgets` array, a description lacks an integer
/// `id` or a string `type`, an id is already taken (nothing changes then),
/// or a child id names no widget (the widgets are registered and linked up
/// to that child).
pub fn ui_load_value(ui: &mut UiState, v: &Json) -> (r: Option<Vec<u32>>)
    requires
        !has_max_id(v@),
    ensures
        ui_view(final(ui)) == load_outcome(ui_view(old(ui)), v@).0,
        match r {
            Some(ids) => load_outcome(ui_view(old(ui)), v@).1 == Some(ids@),
            None => load_outcome(ui_view(old(ui)), v@).1 is None,
        },
{
    let ghost u = ui_view(ui);
    let ws = match v.get("widgets") {
        Some(w) => match w {
            Json::Array(ws) => ws,
            _ => {
                assert(!(w@ is Array));
                assert(load_outcome(u, v@) == (u, None::<Seq<u32>>));
                return None;
            },
        },
        None => {
            assert(load_outcome(u, v@) == (u, None::<Seq<u32>>));
            return None;
        },
    };
    let ghost wsv = items_view(ws);
    assert(v@.get("widgets"@) == Some(JsonV::Array(wsv)));
    if ws.len() == 0 {
        assert(load_outcome(u, v@) == (u, None::<Seq<u32>>));
        return None;
    }
    let mut es: Vec<(u32, String, Json, Vec<u32>)> = Vec::new();
    let mut max_id: u32 = 0;
    let mut i: usize = 0;
    while i < ws.len()
        invariant
            i <= ws.len(),
            wsv == items_view(ws),
            ui_view(ui) == u,
            u == ui_view(old(ui)),
            v@.get("widgets"@) == Some(JsonV::Array(wsv)),
            es.len() == i,
            forall|k: int| 0 <= k < i ==> (#[trigger] widget_entry(wsv[k])) is Some && !u.reg.contains_key(widget_entry(wsv[k]).unwrap().0),
            entries_view(es@) == entries_of(wsv.subrange(0, i as int)),
            max_id == max_entry_id(entries_view(es@)),
        decreases ws.len() - i,
    {
        let e = match read_entry(&ws[i]) {
            Some(e) => e,
            None => {
                assert(wsv[i as int] == ws[i as int]@);
                assert(!entries_ok(wsv, u.reg));
                assert(load_outcome(u, v@) == (u, None::<Seq<u32>>));
                return None;
            },
        };
        assert(wsv[i as int] == ws[i as int]@);
        if ui.widget_registry.contains_key(&e.0) {
            assert(!entries_ok(wsv, u.reg));
            assert(load_outcome(u, v@) == (u, None::<Seq<u32>>));
            return None;
        }
        let ghost ev = entry_view(e);
        let ghost before = entries_view(es@);
        if e.0 > max_id {
            max_id = e.0;
        }
        es.push(e);
        assert(entries_view(es@) =~= before.push(ev));
        assert(entries_view(es@) =~= entries_of(wsv.subrange(0, i + 1)));
        assert(entries_view(es@).drop_last() =~= before);
        i = i + 1;
    }
    let ghost esv = entries_view(es@);
    assert(wsv.subrange(0, i as int) =~= wsv);
    assert(esv == entries_of(wsv));
    assert(entries_ok(wsv, u.reg));
    proof {
        lemma_max_entry_id(esv);
        if max_id == u32::MAX {
            let k = choose|k: int| 0 <= k < esv.len() && esv[k].0 == max_entry_id(esv);
            assert(widget_entry(wsv[k]) == Some(esv[k]));
            assert(has_max_id(v@));
        }
    }
    if max_id >= ui.next_widget_id {
        ui.next_widget_id = max_id + 1;
    }
    let ghost u0 = ui_view(ui);
    assert(u0 == UiV { next: if max_id >= u.next { (max_id + 1) as u32 } else { u.next }, ..u });
    let mut k: usize = 0;
    while k < es.len()
        invariant
            k <= es.len(),
            esv == entries_view(es@),
            ui_view(ui) == register_all(u0, esv.subrange(0, k as int)),
        decreases es.len() - k,
    {
        let ghost before = ui_view(ui);
        let id = es[k].0;
        ui.widget_registry.insert(id, es[k].2.deep_clone());
        ui.widget_types.insert(id, es[k].1.clone());
        ui.widget_tree.insert(id, Vec::new());
        ui.widget_roots.push(id);
        proof {
            assert(esv.subrange(0, k + 1).drop_last() =~= esv.subrange(0, k as int));
            assert(esv.subrange(0, k + 1).last() == entry_view(es@[k as int]));
            assert(ui_view(ui).reg =~= before.reg.insert(id, es@[k as int].2@));
            assert(ui_view(ui).types =~= before.types.insert(id, es@[k as int].1@));
            assert(ui_view(ui).tree =~= before.tree.insert(id, Seq::<u32>::empty()));
        }
        k = k + 1;
    }
    assert(esv.subrange(0, k as int) =~= esv);
    let ghost u1 = ui_view(ui);
    let ghost outcome = (link_all(u1, esv).0, if link_all(u1, esv).1 {
        Some(esv.map_values(|e: (u32, Seq<char>, JsonV, Seq<u32>)| e.0))
    } else {
        None
    });
    assert(load_outcome(u, v@) == outcome);
    let mut k: usize = 0;
    while k < es.len()
        invariant
            k <= es.len(),
            esv == entries_view(es@),
            u1 == register_all(u0, esv),
            u == ui_view(old(ui)),
            load_outcome(u, v@) == outcome,
            outcome == (link_all(u1, esv).0, if link_all(u1, esv).1 {
                Some(esv.map_values(|e: (u32, Seq<char>, JsonV, Seq<u32>)| e.0))
            } else {
                None
            }),
            link_all(u1, esv.subrange(0, k as int)).1,
            ui_view(ui) == link_all(u1, esv.subrange(0, k as int)).0,
        decreases es.len() - k,
    {
        let parent = es[k].0;
        let cs = &es[k].3;
        let ghost base = ui_view(ui);
        proof {
            assert(esv.subrange(0, k + 1).drop_last() =~= esv.subrange(0, k as int));
            assert(esv.subrange(0, k + 1).last() == entry_view(es@[k as int]));
        }
        let mut j: usize = 0;
        while j < cs.len()
            invariant
                j <= cs.len(),
                k < es.len(),
                esv == entries_view(es@),
                u1 == register_all(u0, esv),
                u == ui_view(old(ui)),
                load_outcome(u, v@) == outcome,
                outcome == (link_all(u1, esv).0, if link_all(u1, esv).1 {
                    Some(esv.map_values(|e: (u32, Seq<char>, JsonV, Seq<u32>)| e.0))
                } else {
                    None
                }),
                cs@ == es@[k as int].3@,
                parent == es@[k as int].0,
                base == link_all(u1, esv.subrange(0, k as int)).0,
                link_all(u1, esv.subrange(0, k as int)).1,
                attach_all(base, parent, cs@.subrange(0, j as int)).1,
                ui_view(ui) == attach_all(base, parent, cs@.subrange(0, j as int)).0,
            decreases cs.len() - j,
        {
            assert(cs@.subrange(0, j + 1).drop_last() =~= cs@.subrange(0, j as int));
            let ghost before_j = ui_view(ui);
            if !ui.attach_child(parent, cs[j]) {
                proof {
                    assert(cs@.subrange(0, j + 1).last() == cs@[j as int]);
                    assert(attach(before_j, parent, cs@[j as int]) is None);
                    assert(attach_all(base, parent, cs@.subrange(0, j + 1)) == (ui_view(ui), false));
                    lemma_attach_all_stops(base, parent, cs@, j as int + 1);
                    assert(esv.subrange(0, k + 1).drop_last() =~= esv.subrange(0, k as int));
                    assert(esv.subrange(0, k + 1).last() == entry_view(es@[k as int]));
                    assert(esv.subrange(0, k + 1).last().3 == cs@);
                    assert(link_all(u1, esv.subrange(0, k + 1)) == attach_all(base, parent, cs@));
                    lemma_link_all_stops(u1, esv, k as int + 1);
                    assert(load_outcome(u, v@) == (ui_view(ui), None::<Seq<u32>>));
                }
                return None;
            }
            j = j + 1;
        }
        assert(cs@.subrange(0, j as int) =~= cs@);
        k = k + 1;
    }
    assert(esv.subrange(0, k as int) =~= esv);
    let mut ids: Vec<u32> = Vec::new();
    let mut k: usize = 0;
    while k < es.len()
        invariant
            k <= es.len(),
            esv == entries_view(es@),
            ids@ == esv.subrange(0, k as int).map_values(|e: (u32, Seq<char>, JsonV, Seq<u32>)| e.0),
        decreases es.len() - k,
    {
        ids.push(es[k].0);
        assert(ids@ =~= esv.subrange(0, k + 1).map_values(|e: (u32, Seq<char>, JsonV, Seq<u32>)| e.0));
        k = k + 1;
    }
    assert(esv.subrange(0, k as int) =~= esv);
    Some(ids)
}

/// Once attaching stops, attaching more children changes nothing further.
proof fn lemma_attach_all_stops(u: UiV, parent: u32, cs: Seq<u32>, p: int)
    requires
        0 <= p <= cs.len(),
        !attach_all(u, parent, cs.subrange(0, p)).1,
    ensures
        attach_all(u, parent, cs) == attach_all(u, parent, cs.subrange(0, p)),
    decreases cs.len() - p,
{
    if p < cs.len() {
        assert(cs.subrange(0, p + 1).drop_last() =~= cs.subrange(0, p));
        lemma_attach_all_stops(u, parent, cs, p + 1);
    } else {
        assert(cs.subrange(0, p) =~= cs);
    }
}

/// Once linking stops, linking more descriptions changes nothing further.
proof fn lemma_link_all_stops(u: UiV, es: Seq<(u32, Seq<char>, JsonV, Seq<u32>)>, p: int)
    requires
        0 <= p <= es.len(),
        !link_all(u, es.subrange(0, p)).1,
    ensures
        link_all(u, es) == link_all(u, es.subrange(0, p)),
    decreases es.len() - p,
{
    if p < es.len() {
        assert(es.subrange(0, p + 1).drop_last() =~= es.subrange(0, p));
        lemma_link_all_stops(u, es, p + 1);
    } else {
        assert(es.subrange(0, p) =~= es);
    }
}

/// Whether some description of the tree would have the id `u32::MAX` (see
/// [`has_max_id`]).
fn has_max_id_exec(v: &Json) -> (r: bool)
    ensures
        r == has_max_id(v@),
{
    match v.get("widgets") {
        Some(w) => match w {
            Json::Array(ws) => {
                let ghost wsv = items_view(ws);
                let mut i: usize = 0;
                while i < ws.len()
                    invariant
                        i <= ws.len(),
                        wsv == items_view(ws),
                        v@.get("widgets"@) == Some(JsonV::Array(wsv)),
                        forall|k: int| 0 <= k < i ==> !(#[trigger] widget_entry(wsv[k]) matches Some(e) && e.0 == u32::MAX),
                    decreases ws.len() - i,
                {
                    assert(wsv[i as int] == ws[i as int]@);
                    match read_entry(&ws[i]) {
                        Some(e) => {
                            if e.0 == u32::MAX {
                                assert(widget_entry(wsv[i as int]) == Some(entry_view(e)));
                                return true;
                            }
                        },
                        None => {},
                    }
                    i = i + 1;
                }
                false
            },
            _ => {
                assert(!(w@ is Array));
                false
            },
        },
        None => false,
    }
}

/// Load a widget tree from JSON text (see [`ui_load_value`]); text that
/// does not parse gives `None` and changes nothing.
pub fn ui_load_json(ui: &mut UiState, json: &str) -> (r: Option<Vec<u32>>)
    requires
        parsed_json(json@) matches Ok(v) ==> !has_max_id(v),
    ensures
        match parsed_json(json@) {
            Err(_) => r is None && ui_view(final(ui)) == ui_view(old(ui)),
            Ok(v) => {
                &&& ui_view(final(ui)) == load_outcome(ui_view(old(ui)), v).0
                &&& match r {
                    Some(ids) => load_outcome(ui_view(old(ui)), v).1 == Some(ids@),
                    None => load_outcome(ui_view(old(ui)), v).1 is None,
                }
            },
        },
{
    match parse_json(json) {
        Ok(v) => ui_load_value(ui, &v),
        Err(_) => None,
    }
}

/// Load a widget tree from JSON text when no description in it has the id
/// `u32::MAX` (the automatic numbering would overflow past it): `None`,
/// with nothing changed, for such a tree, else `Some` of what
/// [`ui_load_json`] gives.
pub fn ui_try_load_json(ui: &mut UiState, json: &str) -> (r: Option<Option<Vec<u32>>>)
    ensures
        r is None <==> (parsed_json(json@) matches Ok(v) && has_max_id(v)),
        r is None ==> ui_view(final(ui)) == ui_view(old(ui)),
        r matches Some(res) ==> match parsed_json(json@) {
            Err(_) => res is None && ui_view(final(ui)) == ui_view(old(ui)),
            Ok(v) => {
                &&& ui_view(final(ui)) == load_outcome(ui_view(old(ui)), v).0
                &&& match res {
                    Some(ids) => load_outcome(ui_view(old(ui)), v).1 == Some(ids@),
                    None => load_outcome(ui_view(old(ui)), v).1 is None,
                }
            },
        },
{
    match parse_json(json) {
        Ok(v) => {
            if has_max_id_exec(&v) {
                return None;
            }
        },
        Err(_) => {},
    }
    Some(ui_load_json(ui, json))
}

} // verus!
