//! Cell adjacency tables shared by the square, hex and region maps.
use vstd::prelude::*;

use crate::collections::{KeyMap, KeySet};
use crate::json::{deep_merge, merge_json, Json, JsonV};
use crate::map::cell_key::{CellKey, CellKeyV};

verus! {

/// Adjacency table: cell -> set of neighbor cells.
pub type CellTable = KeyMap<CellKey, KeySet<CellKey>>;

/// Per-cell metadata table.
pub type MetaTable = KeyMap<CellKey, Json>;

/// Neighbor set of `c` in an adjacency table view (empty when absent).
pub open spec fn nbr_set(cells: Map<CellKeyV, KeySet<CellKey>>, c: CellKeyV) -> Set<CellKeyV> {
    if cells.contains_key(c) {
        cells[c]@
    } else {
        Set::empty()
    }
}

/// Metadata view of `c` (None when absent).
pub open spec fn meta_of(meta: Map<CellKeyV, Json>, c: CellKeyV) -> Option<JsonV> {
    if meta.contains_key(c) {
        Some(meta[c]@)
    } else {
        None
    }
}

/// Whether `c` lets sight through: cells whose metadata holds
/// `"transparent": false` are opaque; any other cell is transparent.
pub open spec fn transparent_in(meta: Map<CellKeyV, Json>, c: CellKeyV) -> bool {
    match meta_of(meta, c) {
        Some(m) => match m.bool_at("transparent"@) {
            Some(b) => b,
            None => true,
        },
        None => true,
    }
}

/// Make sure `cell` has an entry (an empty neighbor set when new).
pub fn ensure_cell(cells: &mut CellTable, cell: CellKey)
    ensures
        final(cells)@.dom() == old(cells)@.dom().insert(cell@),
        forall|c: CellKeyV| #[trigger] nbr_set(final(cells)@, c) == nbr_set(old(cells)@, c),
{
    if !cells.contains_key(&cell) {
        let ghost k = cell@;
        cells.insert(cell, KeySet::new());
        assert forall|c: CellKeyV| #[trigger] nbr_set(cells@, c) == nbr_set(old(cells)@, c) by {
            if c == k {
                assert(nbr_set(cells@, c) =~= Set::<CellKeyV>::empty());
            }
        }
        assert(cells@.dom() =~= old(cells)@.dom().insert(k));
    } else {
        assert(old(cells)@.dom().insert(cell@) =~= old(cells)@.dom());
    }
}

/// Add `to` to the neighbor set of `from` (creating `from` when absent).
pub fn add_edge(cells: &mut CellTable, from: CellKey, to: CellKey)
    ensures
        final(cells)@.dom() == old(cells)@.dom().insert(from@),
        nbr_set(final(cells)@, from@) == nbr_set(old(cells)@, from@).insert(to@),
        forall|c: CellKeyV| c != from@ ==> #[trigger] nbr_set(final(cells)@, c) == nbr_set(old(cells)@, c),
{
    let ghost f = from@;
    let mut set = match cells.remove(&from) {
        Some(s) => s,
        None => KeySet::new(),
    };
    assert(set@ == nbr_set(old(cells)@, f));
    set.insert(to);
    cells.insert(from, set);
    assert(cells@.dom() =~= old(cells)@.dom().insert(f));
}

/// Add every cell of `nbrs` to the neighbor set of `from`.
pub fn add_edges(cells: &mut CellTable, from: &CellKey, nbrs: &KeySet<CellKey>)
    ensures
        final(cells)@.dom() == old(cells)@.dom().insert(from@),
        nbr_set(final(cells)@, from@) == nbr_set(old(cells)@, from@).union(nbrs@),
        forall|c: CellKeyV| c != from@ ==> #[trigger] nbr_set(final(cells)@, c) == nbr_set(old(cells)@, c),
{
    let list = nbrs.to_vec();
    ensure_cell(cells, from.copy_key());
    let mut i: usize = 0;
    while i < list.len()
        invariant
            i <= list.len(),
            list.len() == nbrs.items().len(),
            forall|j: int| 0 <= j < list.len() ==> list@[j]@ == nbrs.items()[j]@,
            cells@.dom() == old(cells)@.dom().insert(from@),
            nbr_set(cells@, from@) == nbr_set(old(cells)@, from@).union(
                Set::new(|x: CellKeyV| exists|j: int| 0 <= j < i && #[trigger] nbrs.items()[j]@ == x),
            ),
            forall|c: CellKeyV| c != from@ ==> #[trigger] nbr_set(cells@, c) == nbr_set(old(cells)@, c),
        decreases list.len() - i,
    {
        let ghost before = nbr_set(cells@, from@);
        add_edge(cells, from.copy_key(), list[i].copy_key());
        proof {
            let s_old = Set::new(|x: CellKeyV| exists|j: int| 0 <= j < i && #[trigger] nbrs.items()[j]@ == x);
            let s_new = Set::new(|x: CellKeyV| exists|j: int| 0 <= j < i + 1 && #[trigger] nbrs.items()[j]@ == x);
            assert(s_new =~= s_old.insert(nbrs.items()[i as int]@)) by {
                assert forall|x: CellKeyV| s_new.contains(x) implies s_old.insert(nbrs.items()[i as int]@).contains(x) by {
                    let j = choose|j: int| 0 <= j < i + 1 && #[trigger] nbrs.items()[j]@ == x;
                    if j < i {
                        assert(s_old.contains(x));
                    }
                }
                assert forall|x: CellKeyV| s_old.insert(nbrs.items()[i as int]@).contains(x) implies s_new.contains(x) by {
                    if x == nbrs.items()[i as int]@ {
                    } else {
                        let j = choose|j: int| 0 <= j < i && #[trigger] nbrs.items()[j]@ == x;
                    }
                }
            }
            assert(nbr_set(cells@, from@) =~= nbr_set(old(cells)@, from@).union(s_new));
        }
        i = i + 1;
    }
    proof {
        let s_all = Set::new(|x: CellKeyV| exists|j: int| 0 <= j < list.len() && #[trigger] nbrs.items()[j]@ == x);
        assert(s_all =~= nbrs@);
    }
}

/// Store `data` as the metadata of `cell`.
pub fn set_meta(meta: &mut MetaTable, cell: CellKey, data: Json)
    ensures
        final(meta)@ == old(meta)@.insert(cell@, data),
{
    meta.insert(cell, data);
}

/// Merge `patch` into the metadata of `cell`: a deep merge into existing
/// metadata, or `patch` itself when there is none.
pub fn merge_meta(meta: &mut MetaTable, cell: CellKey, patch: Json)
    ensures
        final(meta)@.dom() == old(meta)@.dom().insert(cell@),
        meta_of(final(meta)@, cell@) == Some(
            match meta_of(old(meta)@, cell@) {
                Some(e) => deep_merge(e, patch@),
                None => patch@,
            },
        ),
        forall|c: CellKeyV| c != cell@ ==> #[trigger] meta_of(final(meta)@, c) == meta_of(old(meta)@, c),
        forall|c: CellKeyV| c != cell@ && #[trigger] old(meta)@.contains_key(c) ==> final(meta)@[c] == old(meta)@[c],
{
    let merged = match meta.get(&cell) {
        Some(existing) => merge_json(existing, &patch),
        None => patch,
    };
    meta.insert(cell, merged);
}

/// Copy into `dst` the entries of `src` for cells that `dst` lacks.
pub fn merge_meta_tables(dst: &mut MetaTable, src: &MetaTable)
    ensures
        final(dst)@.dom() == old(dst)@.dom().union(src@.dom()),
        forall|c: CellKeyV| #[trigger] old(dst)@.contains_key(c) ==> final(dst)@[c] == old(dst)@[c],
        forall|c: CellKeyV|
            #[trigger] src@.contains_key(c) && !old(dst)@.contains_key(c) ==> final(dst)@[c]@ == src@[c]@,
{
    let keys = src.keys();
    let mut i: usize = 0;
    while i < keys.len()
        invariant
            i <= keys.len(),
            keys.len() == src.entries().len(),
            forall|j: int| 0 <= j < keys.len() ==> keys@[j]@ == src.entries()[j].0@,
            dst@.dom() == old(dst)@.dom().union(
                Set::new(|x: CellKeyV| exists|j: int| 0 <= j < i && #[trigger] src.entries()[j].0@ == x),
            ),
            forall|c: CellKeyV| #[trigger] old(dst)@.contains_key(c) ==> dst@[c] == old(dst)@[c],
            forall|c: CellKeyV|
                #[trigger] dst@.contains_key(c) && !old(dst)@.contains_key(c) ==> src@.contains_key(c) && dst@[c]@
                    == src@[c]@,
        decreases keys.len() - i,
    {
        let ghost s_old = Set::new(|x: CellKeyV| exists|j: int| 0 <= j < i && #[trigger] src.entries()[j].0@ == x);
        let ghost s_new = Set::new(|x: CellKeyV| exists|j: int| 0 <= j < i + 1 && #[trigger] src.entries()[j].0@ == x);
        let ghost k = keys@[i as int]@;
        proof {
            assert(s_new =~= s_old.insert(k)) by {
                assert forall|x: CellKeyV| s_new.contains(x) implies s_old.insert(k).contains(x) by {
                    let j = choose|j: int| 0 <= j < i + 1 && #[trigger] src.entries()[j].0@ == x;
                    if j < i {
                        assert(s_old.contains(x));
                    }
                }
                assert forall|x: CellKeyV| s_old.insert(k).contains(x) implies s_new.contains(x) by {
                    if x == k {
                        assert(src.entries()[i as int].0@ == x);
                    } else {
                        let j = choose|j: int| 0 <= j < i && #[trigger] src.entries()[j].0@ == x;
                    }
                }
            }
            assert(src@.contains_key(k)) by {
                assert(src.entries()[i as int].0@ == k);
            }
        }
        if !dst.contains_key(&keys[i]) {
            match src.get(&keys[i]) {
                Some(v) => {
                    dst.insert(keys[i].copy_key(), v.deep_clone());
                },
                None => {},
            }
        }
        proof {
            assert(dst@.dom() =~= old(dst)@.dom().union(s_new));
        }
        i = i + 1;
    }
    proof {
        let s_all = Set::new(|x: CellKeyV| exists|j: int| 0 <= j < keys.len() && #[trigger] src.entries()[j].0@ == x);
        assert(s_all =~= src@.dom()) by {
            assert forall|x: CellKeyV| src@.dom().contains(x) implies s_all.contains(x) by {
                let j = choose|j: int| 0 <= j < src.entries().len() && #[trigger] src.entries()[j].0@ == x;
            }
        }
    }
}

/// Merge every adjacency entry of `src` into `dst` (neighbor sets are united).
pub fn merge_cell_tables(dst: &mut CellTable, src: &CellTable)
    ensures
        final(dst)@.dom() == old(dst)@.dom().union(src@.dom()),
        forall|c: CellKeyV| #[trigger] nbr_set(final(dst)@, c) == nbr_set(old(dst)@, c).union(nbr_set(src@, c)),
{
    let mut i: usize = 0;
    let n = src.len();
    while i < n
        invariant
            i <= n,
            n == src.entries().len(),
            dst@.dom() == old(dst)@.dom().union(
                Set::new(|x: CellKeyV| exists|j: int| 0 <= j < i && #[trigger] src.entries()[j].0@ == x),
            ),
            forall|c: CellKeyV|
                #[trigger] nbr_set(dst@, c) == nbr_set(old(dst)@, c).union(
                    if (exists|j: int| 0 <= j < i && #[trigger] src.entries()[j].0@ == c) {
                        nbr_set(src@, c)
                    } else {
                        Set::empty()
                    },
                ),
        decreases n - i,
    {
        let key = src.key_at(i);
        let set = src.value_at(i);
        let ghost k = key@;
        let ghost before = dst@;
        add_edges(dst, key, set);
        proof {
            let s_old = Set::new(|x: CellKeyV| exists|j: int| 0 <= j < i && #[trigger] src.entries()[j].0@ == x);
            let s_new = Set::new(|x: CellKeyV| exists|j: int| 0 <= j < i + 1 && #[trigger] src.entries()[j].0@ == x);
            assert(s_new =~= s_old.insert(k)) by {
                assert forall|x: CellKeyV| s_new.contains(x) implies s_old.insert(k).contains(x) by {
                    let j = choose|j: int| 0 <= j < i + 1 && #[trigger] src.entries()[j].0@ == x;
                    if j < i {
                        assert(s_old.contains(x));
                    }
                }
                assert forall|x: CellKeyV| s_old.insert(k).contains(x) implies s_new.contains(x) by {
                    if x == k {
                        assert(src.entries()[i as int].0@ == x);
                    } else {
                        let j = choose|j: int| 0 <= j < i && #[trigger] src.entries()[j].0@ == x;
                    }
                }
            }
            assert(dst@.dom() =~= old(dst)@.dom().union(s_new));
            assert forall|c: CellKeyV|
                #[trigger] nbr_set(dst@, c) == nbr_set(old(dst)@, c).union(
                    if (exists|j: int| 0 <= j < i + 1 && #[trigger] src.entries()[j].0@ == c) {
                        nbr_set(src@, c)
                    } else {
                        Set::empty()
                    },
                ) by {
                if c == k {
                    assert(src.entries()[i as int].0@ == c);
                    if exists|j: int| 0 <= j < i && #[trigger] src.entries()[j].0@ == c {
                        let j = choose|j: int| 0 <= j < i && #[trigger] src.entries()[j].0@ == c;
                        assert(src.entries()[j].0@ != c);
                    }
                    assert(nbr_set(dst@, c) =~= nbr_set(old(dst)@, c).union(nbr_set(src@, c)));
                } else {
                    if exists|j: int| 0 <= j < i + 1 && #[trigger] src.entries()[j].0@ == c {
                        let j = choose|j: int| 0 <= j < i + 1 && #[trigger] src.entries()[j].0@ == c;
                        assert(j < i);
                    }
                }
            }
        }
        i = i + 1;
    }
    proof {
        assert forall|c: CellKeyV| #[trigger] nbr_set(dst@, c) == nbr_set(old(dst)@, c).union(nbr_set(src@, c)) by {
            if exists|j: int| 0 <= j < n && #[trigger] src.entries()[j].0@ == c {
            } else {
                assert(!src@.contains_key(c));
                assert(nbr_set(old(dst)@, c).union(Set::empty()) =~= nbr_set(old(dst)@, c));
                assert(nbr_set(old(dst)@, c).union(nbr_set(src@, c)) =~= nbr_set(old(dst)@, c));
            }
        }
        let s_all = Set::new(|x: CellKeyV| exists|j: int| 0 <= j < n && #[trigger] src.entries()[j].0@ == x);
        assert(s_all =~= src@.dom());
    }
}

/// The neighbor cells of `cell` listed in the table (empty when absent).
pub fn neighbor_list(cells: &CellTable, cell: &CellKey) -> (r: Vec<CellKey>)
    ensures
        forall|i: int| 0 <= i < r.len() ==> nbr_set(cells@, cell@).contains(#[trigger] r@[i]@),
        forall|c: CellKeyV| nbr_set(cells@, cell@).contains(c) ==> exists|i: int| 0 <= i < r.len() && #[trigger] r@[i]@ == c,
        r.len() == nbr_set(cells@, cell@).len(),
{
    match cells.get(cell) {
        Some(set) => {
            set.to_vec()
        },
        None => {
            assert(nbr_set(cells@, cell@) =~= Set::<CellKeyV>::empty());
            Vec::new()
        },
    }
}

/// All cells of the table.
pub fn cell_list(cells: &CellTable) -> (r: Vec<CellKey>)
    ensures
        forall|i: int| 0 <= i < r.len() ==> cells@.contains_key(#[trigger] r@[i]@),
        forall|c: CellKeyV| cells@.contains_key(c) ==> exists|i: int| 0 <= i < r.len() && #[trigger] r@[i]@ == c,
        r.len() == cells@.len(),
{
    let r = cells.keys();
    proof {
        assert forall|c: CellKeyV| cells@.contains_key(c) implies exists|i: int| 0 <= i < r.len() && #[trigger] r@[i]@ == c by {
            let j = choose|j: int| 0 <= j < cells.entries().len() && #[trigger] cells.entries()[j].0@ == c;
            assert(r@[j]@ == c);
        }
    }
    r
}

} // verus!
