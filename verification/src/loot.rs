//! Loot tables: named lists of weighted entries, rolled by weighted-sum selection.
use vstd::prelude::*;

use crate::collections::KeyMap;
use rand::Rng;

verus! {

/// A weighted entry in a loot table.
#[derive(Debug)]
pub struct LootEntry {
    /// Item identifier string.
    pub item_id: String,
    /// Relative probability weight (0 means never selected).
    pub weight: u32,
    /// Minimum quantity to drop on selection.
    pub min_count: u32,
    /// Maximum quantity to drop on selection.
    pub max_count: u32,
}

/// Default quantity bound of an entry.
pub fn default_count() -> (r: u32)
    ensures
        r == 1,
{
    1
}

/// A named collection of loot entries.
#[derive(Debug)]
pub struct LootTable {
    /// Name of this loot table.
    pub name: String,
    /// Entries defining possible loot drops.
    pub entries: Vec<LootEntry>,
}

/// Errors from loot table operations.
#[derive(Debug)]
pub enum LootError {
    /// Roll on a table that was never defined.
    TableNotFound(String),
    /// Roll on a table with zero entries or all zero-weight entries.
    EmptyTable(String),
    /// Entry validation failure at define time.
    InvalidEntry(String),
}

impl LootError {
    /// The error's message.
    pub fn message(&self) -> (r: String)
        ensures
            self is TableNotFound ==> r@ == "loot table '"@ + self->TableNotFound_0@ + "' not found"@,
            self is EmptyTable ==> r@ == "loot table '"@ + self->EmptyTable_0@ + "' has no entries"@,
            self is InvalidEntry ==> r@ == "invalid loot entry: "@ + self->InvalidEntry_0@,
    {
        match self {
            LootError::TableNotFound(name) => {
                let mut s = String::from_str("loot table '");
                s.append(name.as_str());
                s.append("' not found");
                s
            },
            LootError::EmptyTable(name) => {
                let mut s = String::from_str("loot table '");
                s.append(name.as_str());
                s.append("' has no entries");
                s
            },
            LootError::InvalidEntry(msg) => {
                let mut s = String::from_str("invalid loot entry: ");
                s.append(msg.as_str());
                s
            },
        }
    }
}

/// What is wrong with an entry, if anything: zero weight, then a zero
/// count, then `min_count > max_count`.
pub open spec fn entry_problem(e: LootEntry) -> Option<Seq<char>> {
    if e.weight == 0 {
        Some("entry '"@ + e.item_id@ + "' has zero weight"@)
    } else if e.min_count == 0 || e.max_count == 0 {
        Some("entry '"@ + e.item_id@ + "' has zero count"@)
    } else if e.min_count > e.max_count {
        Some("entry '"@ + e.item_id@ + "' has min_count > max_count"@)
    } else {
        None
    }
}

/// An entry that `define_table` accepts.
pub open spec fn entry_valid(e: LootEntry) -> bool {
    entry_problem(e) is None
}

/// Sum of the weights of the first `k` entries.
pub open spec fn cum_weight(entries: Seq<LootEntry>, k: int) -> int
    decreases k,
{
    if k <= 0 {
        0
    } else {
        cum_weight(entries, k - 1) + entries[k - 1].weight
    }
}

proof fn lemma_cum_weight_mono(entries: Seq<LootEntry>, a: int, b: int)
    requires
        0 <= a <= b,
    ensures
        cum_weight(entries, a) <= cum_weight(entries, b),
    decreases b - a,
{
    if a < b {
        lemma_cum_weight_mono(entries, a, b - 1);
    }
}

proof fn lemma_cum_weight_bound(entries: Seq<LootEntry>, k: int)
    requires
        0 <= k,
    ensures
        0 <= cum_weight(entries, k) <= k * 0x1_0000_0000,
    decreases k,
{
    if k > 0 {
        lemma_cum_weight_bound(entries, k - 1);
    }
}

/// The entry a pick in `[0, total weight)` selects: the first whose
/// cumulative weight exceeds the pick.
pub open spec fn selects(entries: Seq<LootEntry>, pick: int, i: int) -> bool {
    0 <= i < entries.len() && cum_weight(entries, i) <= pick < cum_weight(entries, i + 1)
}

/// A uniformly random integer in `lo..=hi`, from the thread-local generator
/// of `rand` (`rand::rng().random_range(lo..=hi)`). Only the bounds are
/// promised: the value depends on the generator's state.
#[verifier::external_body]
fn random_in(lo: u128, hi: u128) -> (r: u128)
    requires
        lo <= hi,
    ensures
        lo <= r <= hi,
{
    rand::rng().random_range(lo..=hi)
}

proof fn lemma_cum_weight_fits(entries: Seq<LootEntry>, k: int)
    requires
        0 <= k <= usize::MAX,
    ensures
        0 <= cum_weight(entries, k) < 0x1_0000_0000_0000_0000_0000_0000,
{
    lemma_cum_weight_bound(entries, k);
    assert(k * 0x1_0000_0000 <= 0xffff_ffff_ffff_ffff * 0x1_0000_0000) by (nonlinear_arith)
        requires
            0 <= k <= 0xffff_ffff_ffff_ffff,
    ;
}

/// Index of the entry selected by `pick` in a weighted-sum walk, if any.
pub fn select_entry(entries: &Vec<LootEntry>, pick: u128) -> (r: Option<usize>)
    ensures
        r matches Some(i) ==> selects(entries@, pick as int, i as int),
        r is None ==> cum_weight(entries@, entries@.len() as int) <= pick,
{
    let mut cumulative: u128 = 0;
    let mut i: usize = 0;
    while i < entries.len()
        invariant
            i <= entries.len(),
            cumulative == cum_weight(entries@, i as int),
            cumulative <= pick,
        decreases entries.len() - i,
    {
        proof {
            lemma_cum_weight_fits(entries@, i as int + 1);
        }
        cumulative = cumulative + entries[i].weight as u128;
        if pick < cumulative {
            return Some(i);
        }
        i = i + 1;
    }
    None
}

/// A pick selects at most one entry.
pub proof fn lemma_selects_unique(entries: Seq<LootEntry>, pick: int, i: int, j: int)
    requires
        selects(entries, pick, i),
        selects(entries, pick, j),
    ensures
        i == j,
{
    if i < j {
        lemma_cum_weight_mono(entries, i + 1, j);
    } else if j < i {
        lemma_cum_weight_mono(entries, j + 1, i);
    }
}

/// The count of a drop of `e`, given a draw from `min_count..=max_count`
/// (the draw matters only when that range has more than one value).
pub open spec fn drop_count(e: LootEntry, draw: u32) -> u32 {
    if e.min_count < e.max_count { draw } else { e.min_count }
}

/// The drop a roll gives for a pick in `[0, total weight)` and a count
/// draw: the item of the entry the pick selects, with its count; `None`
/// when the pick is past the total weight.
pub fn roll_drop(entries: &Vec<LootEntry>, pick: u128, draw: u32) -> (r: Option<(String, u32)>)
    ensures
        r is None <==> cum_weight(entries@, entries@.len() as int) <= pick,
        r matches Some(d) ==> exists|i: int| #[trigger] selects(entries@, pick as int, i)
            && d.0@ == entries@[i].item_id@ && d.1 == drop_count(entries@[i], draw),
{
    match select_entry(entries, pick) {
        Some(k) => {
            let e = &entries[k];
            let count = if e.min_count < e.max_count { draw } else { e.min_count };
            proof {
                lemma_cum_weight_mono(entries@, k as int + 1, entries@.len() as int);
            }
            Some((e.item_id.clone(), count))
        },
        None => None,
    }
}

/// Registry holding all defined loot tables.
pub struct LootTableRegistry {
    tables: KeyMap<String, LootTable>,
}

impl LootTableRegistry {
    /// The defined tables, by name.
    pub closed spec fn tables(self) -> Map<Seq<char>, LootTable> {
        self.tables@
    }

    /// Every entry of every stored table is valid: positive weight and
    /// counts, and `min_count <= max_count`.
    #[verifier::type_invariant]
    spec fn stored_entries_valid(self) -> bool {
        forall|n: Seq<char>, i: int| #[trigger] self.tables@.contains_key(n) && 0 <= i < self.tables@[n].entries@.len()
            ==> entry_valid(#[trigger] self.tables@[n].entries@[i])
    }

    /// Create a new empty registry.
    pub fn new() -> (r: Self)
        ensures
            r.tables() == Map::<Seq<char>, LootTable>::empty(),
    {
        LootTableRegistry { tables: KeyMap::new() }
    }

    /// Define or replace a named loot table.
    ///
    /// Each entry must have `weight > 0`, `min_count > 0`, `max_count > 0`
    /// and `min_count <= max_count`; the first entry that does not is
    /// reported and nothing changes.
    pub fn define_table(&mut self, name: &str, entries: Vec<LootEntry>) -> (r: Result<(), LootError>)
        ensures
            r is Ok <==> forall|i: int| 0 <= i < entries.len() ==> entry_valid(#[trigger] entries@[i]),
            r is Ok ==> final(self).tables() == old(self).tables().insert(
                name@,
                LootTable { name: final(self).tables()[name@].name, entries },
            ) && final(self).tables()[name@].name@ == name@,
            r matches Err(e) ==> final(self).tables() == old(self).tables() && exists|i: int|
                0 <= i < entries.len() && (forall|j: int| 0 <= j < i ==> entry_valid(#[trigger] entries@[j]))
                    && e == LootError::InvalidEntry(e->InvalidEntry_0) && entry_problem(entries@[i]) == Some(
                    e->InvalidEntry_0@,
                ),
    {
        let mut i: usize = 0;
        while i < entries.len()
            invariant
                i <= entries.len(),
                forall|j: int| 0 <= j < i ==> entry_valid(#[trigger] entries@[j]),
            decreases entries.len() - i,
        {
            let entry = &entries[i];
            if entry.weight == 0 {
                let mut msg = String::from_str("entry '");
                msg.append(entry.item_id.as_str());
                msg.append("' has zero weight");
                return Err(LootError::InvalidEntry(msg));
            }
            if entry.min_count == 0 || entry.max_count == 0 {
                let mut msg = String::from_str("entry '");
                msg.append(entry.item_id.as_str());
                msg.append("' has zero count");
                return Err(LootError::InvalidEntry(msg));
            }
            if entry.min_count > entry.max_count {
                let mut msg = String::from_str("entry '");
                msg.append(entry.item_id.as_str());
                msg.append("' has min_count > max_count");
                return Err(LootError::InvalidEntry(msg));
            }
            i = i + 1;
        }
        let table = LootTable { name: String::from_str(name), entries };
        proof {
            use_type_invariant(&*self);
        }
        let mut tables: KeyMap<String, LootTable> = KeyMap::new();
        std::mem::swap(&mut tables, &mut self.tables);
        tables.insert(String::from_str(name), table);
        self.tables = tables;
        Ok(())
    }

    /// Roll on a named loot table using weighted-sum selection.
    ///
    /// Sums all entry weights, picks a random number in `[0, total_weight)`,
    /// and returns the entry whose cumulative weight range contains the pick,
    /// with a random count in `min_count..=max_count`. Exactly one entry is
    /// returned per roll.
    pub fn roll(&self, name: &str) -> (r: Result<Vec<(String, u32)>, LootError>)
        ensures
            !self.tables().contains_key(name@) <==> r matches Err(LootError::TableNotFound(n)),
            r matches Err(LootError::TableNotFound(n)) ==> n@ == name@,
            r matches Err(LootError::EmptyTable(n)) ==> n@ == name@,
            (r matches Err(LootError::EmptyTable(_))) <==> self.tables().contains_key(name@) && cum_weight(
                self.tables()[name@].entries@,
                self.tables()[name@].entries@.len() as int,
            ) == 0,
            !(r matches Err(LootError::InvalidEntry(_))),
            r matches Ok(v) ==> v.len() == 1 && exists|pick: int, i: int|
                0 <= pick < cum_weight(self.tables()[name@].entries@, self.tables()[name@].entries@.len() as int)
                && #[trigger] selects(self.tables()[name@].entries@, pick, i) && {
                    let e = self.tables()[name@].entries@[i];
                    &&& v@[0].0@ == e.item_id@
                    &&& e.min_count <= v@[0].1 <= e.max_count
                },
    {
        proof {
            use_type_invariant(self);
        }
        let key = String::from_str(name);
        let table = match self.tables.get(&key) {
            Some(t) => t,
            None => {
                return Err(LootError::TableNotFound(String::from_str(name)));
            },
        };
        if table.entries.len() == 0 {
            return Err(LootError::EmptyTable(String::from_str(name)));
        }
        let mut total: u128 = 0;
        let mut i: usize = 0;
        while i < table.entries.len()
            invariant
                i <= table.entries.len(),
                total == cum_weight(table.entries@, i as int),
            decreases table.entries.len() - i,
        {
            proof {
                lemma_cum_weight_fits(table.entries@, i as int + 1);
            }
            total = total + table.entries[i].weight as u128;
            i = i + 1;
        }
        if total == 0 {
            return Err(LootError::EmptyTable(String::from_str(name)));
        }
        let pick = random_in(0, total - 1);
        let sel = select_entry(&table.entries, pick);
        let draw: u32 = match sel {
            Some(k) => {
                let e = &table.entries[k];
                if e.min_count < e.max_count {
                    random_in(e.min_count as u128, e.max_count as u128) as u32
                } else {
                    e.min_count
                }
            },
            None => 0,
        };
        match roll_drop(&table.entries, pick, draw) {
            Some(d) => {
                proof {
                    let i = choose|i: int| #[trigger] selects(table.entries@, pick as int, i)
                        && d.0@ == table.entries@[i].item_id@ && d.1 == drop_count(table.entries@[i], draw);
                    match sel {
                        Some(k) => {
                            lemma_selects_unique(table.entries@, pick as int, i, k as int);
                        },
                        None => {
                            lemma_cum_weight_mono(table.entries@, i + 1, table.entries@.len() as int);
                        },
                    }
                    assert(selects(self.tables()[name@].entries@, pick as int, i));
                }
                let mut out: Vec<(String, u32)> = Vec::new();
                out.push(d);
                assert(out@[0] == d);
                Ok(out)
            },
            None => Err(LootError::EmptyTable(String::from_str(name))),
        }
    }

    /// Check if a table with the given name exists.
    pub fn has_table(&self, name: &str) -> (r: bool)
        ensures
            r == self.tables().contains_key(name@),
    {
        self.tables.contains_key(&String::from_str(name))
    }

    /// Return the names of all defined tables.
    pub fn table_names(&self) -> (r: Vec<String>)
        ensures
            r.len() == self.tables().len(),
            forall|i: int| 0 <= i < r.len() ==> self.tables().contains_key(#[trigger] r@[i]@),
            forall|n: Seq<char>| self.tables().contains_key(n) ==> exists|i: int| 0 <= i < r.len() && #[trigger] r@[i]@ == n,
            forall|i: int, j: int| 0 <= i < r@.len() && 0 <= j < r@.len() && i != j ==> r@[i]@ != r@[j]@,
    {
        let r = self.tables.keys();
        proof {
            assert forall|n: Seq<char>| self.tables().contains_key(n) implies exists|i: int|
                0 <= i < r.len() && #[trigger] r@[i]@ == n by {
                let j = choose|j: int| 0 <= j < self.tables.entries().len() && #[trigger] self.tables.entries()[j].0@ == n;
                assert(r@[j]@ == n);
            }
            assert forall|i: int| 0 <= i < r.len() implies self.tables().contains_key(#[trigger] r@[i]@) by {
                assert(self.tables.entries()[i].0@ == r@[i]@);
            }
        }
        r
    }

    /// Remove a table from the registry.
    pub fn remove_table(&mut self, name: &str)
        ensures
            final(self).tables() == old(self).tables().remove(name@),
    {
        proof {
            use_type_invariant(&*self);
        }
        let mut tables: KeyMap<String, LootTable> = KeyMap::new();
        std::mem::swap(&mut tables, &mut self.tables);
        tables.remove(&String::from_str(name));
        self.tables = tables;
    }
}

/// A table defined with valid entries can be rolled, and the roll yields one
/// of its entries.
pub proof fn law_defined_table_rolls(reg: LootTableRegistry, name: Seq<char>)
    requires
        reg.tables().contains_key(name),
        reg.tables()[name].entries@.len() > 0,
        forall|i: int| 0 <= i < reg.tables()[name].entries@.len() ==> entry_valid(#[trigger] reg.tables()[name].entries@[i]),
    ensures
        cum_weight(reg.tables()[name].entries@, reg.tables()[name].entries@.len() as int) > 0,
{
    let e = reg.tables()[name].entries@;
    assert(entry_valid(e[0]));
    assert(cum_weight(e, 0) == 0);
    assert(cum_weight(e, 1) == e[0].weight);
    lemma_cum_weight_mono(e, 1, e.len() as int);
}

} // verus!
