//! Resource scarcity across stockpiles.
use vstd::prelude::*;

use crate::ecs::world::World;
use crate::json::{Json, JsonV};

verus! {

/// The integer amount of resource `kind` a stockpile value holds (0 when
/// absent or not an integer).
pub open spec fn stock_amount(v: JsonV, kind: Seq<char>) -> int {
    match v.get("resources"@) {
        Some(JsonV::Object(r)) => match JsonV::Object(r).int_at(kind) {
            Some(a) => a as int,
            None => 0,
        },
        _ => 0,
    }
}

/// The total amount of `kind` over stockpile entries.
pub open spec fn stock_total(entries: Seq<(u32, Json)>, kind: Seq<char>) -> int
    decreases entries.len(),
{
    if entries.len() == 0 {
        0
    } else {
        stock_total(entries.drop_last(), kind) + stock_amount(entries.last().1@, kind)
    }
}

/// The scarcity level of a total: 10 (none), 5 (below 10), 1 (below 100)
/// or 0.
pub open spec fn scarcity_of(total: int) -> u32 {
    if total <= 0 {
        10
    } else if total < 10 {
        5
    } else if total < 100 {
        1
    } else {
        0
    }
}

fn amount_of(v: &Json, kind: &str) -> (r: i64)
    ensures
        r == stock_amount(v@, kind@),
{
    match v.get("resources") {
        Some(r) => {
            if r.is_object() {
                match r.get_i64(kind) {
                    Some(a) => a,
                    None => 0,
                }
            } else {
                0
            }
        },
        None => 0,
    }
}

impl<H: Fn(&Json)> World<H> {
    /// The total integer amount of `kind` over all stockpiles.
    pub open spec fn stock_of(self, kind: Seq<char>) -> int {
        if self.components@.contains_key("Stockpile"@) {
            stock_total(self.components@["Stockpile"@].entries(), kind)
        } else {
            0
        }
    }

    /// How scarce resource `kind` is over all stockpiles (higher is
    /// scarcer): 10 when there is none, 5 below 10 units, 1 below 100,
    /// else 0. Amounts that are not integers do not count.
    pub fn resource_scarcity(&self, kind: &str) -> (r: u32)
        ensures
            r == scarcity_of(self.stock_of(kind@)),
    {
        let mut total: i128 = 0;
        match self.components.get(&String::from_str("Stockpile")) {
            Some(table) => {
                let n = table.len();
                let mut i: usize = 0;
                while i < n
                    invariant
                        i <= n,
                        n == table.entries().len(),
                        total == stock_total(table.entries().subrange(0, i as int), kind@),
                        -(i as int) * 0x8000_0000_0000_0000 <= total <= (i as int) * 0x8000_0000_0000_0000,
                    decreases n - i,
                {
                    assert(table.entries().subrange(0, i + 1).drop_last() =~= table.entries().subrange(0, i as int));
                    let a = amount_of(table.value_at(i), kind);
                    assert(i < 0x1_0000_0000_0000_0000);
                    total = total + a as i128;
                    i = i + 1;
                }
                assert(table.entries().subrange(0, n as int) =~= table.entries());
            },
            None => {},
        }
        if total <= 0 {
            10
        } else if total < 10 {
            5
        } else if total < 100 {
            1
        } else {
            0
        }
    }
}

} // verus!
