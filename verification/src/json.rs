//! A JSON document model used for component data, cell metadata and events.
//!
//! Numbers that fit an `i64` are held as `Int`, larger unsigned integers as
//! `UInt`, and all other numbers by their JSON text (`Float`), so fractional
//! values travel through the engine unchanged.
//! Object entries keep their insertion order; a lookup takes the first entry
//! whose key matches, and storing under an existing key replaces that entry
//! in place.
use vstd::prelude::*;

verus! {

broadcast use vstd::std_specs::vec::group_vec_axioms;

/// A JSON value.
#[derive(Debug, PartialEq)]
pub enum Json {
    /// `null`
    Null,
    /// `true` / `false`
    Bool(bool),
    /// An integer in the `i64` range.
    Int(i64),
    /// A non-negative integer above `i64::MAX`.
    UInt(u64),
    /// Any other number, held as its JSON text.
    Float(String),
    /// A string.
    Str(String),
    /// An array.
    Array(Vec<Json>),
    /// An object, as a list of (key, value) entries.
    Object(Vec<(String, Json)>),
}

/// Mathematical view of a [`Json`] value.
pub enum JsonV {
    Null,
    Bool(bool),
    Int(i64),
    UInt(u64),
    Float(Seq<char>),
    Str(Seq<char>),
    Array(Seq<JsonV>),
    Object(Seq<(Seq<char>, JsonV)>),
}

/// View of a [`Json`] value.
pub open spec fn json_view(j: &Json) -> JsonV
    decreases j, 1int,
{
    match j {
        Json::Null => JsonV::Null,
        Json::Bool(b) => JsonV::Bool(*b),
        Json::Int(n) => JsonV::Int(*n),
        Json::UInt(n) => JsonV::UInt(*n),
        Json::Float(n) => JsonV::Float(n@),
        Json::Str(s) => JsonV::Str(s@),
        Json::Array(v) => JsonV::Array(items_view(v)),
        Json::Object(v) => JsonV::Object(entries_view(v)),
    }
}

/// View of an array's items.
pub open spec fn items_view(v: &Vec<Json>) -> Seq<JsonV>
    decreases v, 0int,
{
    Seq::new(v.len() as nat, |i: int| if 0 <= i < v.len() { json_view(&v[i]) } else { JsonV::Null })
}

/// View of an object's entries.
pub open spec fn entries_view(v: &Vec<(String, Json)>) -> Seq<(Seq<char>, JsonV)>
    decreases v, 0int,
{
    Seq::new(
        v.len() as nat,
        |i: int| if 0 <= i < v.len() { (v[i].0@, json_view(&v[i].1)) } else { (Seq::<char>::empty(), JsonV::Null) },
    )
}

impl View for Json {
    type V = JsonV;

    open spec fn view(&self) -> JsonV {
        json_view(self)
    }
}

/// Index of the first entry with key `key`, or the length when there is none.
pub open spec fn entry_index(e: Seq<(Seq<char>, JsonV)>, key: Seq<char>) -> int
    decreases e.len(),
{
    if e.len() == 0 {
        0
    } else if e[0].0 == key {
        0
    } else {
        1 + entry_index(e.drop_first(), key)
    }
}

/// First value stored under `key`.
pub open spec fn entry_get(e: Seq<(Seq<char>, JsonV)>, key: Seq<char>) -> Option<JsonV> {
    let i = entry_index(e, key);
    if i < e.len() {
        Some(e[i].1)
    } else {
        None
    }
}

/// Entries after storing `value` under `key` (first entry replaced, or appended).
pub open spec fn entry_insert(e: Seq<(Seq<char>, JsonV)>, key: Seq<char>, value: JsonV) -> Seq<(Seq<char>, JsonV)> {
    let i = entry_index(e, key);
    if i < e.len() {
        e.update(i, (key, value))
    } else {
        e.push((key, value))
    }
}

/// `entry_index` is the first index carrying `key`.
pub proof fn lemma_entry_index(e: Seq<(Seq<char>, JsonV)>, key: Seq<char>)
    ensures
        0 <= entry_index(e, key) <= e.len(),
        forall|j: int| 0 <= j < entry_index(e, key) ==> e[j].0 != key,
        entry_index(e, key) < e.len() ==> e[entry_index(e, key)].0 == key,
    decreases e.len(),
{
    if e.len() > 0 && e[0].0 != key {
        let rest = e.drop_first();
        lemma_entry_index(rest, key);
        assert forall|j: int| 0 <= j < entry_index(e, key) implies e[j].0 != key by {
            if j > 0 {
                assert(e[j] == rest[j - 1]);
            }
        }
    }
}

/// A left-to-right scan that stops at `i` finds the first index.
pub proof fn lemma_entry_index_at(e: Seq<(Seq<char>, JsonV)>, key: Seq<char>, i: int)
    requires
        0 <= i <= e.len(),
        i < e.len() ==> e[i].0 == key,
        forall|j: int| 0 <= j < i ==> e[j].0 != key,
    ensures
        entry_index(e, key) == i,
    decreases i,
{
    if i > 0 {
        let rest = e.drop_first();
        assert forall|j: int| 0 <= j < i - 1 implies rest[j].0 != key by {
            assert(rest[j] == e[j + 1]);
        }
        lemma_entry_index_at(rest, key, i - 1);
    }
}

/// Looking up a key after an insert.
pub proof fn lemma_entry_insert_get(e: Seq<(Seq<char>, JsonV)>, key: Seq<char>, value: JsonV, other: Seq<char>)
    ensures
        entry_get(entry_insert(e, key, value), key) == Some(value),
        other != key ==> entry_get(entry_insert(e, key, value), other) == entry_get(e, other),
{
    let r = entry_insert(e, key, value);
    let i = entry_index(e, key);
    lemma_entry_index(e, key);
    lemma_entry_index(e, other);
    lemma_entry_index_at(r, key, i);
    if other != key {
        let o = entry_index(e, other);
        if o < e.len() {
            lemma_entry_index_at(r, other, o);
        } else {
            if i < e.len() {
                lemma_entry_index_at(r, other, r.len() as int);
            } else {
                lemma_entry_index_at(r, other, r.len() as int);
            }
        }
    }
}

/// Deep merge of `patch` into `existing`: when both are objects, every key of
/// `patch` is merged recursively into the value stored under it and keys that
/// `patch` lacks are kept; otherwise `patch` replaces `existing`.
pub open spec fn deep_merge(existing: JsonV, patch: JsonV) -> JsonV
    decreases patch, 1int,
{
    match (existing, patch) {
        (JsonV::Object(base), JsonV::Object(p)) => JsonV::Object(merge_entries(base, p)),
        _ => patch,
    }
}

/// The patch entries folded into `base` from first to last.
pub open spec fn merge_entries(base: Seq<(Seq<char>, JsonV)>, patch: Seq<(Seq<char>, JsonV)>) -> Seq<(Seq<char>, JsonV)>
    decreases patch, 0int,
{
    if patch.len() == 0 {
        base
    } else {
        let prev = merge_entries(base, patch.drop_last());
        let k = patch.last().0;
        let v = patch.last().1;
        let merged = match entry_get(prev, k) {
            Some(e) => deep_merge(e, v),
            None => v,
        };
        entry_insert(prev, k, merged)
    }
}

impl JsonV {
    pub open spec fn get(self, key: Seq<char>) -> Option<JsonV> {
        match self {
            JsonV::Object(e) => entry_get(e, key),
            _ => None,
        }
    }

    /// `self` with `value` stored under `key` (objects only).
    pub open spec fn insert(self, key: Seq<char>, value: JsonV) -> JsonV {
        match self {
            JsonV::Object(e) => JsonV::Object(entry_insert(e, key, value)),
            _ => self,
        }
    }

    pub open spec fn as_str(self) -> Option<Seq<char>> {
        match self {
            JsonV::Str(s) => Some(s),
            _ => None,
        }
    }

    pub open spec fn as_i64(self) -> Option<i64> {
        match self {
            JsonV::Int(n) => Some(n),
            _ => None,
        }
    }

    pub open spec fn as_bool(self) -> Option<bool> {
        match self {
            JsonV::Bool(b) => Some(b),
            _ => None,
        }
    }

    /// The string under `key`, when present and a string.
    pub open spec fn str_at(self, key: Seq<char>) -> Option<Seq<char>> {
        match self.get(key) {
            Some(v) => v.as_str(),
            None => None,
        }
    }

    /// The integer under `key`, when present and an `i64`.
    pub open spec fn int_at(self, key: Seq<char>) -> Option<i64> {
        match self.get(key) {
            Some(v) => v.as_i64(),
            None => None,
        }
    }

    /// The boolean under `key`, when present and a boolean.
    pub open spec fn bool_at(self, key: Seq<char>) -> Option<bool> {
        match self.get(key) {
            Some(v) => v.as_bool(),
            None => None,
        }
    }

    /// The value under `key` with the value under `inner` inside it.
    pub open spec fn get2(self, key: Seq<char>, inner: Seq<char>) -> Option<JsonV> {
        match self.get(key) {
            Some(v) => v.get(inner),
            None => None,
        }
    }
}

impl Json {
    /// A copy of this value.
    pub fn deep_clone(&self) -> (r: Json)
        ensures
            r@ == self@,
        decreases self, 1int,
    {
        match self {
            Json::Null => Json::Null,
            Json::Bool(b) => Json::Bool(*b),
            Json::Int(n) => Json::Int(*n),
            Json::UInt(n) => Json::UInt(*n),
            Json::Float(n) => Json::Float(n.clone()),
            Json::Str(s) => Json::Str(s.clone()),
            Json::Array(items) => {
                let out = clone_items(items);
                proof {
                    assert(items_view(&out) =~= items_view(items));
                }
                Json::Array(out)
            },
            Json::Object(entries) => {
                let out = clone_entries(entries);
                proof {
                    assert(entries_view(&out) =~= entries_view(entries));
                }
                Json::Object(out)
            },
        }
    }

    /// The value stored under `key` when `self` is an object.
    pub fn get(&self, key: &str) -> (r: Option<&Json>)
        ensures
            r matches Some(v) ==> self@.get(key@) == Some(v@),
            r is None ==> self@.get(key@) is None,
    {
        match self {
            Json::Object(entries) => {
                let i = find_key(entries, key);
                if i < entries.len() {
                    Some(&entries[i].1)
                } else {
                    None
                }
            },
            _ => None,
        }
    }

    pub fn as_str(&self) -> (r: Option<&str>)
        ensures
            r matches Some(s) ==> self@.as_str() == Some(s@),
            r is None ==> self@.as_str() is None,
    {
        match self {
            Json::Str(s) => Some(s.as_str()),
            _ => None,
        }
    }

    pub fn as_i64(&self) -> (r: Option<i64>)
        ensures
            r == self@.as_i64(),
    {
        match self {
            Json::Int(n) => Some(*n),
            _ => None,
        }
    }

    pub fn as_bool(&self) -> (r: Option<bool>)
        ensures
            r == self@.as_bool(),
    {
        match self {
            Json::Bool(b) => Some(*b),
            _ => None,
        }
    }

    pub fn as_array(&self) -> (r: Option<&Vec<Json>>)
        ensures
            r matches Some(v) ==> self@ == JsonV::Array(items_view(v)),
            r is None ==> !(self@ is Array),
    {
        match self {
            Json::Array(v) => {
                proof {
                }
                Some(v)
            },
            _ => None,
        }
    }

    pub fn is_object(&self) -> (r: bool)
        ensures
            r == (self@ is Object),
    {
        match self {
            Json::Object(_) => true,
            _ => false,
        }
    }

    /// The string stored under `key`, when present and a string.
    pub fn get_str(&self, key: &str) -> (r: Option<&str>)
        ensures
            r matches Some(s) ==> self@.str_at(key@) == Some(s@),
            r is None ==> self@.str_at(key@) is None,
    {
        match self.get(key) {
            Some(v) => v.as_str(),
            None => None,
        }
    }

    /// The integer stored under `key`, when present and an `i64`.
    pub fn get_i64(&self, key: &str) -> (r: Option<i64>)
        ensures
            r == self@.int_at(key@),
    {
        match self.get(key) {
            Some(v) => v.as_i64(),
            None => None,
        }
    }

    /// The boolean stored under `key`, when present and a boolean.
    pub fn get_bool(&self, key: &str) -> (r: Option<bool>)
        ensures
            r == self@.bool_at(key@),
    {
        match self.get(key) {
            Some(v) => v.as_bool(),
            None => None,
        }
    }

    /// Store `value` under `key` when `self` is an object; other values are
    /// left as they are.
    pub fn insert(&mut self, key: String, value: Json)
        ensures
            final(self)@ == old(self)@.insert(key@, value@),
    {
        if let Json::Object(entries) = self {
            let ghost ev = entries_view(entries);
            let i = find_key(entries, key.as_str());
            proof {
                lemma_entry_index(ev, key@);
            }
            let ghost before = entries@;
            if i < entries.len() {
                entries.set(i, (key, value));
                proof {
                    assert forall|j: int| 0 <= j < entries.len() implies entries_view(entries)[j] == entry_insert(ev, key@, value@)[j] by {
                        if j != i {
                            assert(entries@[j] == before[j]);
                        }
                    }
                    assert(entries_view(entries) =~= entry_insert(ev, key@, value@));
                }
            } else {
                entries.push((key, value));
                proof {
                    assert forall|j: int| 0 <= j < entries.len() implies entries_view(entries)[j] == entry_insert(ev, key@, value@)[j] by {
                        if j < before.len() {
                            assert(entries@[j] == before[j]);
                        }
                    }
                    assert(entries_view(entries) =~= entry_insert(ev, key@, value@));
                }
            }
        }
    }

    /// An empty object.
    pub fn new_object() -> (r: Json)
        ensures
            r@ == JsonV::Object(Seq::empty()),
    {
        let v: Vec<(String, Json)> = Vec::new();
        proof {
            assert(entries_view(&v) =~= Seq::<(Seq<char>, JsonV)>::empty());
        }
        Json::Object(v)
    }

    /// A string value.
    pub fn from_str(s: &str) -> (r: Json)
        ensures
            r@ == JsonV::Str(s@),
    {
        Json::Str(s.to_string())
    }
}

/// Append the entry `(key, value)` to an object's entries.
pub fn push_entry(entries: &mut Vec<(String, Json)>, key: &str, value: Json)
    ensures
        entries_view(final(entries)) == entries_view(old(entries)).push((key@, value@)),
{
    let ghost before = entries_view(entries);
    let ghost vv = value@;
    entries.push((String::from_str(key), value));
    assert(entries_view(entries) =~= before.push((key@, vv)));
}

/// Whether two string slices hold the same characters.
pub(crate) fn str_eq(a: &str, b: &str) -> (r: bool)
    ensures
        r == (a@ == b@),
{
    let n = a.unicode_len();
    if n != b.unicode_len() {
        return false;
    }
    let mut i: usize = 0;
    while i < n
        invariant
            n == a@.len(),
            n == b@.len(),
            i <= n,
            forall|k: int| 0 <= k < i ==> a@[k] == b@[k],
        decreases n - i,
    {
        if a.get_char(i) != b.get_char(i) {
            return false;
        }
        i = i + 1;
    }
    assert(a@ =~= b@);
    true
}

/// Deep merge of `patch` into `existing` (see [`deep_merge`]).
pub fn merge_json(existing: &Json, patch: &Json) -> (r: Json)
    ensures
        r@ == deep_merge(existing@, patch@),
    decreases patch, 1int,
{
    match (existing, patch) {
        (Json::Object(base), Json::Object(p)) => {
            let entries = merge_object_entries(base, p);
            Json::Object(entries)
        },
        _ => patch.deep_clone(),
    }
}

/// The entries of `base` with the entries of `patch` merged in, in order.
fn merge_object_entries(base: &Vec<(String, Json)>, patch: &Vec<(String, Json)>) -> (r: Vec<(String, Json)>)
    ensures
        entries_view(&r) == merge_entries(entries_view(base), entries_view(patch)),
    decreases patch, 0int,
{
    let ghost pv = entries_view(patch);
    let start = clone_entries(base);
    proof {
        assert(entries_view(&start) =~= entries_view(base));
    }
    let mut result = Json::Object(start);
    proof {
        assert(merge_entries(entries_view(base), pv.take(0)) == entries_view(base));
    }
    let mut i: usize = 0;
    while i < patch.len()
        invariant
            i <= patch.len(),
            pv == entries_view(patch),
            result@ == JsonV::Object(merge_entries(entries_view(base), pv.take(i as int))),
        decreases patch.len() - i,
    {
        proof {
            assert(decreases_to!(*patch => patch[i as int].1));
        }
        let merged = match result.get(patch[i].0.as_str()) {
            Some(e) => merge_json(e, &patch[i].1),
            None => patch[i].1.deep_clone(),
        };
        result.insert(patch[i].0.clone(), merged);
        proof {
            assert(pv.take(i as int + 1).drop_last() =~= pv.take(i as int));
            assert(pv.take(i as int + 1).last() == pv[i as int]);
        }
        i = i + 1;
    }
    proof {
        assert(pv.take(patch.len() as int) =~= pv);
    }
    match result {
        Json::Object(v) => v,
        _ => {
            proof {
                assert(false);
            }
            Vec::new()
        },
    }
}

/// Index of the first entry with key `key` (the length when absent).
pub fn find_key(entries: &Vec<(String, Json)>, key: &str) -> (r: usize)
    ensures
        r == entry_index(entries_view(entries), key@),
        r <= entries.len(),
        r < entries.len() ==> entries_view(entries).index(r as int).1 == entries@[r as int].1@,
{
    let ghost ev = entries_view(entries);
    let mut i: usize = 0;
    while i < entries.len()
        invariant
            i <= entries.len(),
            ev == entries_view(entries),
            forall|j: int| 0 <= j < i ==> ev[j].0 != key@,
        decreases entries.len() - i,
    {
        if str_eq(entries[i].0.as_str(), key) {
            proof {
                lemma_entry_index_at(ev, key@, i as int);
            }
            return i;
        }
        i = i + 1;
    }
    proof {
        lemma_entry_index_at(ev, key@, i as int);
    }
    i
}

pub(crate) fn clone_items(items: &Vec<Json>) -> (out: Vec<Json>)
    ensures
        out.len() == items.len(),
        forall|k: int| 0 <= k < items.len() ==> out@[k]@ == items@[k]@,
    decreases items, 0int,
{
    let mut out: Vec<Json> = Vec::new();
    let mut i: usize = 0;
    while i < items.len()
        invariant
            i <= items.len(),
            out.len() == i,
            forall|k: int| 0 <= k < i ==> out@[k]@ == items@[k]@,
        decreases items.len() - i,
    {
        proof {
            assert(decreases_to!(*items => items[i as int]));
        }
        let c = items[i].deep_clone();
        out.push(c);
        i = i + 1;
    }
    out
}

fn clone_entries(entries: &Vec<(String, Json)>) -> (out: Vec<(String, Json)>)
    ensures
        out.len() == entries.len(),
        forall|k: int| 0 <= k < entries.len() ==> out@[k].0@ == entries@[k].0@ && out@[k].1@ == entries@[k].1@,
    decreases entries, 0int,
{
    let mut out: Vec<(String, Json)> = Vec::new();
    let mut i: usize = 0;
    while i < entries.len()
        invariant
            i <= entries.len(),
            out.len() == i,
            forall|k: int| 0 <= k < i ==> out@[k].0@ == entries@[k].0@ && out@[k].1@ == entries@[k].1@,
        decreases entries.len() - i,
    {
        proof {
            assert(decreases_to!(*entries => entries[i as int].1));
        }
        let k = entries[i].0.clone();
        let v = entries[i].1.deep_clone();
        out.push((k, v));
        i = i + 1;
    }
    out
}

/// Whether two values are the same JSON value.
pub fn json_eq(a: &Json, b: &Json) -> (r: bool)
    ensures
        r == (a@ == b@),
    decreases a, 1int,
{
    match (a, b) {
        (Json::Null, Json::Null) => true,
        (Json::Bool(x), Json::Bool(y)) => *x == *y,
        (Json::Int(x), Json::Int(y)) => *x == *y,
        (Json::UInt(x), Json::UInt(y)) => *x == *y,
        (Json::Float(x), Json::Float(y)) => str_eq(x.as_str(), y.as_str()),
        (Json::Str(x), Json::Str(y)) => str_eq(x.as_str(), y.as_str()),
        (Json::Array(x), Json::Array(y)) => items_eq(x, y),
        (Json::Object(x), Json::Object(y)) => entries_eq(x, y),
        _ => false,
    }
}

fn items_eq(x: &Vec<Json>, y: &Vec<Json>) -> (r: bool)
    ensures
        r == (items_view(x) == items_view(y)),
    decreases x, 0int,
{
    if x.len() != y.len() {
        assert(items_view(x).len() != items_view(y).len());
        return false;
    }
    let mut i: usize = 0;
    while i < x.len()
        invariant
            i <= x.len(),
            x.len() == y.len(),
            forall|k: int| 0 <= k < i ==> items_view(x)[k] == items_view(y)[k],
        decreases x.len() - i,
    {
        proof {
            assert(decreases_to!(*x => x[i as int]));
        }
        if !json_eq(&x[i], &y[i]) {
            assert(items_view(x)[i as int] != items_view(y)[i as int]);
            return false;
        }
        i = i + 1;
    }
    assert(items_view(x) =~= items_view(y));
    true
}

fn entries_eq(x: &Vec<(String, Json)>, y: &Vec<(String, Json)>) -> (r: bool)
    ensures
        r == (entries_view(x) == entries_view(y)),
    decreases x, 0int,
{
    if x.len() != y.len() {
        assert(entries_view(x).len() != entries_view(y).len());
        return false;
    }
    let mut i: usize = 0;
    while i < x.len()
        invariant
            i <= x.len(),
            x.len() == y.len(),
            forall|k: int| 0 <= k < i ==> entries_view(x)[k] == entries_view(y)[k],
        decreases x.len() - i,
    {
        proof {
            assert(decreases_to!(*x => x[i as int].1));
        }
        if !str_eq(x[i].0.as_str(), y[i].0.as_str()) || !json_eq(&x[i].1, &y[i].1) {
            assert(entries_view(x)[i as int] != entries_view(y)[i as int]);
            return false;
        }
        i = i + 1;
    }
    assert(entries_view(x) =~= entries_view(y));
    true
}

/// The keys of an object's entries.
pub open spec fn entry_keys(e: Seq<(Seq<char>, JsonV)>) -> Set<Seq<char>> {
    Set::new(|k: Seq<char>| exists|i: int| 0 <= i < e.len() && #[trigger] e[i].0 == k)
}

proof fn lemma_entry_insert_keys(e: Seq<(Seq<char>, JsonV)>, key: Seq<char>, value: JsonV)
    ensures
        entry_keys(entry_insert(e, key, value)) == entry_keys(e).insert(key),
{
    lemma_entry_index(e, key);
    let r = entry_insert(e, key, value);
    let i = entry_index(e, key);
    assert forall|k: Seq<char>| entry_keys(r).contains(k) <==> entry_keys(e).insert(key).contains(k) by {
        if entry_keys(r).contains(k) {
            let j = choose|j: int| 0 <= j < r.len() && #[trigger] r[j].0 == k;
            if !(i < e.len() && j == i) && j < e.len() {
                assert(r[j] == e[j]);
            }
        }
        if entry_keys(e).contains(k) {
            let j = choose|j: int| 0 <= j < e.len() && #[trigger] e[j].0 == k;
            if i < e.len() && j == i {
                assert(r[j].0 == key);
            } else {
                assert(r[j] == e[j]);
            }
        }
        if k == key {
            if i < e.len() {
                assert(r[i].0 == key);
            } else {
                assert(r[e.len() as int].0 == key);
            }
        }
    }
    assert(entry_keys(r) =~= entry_keys(e).insert(key));
}

proof fn lemma_merge_entries_keys(base: Seq<(Seq<char>, JsonV)>, patch: Seq<(Seq<char>, JsonV)>)
    ensures
        entry_keys(merge_entries(base, patch)) == entry_keys(base).union(entry_keys(patch)),
    decreases patch.len(),
{
    if patch.len() == 0 {
        assert(entry_keys(patch) =~= Set::<Seq<char>>::empty());
        assert(entry_keys(base).union(entry_keys(patch)) =~= entry_keys(base));
    } else {
        let prev = merge_entries(base, patch.drop_last());
        lemma_merge_entries_keys(base, patch.drop_last());
        let k = patch.last().0;
        let merged = match entry_get(prev, k) {
            Some(e) => deep_merge(e, patch.last().1),
            None => patch.last().1,
        };
        lemma_entry_insert_keys(prev, k, merged);
        assert forall|x: Seq<char>| entry_keys(patch).contains(x) <==> entry_keys(patch.drop_last()).insert(k).contains(x) by {
            if entry_keys(patch).contains(x) {
                let j = choose|j: int| 0 <= j < patch.len() && #[trigger] patch[j].0 == x;
                if j < patch.len() - 1 {
                    assert(patch.drop_last()[j] == patch[j]);
                }
            }
            if entry_keys(patch.drop_last()).contains(x) {
                let j = choose|j: int| 0 <= j < patch.drop_last().len() && #[trigger] patch.drop_last()[j].0 == x;
                assert(patch[j] == patch.drop_last()[j]);
            }
            if x == k {
                assert(patch[patch.len() - 1].0 == k);
            }
        }
        assert(entry_keys(patch) =~= entry_keys(patch.drop_last()).insert(k));
        assert(entry_keys(merge_entries(base, patch)) =~= entry_keys(base).union(entry_keys(patch)));
    }
}

/// Deep-merging one object into another keeps every key of either: the
/// result's keys are the union of both inputs' keys.
pub proof fn law_deep_merge_keys(base: Seq<(Seq<char>, JsonV)>, patch: Seq<(Seq<char>, JsonV)>)
    ensures
        deep_merge(JsonV::Object(base), JsonV::Object(patch)) == JsonV::Object(merge_entries(base, patch)),
        entry_keys(merge_entries(base, patch)) == entry_keys(base).union(entry_keys(patch)),
{
    lemma_merge_entries_keys(base, patch);
}

proof fn lemma_entry_get_last(e: Seq<(Seq<char>, JsonV)>, k: Seq<char>)
    requires
        e.len() > 0,
        forall|j: int| 0 <= j < e.len() - 1 ==> e[j].0 != e.last().0,
    ensures
        k != e.last().0 ==> entry_get(e, k) == entry_get(e.drop_last(), k),
        k == e.last().0 ==> entry_get(e, k) == Some(e.last().1),
{
    let init = e.drop_last();
    lemma_entry_index(init, k);
    let i = entry_index(init, k);
    assert forall|j: int| 0 <= j < i implies e[j].0 != k by {
        assert(e[j] == init[j]);
    }
    if i < init.len() {
        assert(e[i] == init[i]);
        lemma_entry_index_at(e, k, i);
        if k == e.last().0 {
            assert(e[i].0 == k);
        }
    } else if k == e.last().0 {
        lemma_entry_index_at(e, k, e.len() - 1);
    } else {
        lemma_entry_index_at(e, k, e.len() as int);
    }
}

/// The value a deep merge stores under `k`: the patch's value merged into
/// the base's when both have one, else whichever has one.
pub open spec fn merged_at(base: Seq<(Seq<char>, JsonV)>, patch: Seq<(Seq<char>, JsonV)>, k: Seq<char>) -> Option<JsonV> {
    match entry_get(patch, k) {
        None => entry_get(base, k),
        Some(pv) => match entry_get(base, k) {
            Some(bv) => Some(deep_merge(bv, pv)),
            None => Some(pv),
        },
    }
}

/// Deep-merging an object patch (whose keys are distinct, as in any parsed
/// object) into an object, key by key: a key only the base has keeps its
/// value, a key only the patch has takes the patch's value, and a key both
/// have holds the patch's value deep-merged into the base's.
pub proof fn law_deep_merge_by_key(base: Seq<(Seq<char>, JsonV)>, patch: Seq<(Seq<char>, JsonV)>, k: Seq<char>)
    requires
        forall|i: int, j: int| 0 <= i < j < patch.len() ==> patch[i].0 != patch[j].0,
    ensures
        deep_merge(JsonV::Object(base), JsonV::Object(patch)).get(k) == merged_at(base, patch, k),
    decreases patch.len(),
{
    if patch.len() > 0 {
        let init = patch.drop_last();
        let kl = patch.last().0;
        assert forall|i: int, j: int| 0 <= i < j < init.len() implies init[i].0 != init[j].0 by {
            assert(init[i] == patch[i] && init[j] == patch[j]);
        }
        assert forall|j: int| 0 <= j < patch.len() - 1 implies patch[j].0 != patch.last().0 by {
            assert(patch[patch.len() - 1] == patch.last());
        }
        law_deep_merge_by_key(base, init, k);
        law_deep_merge_by_key(base, init, kl);
        lemma_entry_get_last(patch, k);
        lemma_entry_get_last(patch, kl);
        let prev = merge_entries(base, init);
        lemma_entry_index(init, kl);
        if entry_index(init, kl) < init.len() {
            assert(init[entry_index(init, kl)] == patch[entry_index(init, kl)]);
        }
        let merged = match entry_get(prev, kl) {
            Some(e) => deep_merge(e, patch.last().1),
            None => patch.last().1,
        };
        lemma_entry_insert_get(prev, kl, merged, k);
    }
}

} // verus!
