//! Component schemas: naming, mode lists and the file-name test used when
//! loading them from a directory.
use vstd::prelude::*;

use crate::config::GameConfig;
use crate::json::{Json, JsonV};
use crate::json_text::{parse_json, parsed_json};
use crate::text::chars_of;

verus! {

/// A component schema.
///
/// - `name`: The unique name of the component.
/// - `schema`: The full JSON schema.
/// - `modes`: List of game modes this component is valid in.
pub struct ComponentSchema {
    /// The name of the component
    pub name: String,
    /// The JSON schema
    pub schema: Json,
    /// The game modes this component is valid in
    pub modes: Vec<String>,
}

/// `p` without trailing separators and trailing `.` components.
pub open spec fn trim_tail(p: Seq<char>) -> Seq<char>
    decreases p.len(),
{
    if p.len() > 0 && p.last() == '/' {
        trim_tail(p.drop_last())
    } else if p =~= seq!['.'] {
        Seq::empty()
    } else if p.len() >= 2 && p.last() == '.' && p[p.len() - 2] == '/' {
        trim_tail(p.subrange(0, p.len() - 2))
    } else {
        p
    }
}

/// Index where the component ending before `i` starts: just after the last
/// separator before `i`, or 0.
pub open spec fn seg_start(t: Seq<char>, i: int) -> int
    decreases i,
{
    if i <= 0 {
        0
    } else if t[i - 1] == '/' {
        i
    } else {
        seg_start(t, i - 1)
    }
}

/// The final component of a path, if it names a file (not empty, not `..`).
pub open spec fn file_name(p: Seq<char>) -> Option<Seq<char>> {
    let t = trim_tail(p);
    let n = t.subrange(seg_start(t, t.len() as int), t.len() as int);
    if n.len() == 0 || n =~= seq!['.', '.'] {
        None
    } else {
        Some(n)
    }
}

/// A file name whose extension is `json`: it ends in `.json` with a
/// non-empty stem before it.
pub open spec fn has_json_extension(n: Seq<char>) -> bool {
    n.len() > 5 && n.subrange(n.len() - 5, n.len() as int) =~= seq!['.', 'j', 's', 'o', 'n']
}

/// Whether a path's file name has the extension `json`.
pub open spec fn spec_is_json_path(p: Seq<char>) -> bool {
    match file_name(p) {
        Some(n) => has_json_extension(n),
        None => false,
    }
}

/// Check whether a path names a `.json` file (a hidden file such as `.json`
/// has no extension).
pub fn is_json_path(path: &str) -> (r: bool)
    ensures
        r == spec_is_json_path(path@),
{
    let c = chars_of(path);
    let ghost p = path@;
    let mut e: usize = c.len();
    assert(p.subrange(0, e as int) =~= p);
    while e > 0
        invariant_except_break
            c@ == p,
            e <= c.len(),
            trim_tail(p) == trim_tail(p.subrange(0, e as int)),
        ensures
            e <= c.len(),
            trim_tail(p) == p.subrange(0, e as int),
        decreases e,
    {
        let ghost q = p.subrange(0, e as int);
        if c[e - 1] == '/' {
            assert(q.drop_last() =~= p.subrange(0, e - 1));
            e = e - 1;
        } else if e == 1 && c[0] == '.' {
            assert(q =~= seq!['.']);
            assert(p.subrange(0, 0) =~= Seq::<char>::empty());
            e = 0;
        } else if e >= 2 && c[e - 1] == '.' && c[e - 2] == '/' {
            assert(q.subrange(0, q.len() - 2) =~= p.subrange(0, e - 2));
            e = e - 2;
        } else {
            assert(!(q =~= seq!['.']));
            assert(trim_tail(q) == q);
            break;
        }
    }
    let ghost t = p.subrange(0, e as int);
    let mut s: usize = e;
    while s > 0 && c[s - 1] != '/'
        invariant
            c@ == p,
            s <= e <= c.len(),
            t == p.subrange(0, e as int),
            seg_start(t, e as int) == seg_start(t, s as int),
        decreases s,
    {
        s = s - 1;
    }
    let ghost n = t.subrange(seg_start(t, e as int), e as int);
    assert(seg_start(t, e as int) == s);
    assert(n =~= c@.subrange(s as int, e as int));
    let len = e - s;
    if len == 0 {
        return false;
    }
    if len == 2 && c[s] == '.' && c[s + 1] == '.' {
        assert(n =~= seq!['.', '.']);
        return false;
    }
    assert(!(n =~= seq!['.', '.']));
    if len <= 5 {
        return false;
    }
    let r = c[e - 5] == '.' && c[e - 4] == 'j' && c[e - 3] == 's' && c[e - 2] == 'o' && c[e - 1] == 'n';
    proof {
        let tail = n.subrange(n.len() - 5, n.len() as int);
        if r {
            assert(tail =~= seq!['.', 'j', 's', 'o', 'n']);
        } else {
            if tail =~= seq!['.', 'j', 's', 'o', 'n'] {
                assert(tail[0] == c@[e - 5]);
                assert(tail[1] == c@[e - 4]);
                assert(tail[2] == c@[e - 3]);
                assert(tail[3] == c@[e - 2]);
                assert(tail[4] == c@[e - 1]);
            }
        }
    }
    r
}

/// The string under `key` when it is present, a string, and not empty.
pub open spec fn nonempty_str_at(j: JsonV, key: Seq<char>) -> Option<Seq<char>> {
    match j.str_at(key) {
        Some(s) => if s.len() > 0 { Some(s) } else { None },
        None => None,
    }
}

/// The name a schema file gives its component: a non-empty `name`, else a
/// non-empty `title`, else the file stem, else `unknown`.
pub open spec fn schema_name(j: JsonV, file_stem: Option<Seq<char>>) -> Seq<char> {
    match nonempty_str_at(j, "name"@) {
        Some(n) => n,
        None => match nonempty_str_at(j, "title"@) {
            Some(t) => t,
            None => match file_stem {
                Some(s) => s,
                None => "unknown"@,
            },
        },
    }
}

/// The `Option<&str>` as a value of views.
pub open spec fn opt_str_view(o: Option<&str>) -> Option<Seq<char>> {
    match o {
        Some(s) => Some(s@),
        None => None,
    }
}

/// Extract a component name from a schema: priority is a non-empty "name",
/// then a non-empty "title", then the file stem, then "unknown".
pub fn extract_name(json_val: &Json, file_stem: Option<&str>) -> (r: String)
    ensures
        r@ == schema_name(json_val@, opt_str_view(file_stem)),
{
    if let Some(n) = json_val.get_str("name") {
        if n.unicode_len() > 0 {
            return n.to_string();
        }
    }
    if let Some(t) = json_val.get_str("title") {
        if t.unicode_len() > 0 {
            return t.to_string();
        }
    }
    match file_stem {
        Some(s) => s.to_string(),
        None => String::from_str("unknown"),
    }
}

/// The strings of the schema's `modes` array, in order; other items are
/// skipped, and a missing or non-array `modes` gives none.
pub open spec fn schema_modes(j: JsonV) -> Seq<Seq<char>> {
    match j.get("modes"@) {
        Some(JsonV::Array(items)) => strings_of(items),
        _ => Seq::empty(),
    }
}

/// The string items of a sequence of values, in order.
pub open spec fn strings_of(items: Seq<JsonV>) -> Seq<Seq<char>>
    decreases items.len(),
{
    if items.len() == 0 {
        Seq::empty()
    } else {
        let rest = strings_of(items.drop_last());
        match items.last() {
            JsonV::Str(s) => rest.push(s),
            _ => rest,
        }
    }
}

/// The views of a vector of strings.
pub open spec fn strs_view(v: Seq<String>) -> Seq<Seq<char>> {
    v.map_values(|s: String| s@)
}

/// The string items of the schema's `modes` array.
pub fn extract_modes(json_val: &Json) -> (r: Vec<String>)
    ensures
        strs_view(r@) == schema_modes(json_val@),
{
    let mut out: Vec<String> = Vec::new();
    match json_val.get("modes") {
        Some(m) => match m.as_array() {
            Some(items) => {
                let ghost iv = crate::json::items_view(items);
                let mut i: usize = 0;
                while i < items.len()
                    invariant
                        i <= items.len(),
                        iv == crate::json::items_view(items),
                        strs_view(out@) == strings_of(iv.subrange(0, i as int)),
                    decreases items.len() - i,
                {
                    assert(iv.subrange(0, i + 1).drop_last() =~= iv.subrange(0, i as int));
                    let ghost before = out@;
                    match items[i].as_str() {
                        Some(s) => {
                            out.push(s.to_string());
                            assert(out@.drop_last() =~= before);
                            assert(strs_view(out@) =~= strs_view(before).push(s@));
                        },
                        None => {},
                    }
                    i = i + 1;
                }
                assert(iv.subrange(0, iv.len() as int) =~= iv);
            },
            None => {
                assert(strs_view(out@) =~= Seq::<Seq<char>>::empty());
            },
        },
        None => {
            assert(strs_view(out@) =~= Seq::<Seq<char>>::empty());
        },
    }
    out
}

/// Why a schema's `modes` are refused, if they are: `modes` present but
/// not an array, an item that is not a string, or a mode not allowed (the
/// first offending item, in order).
pub open spec fn modes_problem(j: JsonV, name: Seq<char>, allowed: Seq<Seq<char>>) -> Option<Seq<char>> {
    match j.get("modes"@) {
        None => None,
        Some(JsonV::Array(items)) => items_problem(items, name, allowed),
        Some(_) => Some("Component schema '"@ + name + "' has non-array 'modes'"@),
    }
}

/// The first offending item of a `modes` array, if any.
pub open spec fn items_problem(items: Seq<JsonV>, name: Seq<char>, allowed: Seq<Seq<char>>) -> Option<Seq<char>>
    decreases items.len(),
{
    if items.len() == 0 {
        None
    } else {
        match items_problem(items.drop_last(), name, allowed) {
            Some(p) => Some(p),
            None => match items.last() {
                JsonV::Str(m) => if allowed.contains(m) {
                    None
                } else {
                    Some("Unknown mode '"@ + m + "' in component '"@ + name + "'"@)
                },
                _ => Some("Mode in component '"@ + name + "' must be a string"@),
            },
        }
    }
}

/// Check a schema's `modes` against the allowed modes.
pub fn check_modes(json_val: &Json, name: &str, allowed_modes: &Vec<String>) -> (r: Result<(), String>)
    ensures
        match modes_problem(json_val@, name@, strs_view(allowed_modes@)) {
            Some(p) => r matches Err(e) && e@ == p,
            None => r is Ok,
        },
{
    let items = match json_val.get("modes") {
        None => {
            return Ok(());
        },
        Some(m) => match m.as_array() {
            Some(items) => items,
            None => {
                let mut e = String::from_str("Component schema '");
                e.append(name);
                e.append("' has non-array 'modes'");
                return Err(e);
            },
        },
    };
    let ghost iv = crate::json::items_view(items);
    let ghost allowed = strs_view(allowed_modes@);
    assert(json_val@.get("modes"@) == Some(JsonV::Array(iv)));
    let mut i: usize = 0;
    while i < items.len()
        invariant
            i <= items.len(),
            iv == crate::json::items_view(items),
            json_val@.get("modes"@) == Some(JsonV::Array(iv)),
            allowed == strs_view(allowed_modes@),
            items_problem(iv.subrange(0, i as int), name@, allowed) is None,
        decreases items.len() - i,
    {
        assert(iv.subrange(0, i + 1).drop_last() =~= iv.subrange(0, i as int));
        match items[i].as_str() {
            Some(m) => {
                if !crate::ecs::registry::has_mode_exec(allowed_modes, m) {
                    proof {
                        assert(!allowed.contains(m@)) by {
                            if allowed.contains(m@) {
                                let k = choose|k: int| 0 <= k < allowed.len() && allowed[k] == m@;
                                assert(allowed_modes@[k]@ == m@);
                            }
                        }
                        assert(iv[i as int] == JsonV::Str(m@));
                        assert(iv.subrange(0, i + 1).last() == iv[i as int]);
                        assert(items_problem(iv.subrange(0, i + 1), name@, allowed) == Some("Unknown mode '"@ + m@ + "' in component '"@ + name@ + "'"@));
                        lemma_items_problem_prefix(iv, i as int, name@, allowed);
                    }
                    let mut e = String::from_str("Unknown mode '");
                    e.append(m);
                    e.append("' in component '");
                    e.append(name);
                    e.append("'");
                    return Err(e);
                }
                proof {
                    assert(allowed.contains(m@)) by {
                        let k = choose|k: int| 0 <= k < allowed_modes@.len() && #[trigger] allowed_modes@[k]@ == m@;
                        assert(allowed[k] == m@);
                    }
                }
            },
            None => {
                proof {
                    assert(iv.subrange(0, i + 1).last() == iv[i as int]);
                    assert(iv[i as int].as_str() is None);
                    assert(items_problem(iv.subrange(0, i + 1), name@, allowed) == Some("Mode in component '"@ + name@ + "' must be a string"@));
                    lemma_items_problem_prefix(iv, i as int, name@, allowed);
                }
                let mut e = String::from_str("Mode in component '");
                e.append(name);
                e.append("' must be a string");
                return Err(e);
            },
        }
        i = i + 1;
    }
    assert(iv.subrange(0, i as int) =~= iv);
    Ok(())
}

proof fn lemma_items_problem_prefix(items: Seq<JsonV>, i: int, name: Seq<char>, allowed: Seq<Seq<char>>)
    requires
        0 <= i < items.len(),
        items_problem(items.subrange(0, i + 1), name, allowed) is Some,
    ensures
        items_problem(items, name, allowed) == items_problem(items.subrange(0, i + 1), name, allowed),
    decreases items.len(),
{
    if items.len() > i + 1 {
        assert(items.drop_last().subrange(0, i + 1) =~= items.subrange(0, i + 1));
        lemma_items_problem_prefix(items.drop_last(), i, name, allowed);
    } else {
        assert(items =~= items.subrange(0, i + 1));
    }
}

/// The component schema a schema file describes, or why it is refused:
/// the text must parse as JSON and its `modes` must name allowed modes.
/// The component is named by [`extract_name`] and lists the string items
/// of `modes`.
pub fn component_schema_from_file(data: &str, file_stem: Option<&str>, allowed_modes: &Vec<String>) -> (r: Result<ComponentSchema, String>)
    ensures
        match parsed_json(data@) {
            Err(e) => r matches Err(m) && m@ == e,
            Ok(v) => {
                let name = schema_name(v, opt_str_view(file_stem));
                match modes_problem(v, name, strs_view(allowed_modes@)) {
                    Some(p) => r matches Err(m) && m@ == p,
                    None => r matches Ok(cs) && cs.name@ == name && cs.schema@ == v && strs_view(cs.modes@) == schema_modes(v),
                }
            },
        },
{
    let json_val = match parse_json(data) {
        Ok(v) => v,
        Err(e) => {
            assert(parsed_json(data@) == Err::<JsonV, Seq<char>>(e@));
            return Err(e);
        },
    };
    let name = extract_name(&json_val, file_stem);
    match check_modes(&json_val, name.as_str(), allowed_modes) {
        Ok(()) => {},
        Err(e) => {
            return Err(e);
        },
    }
    let modes = extract_modes(&json_val);
    Ok(ComponentSchema { name, schema: json_val, modes })
}

/// The allowed game modes of a game configuration.
pub fn load_allowed_modes(config: &GameConfig) -> (r: Vec<String>)
    ensures
        r@ == config.allowed_modes@,
{
    let mut out: Vec<String> = Vec::new();
    let mut i: usize = 0;
    while i < config.allowed_modes.len()
        invariant
            i <= config.allowed_modes.len(),
            out@ == config.allowed_modes@.subrange(0, i as int),
        decreases config.allowed_modes.len() - i,
    {
        out.push(config.allowed_modes[i].clone());
        i = i + 1;
        assert(out@ =~= config.allowed_modes@.subrange(0, i as int));
    }
    assert(config.allowed_modes@.subrange(0, i as int) =~= config.allowed_modes@);
    out
}

} // verus!
