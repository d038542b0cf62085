//! Following a key to a place in a JSON value (`sidx`), creating what is
//! missing on request, and reading or replacing the value at that place.

use vstd::prelude::*;
use crate::cstr::{spec_strxx, strxx};
use crate::json::value::{
    Json, JsonValue, JsonEntry, obj_find, obj_entry, lower_bound, is_lower_bound, keys_sorted,
    entries_view, elems_view, lemma_array_view, lemma_object_view, entries_find, entries_lower_bound,
    bytes_copy, entries_entry, key_lt, lemma_lower_bound_unique, lemma_insert_sorted, lemma_key_lt_irrefl, lemma_lower_bound_exists,
};
use crate::json::pointer::{spec_as_array_idx, as_array_idx, segments, split_segments, views, unescape, unescape_segment};

verus! {

/// Options of the natives, one per `J_*` flag of the plugin interface.
#[derive(Clone, Copy, Debug)]
pub struct JsonFlags {
    /// Key bytes are taken as they are, without UTF-8 validation.
    pub unchecked_utf8_key: bool,
    /// String values are taken as they are, without UTF-8 validation.
    pub unchecked_utf8_val: bool,
    /// The key is a plain object key even when it starts with `/`.
    pub no_pointer: bool,
    /// Missing parents on a pointer's way are created.
    pub create_parents: bool,
    /// A set reports success only when the value changes nothing.
    pub is_different: bool,
    /// Values are moved instead of copied.
    pub move_value: bool,
    /// Array removal swaps the last element into the hole.
    pub swap_remove: bool,
    /// Text output is pretty-printed.
    pub pretty: bool,
    /// Text output into a buffer gets no NUL terminator.
    pub dont_null_terminate: bool,
    /// Text output is written straight into the buffer.
    pub tostring_noalloc: bool,
}

impl JsonFlags {
    /// No flag set.
    pub fn none() -> (r: JsonFlags)
        ensures
            !r.unchecked_utf8_key && !r.unchecked_utf8_val && !r.no_pointer && !r.create_parents
            && !r.is_different && !r.move_value && !r.swap_remove && !r.pretty
            && !r.dont_null_terminate && !r.tostring_noalloc,
    {
        JsonFlags {
            unchecked_utf8_key: false,
            unchecked_utf8_val: false,
            no_pointer: false,
            create_parents: false,
            is_different: false,
            move_value: false,
            swap_remove: false,
            pretty: false,
            dont_null_terminate: false,
            tostring_noalloc: false,
        }
    }
}

/// One step of a path into a value: an array index or an object key.
#[derive(Debug)]
pub enum PathStep {
    Index(usize),
    Key(Vec<u8>),
}

/// A step as a mathematical value.
pub enum Loc {
    Index(int),
    Key(Seq<u8>),
}

/// Where a key leads: to a place (a path from the root), nowhere, or to the
/// panic the native hits on it.
pub enum Reach {
    Found(Seq<Loc>),
    Missing,
    Panics,
}

/// Where a key leads, with the path as exec steps.
#[derive(Debug)]
pub enum Located {
    Found(Vec<PathStep>),
    Missing,
    Panics,
}

impl View for PathStep {
    type V = Loc;

    open spec fn view(&self) -> Loc {
        match self {
            PathStep::Index(i) => Loc::Index(*i as int),
            PathStep::Key(k) => Loc::Key(k@),
        }
    }
}

/// The path a list of steps describes.
pub open spec fn path_view(p: Seq<PathStep>) -> Seq<Loc> {
    Seq::new(p.len() as nat, |i: int| p[i]@)
}

impl View for Located {
    type V = Reach;

    open spec fn view(&self) -> Reach {
        match self {
            Located::Found(p) => Reach::Found(path_view(p@)),
            Located::Missing => Reach::Missing,
            Located::Panics => Reach::Panics,
        }
    }
}

/// `n` nulls.
pub open spec fn null_seq(n: nat) -> Seq<Json> {
    Seq::new(n, |i: int| Json::Null)
}

/// Puts a step in front of a found path.
pub open spec fn prepend(s: Loc, r: Reach) -> Reach {
    match r {
        Reach::Found(p) => Reach::Found(seq![s] + p),
        _ => r,
    }
}

/// The last segment of a pointer, looked up (or created) in `v`.
pub open spec fn at_base(v: Json, base: Seq<u8>, cp: bool, create: bool) -> (Json, Reach) {
    if v is Null && !cp {
        (v, Reach::Missing)
    } else {
        let v1 = if v is Null {
            if spec_as_array_idx(base, 0) is Some {
                Json::Array(Seq::empty())
            } else {
                Json::Object(Seq::empty())
            }
        } else {
            v
        };
        match v1 {
            Json::Array(x) => match spec_as_array_idx(base, x.len() as usize) {
                None => (v1, Reach::Missing),
                Some(idx) => if idx >= x.len() {
                    if idx - x.len() > 0 || !create {
                        (v1, Reach::Missing)
                    } else {
                        (Json::Array(x.push(Json::Null)), Reach::Found(seq![Loc::Index(idx as int)]))
                    }
                } else {
                    (v1, Reach::Found(seq![Loc::Index(idx as int)]))
                },
            },
            Json::Object(m) => if create {
                (Json::Object(obj_entry(m, base).0), Reach::Found(seq![Loc::Key(base)]))
            } else if obj_find(m, base) is Some {
                (v1, Reach::Found(seq![Loc::Key(base)]))
            } else {
                (v1, Reach::Missing)
            },
            _ => (v1, Reach::Missing),
        }
    }
}

/// Following the (unescaped) parent segments of a pointer from `v`, then its
/// last segment.
pub open spec fn descend(v: Json, parents: Seq<Seq<u8>>, base: Seq<u8>, cp: bool, create: bool) -> (Json, Reach)
    decreases parents.len(),
{
    if parents.len() == 0 {
        at_base(v, base, cp, create)
    } else {
        let k = parents[0];
        let rest = parents.drop_first();
        match v {
            Json::Object(m) => match obj_find(m, k) {
                Some(i) => {
                    let (c, r) = descend(m[i].1, rest, base, cp, create);
                    (Json::Object(m.update(i, (k, c))), prepend(Loc::Key(k), r))
                },
                None => if cp {
                    let (c, r) = descend(Json::Null, rest, base, cp, create);
                    (Json::Object(m.insert(lower_bound(m, k), (k, c))), prepend(Loc::Key(k), r))
                } else {
                    (v, Reach::Missing)
                },
            },
            Json::Array(a) => match spec_as_array_idx(k, a.len() as usize) {
                None => (v, Reach::Missing),
                Some(idx) => if idx == usize::MAX {
                    (v, Reach::Panics)
                } else if a.len() < idx + 1 {
                    if !cp {
                        (v, Reach::Missing)
                    } else {
                        let (c, r) = descend(Json::Null, rest, base, cp, create);
                        (Json::Array((a + null_seq((idx + 1 - a.len()) as nat)).update(idx as int, c)),
                            prepend(Loc::Index(idx as int), r))
                    }
                } else {
                    let (c, r) = descend(a[idx as int], rest, base, cp, create);
                    (Json::Array(a.update(idx as int, c)), prepend(Loc::Index(idx as int), r))
                },
            },
            Json::Null => if !cp {
                (v, Reach::Missing)
            } else {
                match spec_as_array_idx(k, 0) {
                    Some(idx) => if idx == usize::MAX {
                        (v, Reach::Panics)
                    } else {
                        let (c, r) = descend(Json::Null, rest, base, cp, create);
                        (Json::Array(null_seq((idx + 1) as nat).update(idx as int, c)), prepend(Loc::Index(idx as int), r))
                    },
                    None => {
                        let (c, r) = descend(Json::Null, rest, base, cp, create);
                        (Json::Object(seq![(k, c)]), prepend(Loc::Key(k), r))
                    },
                }
            },
            _ => (v, Reach::Missing),
        }
    }
}

/// Where `sidx` leads with `key` (the memory behind the key pointer, `None`
/// for a null pointer), and the value after the parents and the target it
/// created on the way.
pub open spec fn sidx_spec(root: Json, key: Option<Seq<u8>>, keylen: i32, flags: JsonFlags, create: bool) -> (Json, Reach) {
    match key {
        None => (root, Reach::Found(Seq::empty())),
        Some(mem) => match spec_strxx(mem, flags.unchecked_utf8_key, keylen) {
            None => (root, Reach::Missing),
            Some(k) => if flags.no_pointer || k[0] != 47 {
                match root {
                    Json::Object(m) => if create {
                        (Json::Object(obj_entry(m, k).0), Reach::Found(seq![Loc::Key(k)]))
                    } else if obj_find(m, k) is Some {
                        (root, Reach::Found(seq![Loc::Key(k)]))
                    } else {
                        (root, Reach::Missing)
                    },
                    _ => (root, Reach::Missing),
                }
            } else {
                let segs = segments(k);
                if segs.len() == 0 {
                    (root, Reach::Missing)
                } else {
                    descend(root, segs.drop_last().map_values(|s: Seq<u8>| unescape(s)), unescape(segs.last()),
                        flags.create_parents, create)
                }
            },
        },
    }
}

/// The value found by following `path` from `v`.
pub open spec fn json_at(v: Json, path: Seq<Loc>) -> Option<Json>
    decreases path.len(),
{
    if path.len() == 0 {
        Some(v)
    } else {
        match (path[0], v) {
            (Loc::Index(i), Json::Array(a)) => if 0 <= i < a.len() {
                json_at(a[i], path.drop_first())
            } else {
                None
            },
            (Loc::Key(k), Json::Object(m)) => match obj_find(m, k) {
                Some(j) => json_at(m[j].1, path.drop_first()),
                None => None,
            },
            _ => None,
        }
    }
}

/// `v` with the value at `path` replaced by `new`.
pub open spec fn json_put(v: Json, path: Seq<Loc>, new: Json) -> Json
    decreases path.len(),
{
    if path.len() == 0 {
        new
    } else {
        match (path[0], v) {
            (Loc::Index(i), Json::Array(a)) => if 0 <= i < a.len() {
                Json::Array(a.update(i, json_put(a[i], path.drop_first(), new)))
            } else {
                v
            },
            (Loc::Key(k), Json::Object(m)) => match obj_find(m, k) {
                Some(j) => Json::Object(m.update(j, (m[j].0, json_put(m[j].1, path.drop_first(), new)))),
                None => v,
            },
            _ => v,
        }
    }
}

/// A path of one step.
fn single_step(s: PathStep) -> (r: Located)
    ensures
        r@ == Reach::Found(seq![s@]),
{
    let mut p: Vec<PathStep> = Vec::new();
    p.push(s);
    assert(path_view(p@) =~= seq![s@]);
    Located::Found(p)
}

/// Puts a step in front of a found path.
fn prepend_step(s: PathStep, r: Located) -> (out: Located)
    ensures
        out@ == prepend(s@, r@),
{
    match r {
        Located::Found(p) => {
            let mut p = p;
            let ghost old_p = path_view(p@);
            p.insert(0, s);
            assert(path_view(p@) =~= seq![s@] + old_p);
            Located::Found(p)
        },
        Located::Missing => Located::Missing,
        Located::Panics => Located::Panics,
    }
}

/// Pushes `n` nulls.
fn push_nulls(a: &mut Vec<JsonValue>, n: usize)
    ensures
        elems_view(final(a)@) == elems_view(old(a)@) + null_seq(n as nat),
        final(a)@.len() == old(a)@.len() + n,
{
    let ghost start = elems_view(a@);
    let mut i: usize = 0;
    while i < n
        invariant
            i <= n,
            elems_view(a@) == start + null_seq(i as nat),
            a@.len() == start.len() + i,
        decreases n - i,
    {
        let ghost prev = a@;
        a.push(JsonValue::Null);
        i += 1;
        let ghost target = start + null_seq(i as nat);
        assert(a@.len() == target.len());
        assert forall|j: int| 0 <= j < a@.len() implies #[trigger] elems_view(a@)[j] == target[j] by {
            if j < prev.len() {
                assert(a@[j] == prev[j]);
                assert(elems_view(prev)[j] == (start + null_seq((i - 1) as nat))[j]);
            } else {
                assert(a@[j] == JsonValue::Null);
                assert(JsonValue::Null.to_json() == Json::Null);
            }
        }
        assert(elems_view(a@) =~= target);
    }
}

/// The last segment of a pointer, looked up (or created) in `v`.
pub fn at_base_exec(v: &mut JsonValue, base: &[u8], cp: bool, create: bool) -> (r: Located)
    ensures
        (final(v)@, r@) == at_base(old(v)@, base@, cp, create),
        r@ matches Reach::Found(p) ==> json_at(final(v)@, p) is Some,
{
    let is_null = match v {
        JsonValue::Null => true,
        _ => false,
    };
    if is_null {
        if !cp {
            return Located::Missing;
        }
        if as_array_idx(base, 0).is_some() {
            let a: Vec<JsonValue> = Vec::new();
            proof { lemma_array_view(a); assert(elems_view(a@) =~= Seq::empty()); }
            *v = JsonValue::Array(a);
        } else {
            let a: Vec<JsonEntry> = Vec::new();
            proof { lemma_object_view(a); assert(entries_view(a@) =~= Seq::empty()); }
            *v = JsonValue::Object(a);
        }
    }
    let ghost v1 = v@;
    match v {
        JsonValue::Array(x) => {
            proof { lemma_array_view(*x); }
            let xlen = x.len();
            match as_array_idx(base, xlen) {
                None => Located::Missing,
                Some(idx) => {
                    if idx >= xlen {
                        if idx - xlen > 0 || !create {
                            Located::Missing
                        } else {
                            let ghost before = elems_view(x@);
                            let ghost prev = x@;
                            x.push(JsonValue::Null);
                            proof {
                                lemma_array_view(*x);
                                assert forall|j: int| 0 <= j < x@.len() implies #[trigger] elems_view(x@)[j] == before.push(Json::Null)[j] by {
                                    if j < prev.len() {
                                        assert(x@[j] == prev[j]);
                                    }
                                }
                                assert(elems_view(x@) =~= before.push(Json::Null));
                                reveal_with_fuel(json_at, 2);
                            }
                            single_step(PathStep::Index(idx))
                        }
                    } else {
                        proof { reveal_with_fuel(json_at, 2); }
                        single_step(PathStep::Index(idx))
                    }
                },
            }
        },
        JsonValue::Object(m) => {
            proof { lemma_object_view(*m); }
            if create {
                let _ = entries_entry(m, base);
                proof {
                    lemma_object_view(*m);
                    reveal_with_fuel(json_at, 2);
                }
                single_step(PathStep::Key(bytes_copy(base)))
            } else if entries_find(m, base).is_some() {
                proof { reveal_with_fuel(json_at, 2); }
                single_step(PathStep::Key(bytes_copy(base)))
            } else {
                Located::Missing
            }
        },
        _ => Located::Missing,
    }
}

/// Following an index step.
pub proof fn lemma_at_index(a: Seq<Json>, i: int, p: Seq<Loc>)
    requires
        0 <= i < a.len(),
    ensures
        json_at(Json::Array(a), seq![Loc::Index(i)] + p) == json_at(a[i], p),
{
    assert((seq![Loc::Index(i)] + p).drop_first() =~= p);
}

/// Following a key step.
pub proof fn lemma_at_key(m: Seq<(Seq<u8>, Json)>, k: Seq<u8>, j: int, p: Seq<Loc>)
    requires
        obj_find(m, k) == Some(j),
    ensures
        json_at(Json::Object(m), seq![Loc::Key(k)] + p) == json_at(m[j].1, p),
{
    assert((seq![Loc::Key(k)] + p).drop_first() =~= p);
}

/// Replacing a member's value keeps every key where it was.
pub proof fn lemma_find_after_value_update(m: Seq<(Seq<u8>, Json)>, j: int, x: Json, k: Seq<u8>)
    requires
        0 <= j < m.len(),
    ensures
        obj_find(m.update(j, (m[j].0, x)), k) == obj_find(m, k),
        lower_bound(m.update(j, (m[j].0, x)), k) == lower_bound(m, k),
{
    let m2 = m.update(j, (m[j].0, x));
    lemma_lower_bound_exists(m, k);
    let p = lower_bound(m, k);
    assert forall|q: int| 0 <= q < p implies key_lt(#[trigger] m2[q].0, k) by {
        assert(m2[q].0 == m[q].0);
        assert(key_lt(m[q].0, k));
    }
    if p < m.len() {
        assert(m2[p].0 == m[p].0);
    }
    assert(is_lower_bound(m2, k, p));
    lemma_lower_bound_unique(m2, k, p);
}

/// A key inserted at its lower bound is found there.
pub proof fn lemma_find_after_insert(m: Seq<(Seq<u8>, Json)>, k: Seq<u8>, x: Json)
    requires
        obj_find(m, k) is None,
    ensures
        obj_find(m.insert(lower_bound(m, k), (k, x)), k) == Some(lower_bound(m, k)),
{
    lemma_lower_bound_exists(m, k);
    let p = lower_bound(m, k);
    let m2 = m.insert(p, (k, x));
    assert forall|q: int| 0 <= q < p implies key_lt(#[trigger] m2[q].0, k) by {
        assert(m2[q] == m[q]);
        assert(key_lt(m[q].0, k));
    }
    lemma_key_lt_irrefl(k);
    assert(is_lower_bound(m2, k, p));
    lemma_lower_bound_unique(m2, k, p);
}

/// Following the parent segments `parents[i..]` from `v`, then the last segment.
pub fn descend_exec(v: &mut JsonValue, parents: &Vec<Vec<u8>>, i: usize, base: &[u8], cp: bool, create: bool) -> (r: Located)
    requires
        i <= parents@.len(),
    ensures
        (final(v)@, r@) == descend(old(v)@, views(parents@).skip(i as int), base@, cp, create),
        r@ matches Reach::Found(p) ==> json_at(final(v)@, p) is Some,
    decreases parents@.len() - i,
{
    let ghost ps = views(parents@).skip(i as int);
    if i == parents.len() {
        assert(ps.len() == 0);
        return at_base_exec(v, base, cp, create);
    }
    assert(ps[0] == parents@[i as int]@);
    assert(ps.drop_first() =~= views(parents@).skip(i + 1));
    let k = parents[i].as_slice();
    let ghost old_v = v@;
    match v {
        JsonValue::Object(m) => {
            proof { lemma_object_view(*m); }
            let ghost om = entries_view(m@);
            match entries_find(m, k) {
                Some(idx) => {
                    let ghost old_m = m@;
                    let r = descend_exec(&mut m[idx].value, parents, i + 1, base, cp, create);
                    proof {
                        lemma_object_view(*m);
                        let c = m@[idx as int].value@;
                        assert(m@[idx as int].key@ == om[idx as int].0);
                        assert(om[idx as int].0 == k@);
                        assert(entries_view(m@) =~= om.update(idx as int, (k@, c)));
                        lemma_find_after_value_update(om, idx as int, c, k@);
                        if let Reach::Found(p) = r@ {
                            lemma_at_key(entries_view(m@), k@, idx as int, p);
                        }
                    }
                    prepend_step(PathStep::Key(bytes_copy(k)), r)
                },
                None => {
                    if !cp {
                        return Located::Missing;
                    }
                    let p = entries_lower_bound(m, k);
                    let mut child = JsonValue::Null;
                    let r = descend_exec(&mut child, parents, i + 1, base, cp, create);
                    let key = bytes_copy(k);
                    m.insert(p, JsonEntry { key, value: child });
                    proof {
                        lemma_object_view(*m);
                        assert(entries_view(m@) =~= om.insert(p as int, (k@, child@)));
                        lemma_find_after_insert(om, k@, child@);
                        if let Reach::Found(pp) = r@ {
                            lemma_at_key(entries_view(m@), k@, p as int, pp);
                        }
                    }
                    prepend_step(PathStep::Key(bytes_copy(k)), r)
                },
            }
        },
        JsonValue::Array(a) => {
            proof { lemma_array_view(*a); }
            let ghost oa = elems_view(a@);
            let alen = a.len();
            match as_array_idx(k, alen) {
                None => Located::Missing,
                Some(idx) => {
                    if idx == usize::MAX {
                        return Located::Panics;
                    }
                    if alen < idx + 1 {
                        if !cp {
                            return Located::Missing;
                        }
                        push_nulls(a, idx + 1 - alen);
                    }
                    let ghost grown = elems_view(a@);
                    proof {
                        if alen < idx + 1 {
                            assert(grown[idx as int] == Json::Null);
                        } else {
                            assert(grown == oa);
                        }
                    }
                    let r = descend_exec(&mut a[idx], parents, i + 1, base, cp, create);
                    proof {
                        lemma_array_view(*a);
                        assert(elems_view(a@) =~= grown.update(idx as int, a@[idx as int]@));
                        if let Reach::Found(pp) = r@ {
                            lemma_at_index(elems_view(a@), idx as int, pp);
                        }
                    }
                    prepend_step(PathStep::Index(idx), r)
                },
            }
        },
        JsonValue::Null => {
            if !cp {
                return Located::Missing;
            }
            match as_array_idx(k, 0) {
                Some(idx) => {
                    if idx == usize::MAX {
                        return Located::Panics;
                    }
                    let mut child = JsonValue::Null;
                    let r = descend_exec(&mut child, parents, i + 1, base, cp, create);
                    let mut a: Vec<JsonValue> = Vec::new();
                    push_nulls(&mut a, idx + 1);
                    let ghost nulls = elems_view(a@);
                    a.set(idx, child);
                    proof {
                        assert(elems_view(Seq::<JsonValue>::empty()) =~= Seq::empty());
                        assert(nulls =~= null_seq((idx + 1) as nat));
                        assert(elems_view(a@) =~= nulls.update(idx as int, child@));
                        lemma_array_view(a);
                        if let Reach::Found(pp) = r@ {
                            lemma_at_index(elems_view(a@), idx as int, pp);
                        }
                    }
                    *v = JsonValue::Array(a);
                    prepend_step(PathStep::Index(idx), r)
                },
                None => {
                    let mut child = JsonValue::Null;
                    let r = descend_exec(&mut child, parents, i + 1, base, cp, create);
                    let key = bytes_copy(k);
                    let mut m: Vec<JsonEntry> = Vec::new();
                    m.push(JsonEntry { key, value: child });
                    proof {
                        lemma_object_view(m);
                        assert(entries_view(m@) =~= seq![(k@, child@)]);
                        let e = Seq::<(Seq<u8>, Json)>::empty();
                        lemma_lower_bound_exists(e, k@);
                        assert(seq![(k@, child@)] =~= e.insert(0, (k@, child@)));
                        lemma_find_after_insert(e, k@, child@);
                        if let Reach::Found(pp) = r@ {
                            lemma_at_key(entries_view(m@), k@, 0, pp);
                        }
                    }
                    *v = JsonValue::Object(m);
                    prepend_step(PathStep::Key(bytes_copy(k)), r)
                },
            }
        },
        _ => Located::Missing,
    }
}

/// The memory behind an optional key pointer.
pub open spec fn key_view(key: Option<&[u8]>) -> Option<Seq<u8>> {
    match key {
        Some(k) => Some(k@),
        None => None,
    }
}

/// What the natives require of a key: an explicit length stays within its memory.
pub open spec fn key_ok(key: Option<&[u8]>, keylen: i32) -> bool {
    key matches Some(k) ==> (keylen >= 1 ==> keylen <= k@.len())
}

/// The unescaped segments of a pointer but the last.
pub fn parent_keys(segs: &Vec<Vec<u8>>) -> (r: Vec<Vec<u8>>)
    requires
        segs@.len() > 0,
    ensures
        views(r@) == views(segs@).drop_last().map_values(|x: Seq<u8>| unescape(x)),
{
    let last = segs.len() - 1;
    let mut parents: Vec<Vec<u8>> = Vec::new();
    let ghost sv = views(segs@);
    let mut j: usize = 0;
    while j < last
        invariant
            j <= last,
            last + 1 == segs.len(),
            sv == views(segs@),
            views(parents@) == sv.take(j as int).map_values(|x: Seq<u8>| unescape(x)),
        decreases last - j,
    {
        let u = unescape_segment(segs[j].as_slice());
        let ghost before = views(parents@);
        parents.push(u);
        j += 1;
        proof {
            let target = sv.take(j as int).map_values(|x: Seq<u8>| unescape(x));
            assert(sv.len() == segs@.len());
            assert(before.len() == j - 1);
            assert(target.len() == j);
            assert(views(parents@).len() == j);
            assert forall|x: int| 0 <= x < target.len() implies #[trigger] views(parents@)[x] == target[x] by {
                if x < j - 1 {
                    assert(views(parents@)[x] == before[x]);
                    assert(before[x] == sv.take(j - 1).map_values(|y: Seq<u8>| unescape(y))[x]);
                } else {
                    assert(views(parents@)[x] == u@);
                    assert(sv[x] == segs@[x]@);
                }
            }
            assert(views(parents@) =~= target);
        }
    }
    assert(sv.take(last as int) =~= sv.drop_last());
    parents
}

/// `sidx`: follows `key` into `root`, creating the target when `create` is
/// set and missing parents when the flags ask for it, and returns the path
/// to the place it leads to.
pub fn sidx(root: &mut JsonValue, key: Option<&[u8]>, keylen: i32, flags: JsonFlags, create: bool) -> (r: Located)
    requires
        key_ok(key, keylen),
    ensures
        (final(root)@, r@) == sidx_spec(old(root)@, key_view(key), keylen, flags, create),
        r@ matches Reach::Found(p) ==> json_at(final(root)@, p) is Some,
{
    match key {
        None => {
            let p: Vec<PathStep> = Vec::new();
            assert(path_view(p@) =~= Seq::empty());
            Located::Found(p)
        },
        Some(mem) => {
            let k = match strxx(mem, flags.unchecked_utf8_key, keylen) {
                None => { return Located::Missing; },
                Some(k) => k,
            };
            if flags.no_pointer || k[0] != 47 {
                match root {
                    JsonValue::Object(m) => {
                        proof { lemma_object_view(*m); }
                        if create {
                            let _ = entries_entry(m, k.as_slice());
                            proof {
                                lemma_object_view(*m);
                                reveal_with_fuel(json_at, 2);
                            }
                            single_step(PathStep::Key(k))
                        } else if entries_find(m, k.as_slice()).is_some() {
                            proof { reveal_with_fuel(json_at, 2); }
                            single_step(PathStep::Key(k))
                        } else {
                            Located::Missing
                        }
                    },
                    _ => Located::Missing,
                }
            } else {
                let segs = split_segments(k.as_slice());
                if segs.len() == 0 {
                    return Located::Missing;
                }
                let last = segs.len() - 1;
                let parents = parent_keys(&segs);
                proof {
                    assert(views(parents@).skip(0) =~= views(parents@));
                    assert(views(segs@).last() == segs@[last as int]@);
                }
                let base = unescape_segment(segs[last].as_slice());
                descend_exec(root, &parents, 0, base.as_slice(), flags.create_parents, create)
            }
        },
    }
}

/// The steps `path[i..]` as a mathematical path.
proof fn lemma_path_step(path: Seq<PathStep>, i: int)
    requires
        0 <= i < path.len(),
    ensures
        path_view(path).skip(i)[0] == path[i]@,
        path_view(path).skip(i).drop_first() == path_view(path).skip(i + 1),
        path_view(path).skip(i).len() > 0,
{
    assert(path_view(path).skip(i).drop_first() =~= path_view(path).skip(i + 1));
}

/// The value at the end of the steps `path[i..]` below `v`.
pub fn get_at<'a>(v: &'a JsonValue, path: &Vec<PathStep>, i: usize) -> (r: Option<&'a JsonValue>)
    requires
        i <= path@.len(),
    ensures
        r matches Some(x) ==> json_at(v@, path_view(path@).skip(i as int)) == Some(x@),
        r is None ==> json_at(v@, path_view(path@).skip(i as int)) is None,
    decreases path@.len() - i,
{
    if i == path.len() {
        assert(path_view(path@).skip(i as int).len() == 0);
        return Some(v);
    }
    proof { lemma_path_step(path@, i as int); }
    match &path[i] {
        PathStep::Index(j) => match v {
            JsonValue::Array(a) => {
                proof { lemma_array_view(*a); }
                if *j < a.len() {
                    get_at(&a[*j], path, i + 1)
                } else {
                    None
                }
            },
            _ => None,
        },
        PathStep::Key(k) => match v {
            JsonValue::Object(m) => {
                proof { lemma_object_view(*m); }
                match entries_find(m, k.as_slice()) {
                    Some(j) => get_at(&m[j].value, path, i + 1),
                    None => None,
                }
            },
            _ => None,
        },
    }
}

/// Puts `new` at the end of the steps `path[i..]` below `v`, which must lead
/// somewhere, and hands back the value that was there.
pub fn replace_at(v: &mut JsonValue, path: &Vec<PathStep>, i: usize, new: JsonValue) -> (r: JsonValue)
    requires
        i <= path@.len(),
        json_at(old(v)@, path_view(path@).skip(i as int)) is Some,
    ensures
        final(v)@ == json_put(old(v)@, path_view(path@).skip(i as int), new@),
        json_at(old(v)@, path_view(path@).skip(i as int)) == Some(r@),
    decreases path@.len() - i,
{
    if i == path.len() {
        assert(path_view(path@).skip(i as int).len() == 0);
        let mut new = new;
        std::mem::swap(v, &mut new);
        return new;
    }
    proof { lemma_path_step(path@, i as int); }
    let ghost ov = v@;
    match &path[i] {
        PathStep::Index(j) => match v {
            JsonValue::Array(a) => {
                proof { lemma_array_view(*a); }
                let ghost oa = elems_view(a@);
                let r = replace_at(&mut a[*j], path, i + 1, new);
                proof {
                    lemma_array_view(*a);
                    assert(elems_view(a@) =~= oa.update(*j as int, a@[*j as int]@));
                }
                r
            },
            _ => {
                proof { assert(false); }
                new
            },
        },
        PathStep::Key(k) => match v {
            JsonValue::Object(m) => {
                proof { lemma_object_view(*m); }
                let ghost om = entries_view(m@);
                match entries_find(m, k.as_slice()) {
                    Some(j) => {
                        let r = replace_at(&mut m[j].value, path, i + 1, new);
                        proof {
                            lemma_object_view(*m);
                            assert(entries_view(m@) =~= om.update(j as int, (om[j as int].0, m@[j as int].value@)));
                        }
                        r
                    },
                    None => {
                        proof { assert(false); }
                        new
                    },
                }
            },
            _ => {
                proof { assert(false); }
                new
            },
        },
    }
}

/// Removing the last segment of a pointer from `v` (array elements shift
/// down, or with `swap` the last element moves into the hole).
pub open spec fn remove_base(v: Json, base: Seq<u8>, swap: bool) -> (Json, bool) {
    match v {
        Json::Array(x) => match spec_as_array_idx(base, x.len() as usize) {
            None => (v, false),
            Some(i) => if i >= x.len() {
                (v, false)
            } else if swap {
                (Json::Array(x.update(i as int, x.last()).drop_last()), true)
            } else {
                (Json::Array(x.remove(i as int)), true)
            },
        },
        Json::Object(m) => match obj_find(m, base) {
            Some(i) => (Json::Object(m.remove(i)), true),
            None => (v, false),
        },
        _ => (v, false),
    }
}

/// Following the (unescaped) parent segments of a pointer from `v` without
/// creating anything, then removing the last segment.
pub open spec fn remove_path(v: Json, parents: Seq<Seq<u8>>, base: Seq<u8>, swap: bool) -> (Json, bool)
    decreases parents.len(),
{
    if parents.len() == 0 {
        remove_base(v, base, swap)
    } else {
        let k = parents[0];
        let rest = parents.drop_first();
        match v {
            Json::Array(a) => match spec_as_array_idx(k, a.len() as usize) {
                Some(i) => if i < a.len() {
                    let (c, ok) = remove_path(a[i as int], rest, base, swap);
                    (Json::Array(a.update(i as int, c)), ok)
                } else {
                    (v, false)
                },
                None => (v, false),
            },
            Json::Object(m) => match obj_find(m, k) {
                Some(i) => {
                    let (c, ok) = remove_path(m[i].1, rest, base, swap);
                    (Json::Object(m.update(i, (m[i].0, c))), ok)
                },
                None => (v, false),
            },
            _ => (v, false),
        }
    }
}

/// `sidxremove`: the value after removing what `key` names, and whether
/// something was removed.
pub open spec fn sidxremove_spec(root: Json, key: Seq<u8>, keylen: i32, flags: JsonFlags) -> (Json, bool) {
    match spec_strxx(key, flags.unchecked_utf8_key, keylen) {
        None => (root, false),
        Some(k) => if flags.no_pointer || k[0] != 47 {
            match root {
                Json::Object(m) => match obj_find(m, k) {
                    Some(i) => (Json::Object(m.remove(i)), true),
                    None => (root, false),
                },
                _ => (root, false),
            }
        } else {
            let segs = segments(k);
            if segs.len() == 0 {
                (root, false)
            } else {
                remove_path(root, segs.drop_last().map_values(|s: Seq<u8>| unescape(s)), unescape(segs.last()), flags.swap_remove)
            }
        },
    }
}

/// Removes the member `k` of an object's entries, if it is there.
fn remove_member(m: &mut Vec<JsonEntry>, k: &[u8]) -> (r: bool)
    ensures
        match obj_find(entries_view(old(m)@), k@) {
            Some(i) => r && entries_view(final(m)@) == entries_view(old(m)@).remove(i),
            None => !r && final(m)@ == old(m)@,
        },
{
    let ghost om = entries_view(m@);
    match entries_find(m, k) {
        Some(i) => {
            let _ = m.remove(i);
            assert(entries_view(m@) =~= om.remove(i as int));
            true
        },
        None => false,
    }
}

/// The last segment of a pointer removed from `v`.
fn remove_base_exec(v: &mut JsonValue, base: &[u8], swap: bool) -> (r: bool)
    ensures
        (final(v)@, r) == remove_base(old(v)@, base@, swap),
{
    match v {
        JsonValue::Array(x) => {
            proof { lemma_array_view(*x); }
            let ghost ox = elems_view(x@);
            let xlen = x.len();
            match as_array_idx(base, xlen) {
                None => false,
                Some(i) => {
                    if i >= xlen {
                        return false;
                    }
                    if swap {
                        let _ = x.swap_remove(i);
                        proof {
                            lemma_array_view(*x);
                            assert(elems_view(x@) =~= ox.update(i as int, ox.last()).drop_last());
                        }
                    } else {
                        let _ = x.remove(i);
                        proof {
                            lemma_array_view(*x);
                            assert(elems_view(x@) =~= ox.remove(i as int));
                        }
                    }
                    true
                },
            }
        },
        JsonValue::Object(m) => {
            proof { lemma_object_view(*m); }
            let r = remove_member(m, base);
            proof { lemma_object_view(*m); }
            r
        },
        _ => false,
    }
}

/// Following the parent segments `parents[i..]` from `v`, then removing the last segment.
fn remove_walk(v: &mut JsonValue, parents: &Vec<Vec<u8>>, i: usize, base: &[u8], swap: bool) -> (r: bool)
    requires
        i <= parents@.len(),
    ensures
        (final(v)@, r) == remove_path(old(v)@, views(parents@).skip(i as int), base@, swap),
    decreases parents@.len() - i,
{
    let ghost ps = views(parents@).skip(i as int);
    if i == parents.len() {
        assert(ps.len() == 0);
        return remove_base_exec(v, base, swap);
    }
    assert(ps[0] == parents@[i as int]@);
    assert(ps.drop_first() =~= views(parents@).skip(i + 1));
    let k = parents[i].as_slice();
    match v {
        JsonValue::Array(a) => {
            proof { lemma_array_view(*a); }
            let ghost oa = elems_view(a@);
            match as_array_idx(k, a.len()) {
                Some(idx) => {
                    if idx < a.len() {
                        let r = remove_walk(&mut a[idx], parents, i + 1, base, swap);
                        proof {
                            lemma_array_view(*a);
                            assert(elems_view(a@) =~= oa.update(idx as int, a@[idx as int]@));
                        }
                        r
                    } else {
                        false
                    }
                },
                None => false,
            }
        },
        JsonValue::Object(m) => {
            proof { lemma_object_view(*m); }
            let ghost om = entries_view(m@);
            match entries_find(m, k) {
                Some(idx) => {
                    let r = remove_walk(&mut m[idx].value, parents, i + 1, base, swap);
                    proof {
                        lemma_object_view(*m);
                        assert(entries_view(m@) =~= om.update(idx as int, (om[idx as int].0, m@[idx as int].value@)));
                    }
                    r
                },
                None => false,
            }
        },
        _ => false,
    }
}

/// `sidxremove`: removes what `key` names (a member of the root object, or
/// with a pointer the member or element its last segment names); `true`
/// when something was removed.
pub fn sidxremove(object: &mut JsonValue, key: &[u8], keylen: i32, flags: JsonFlags) -> (r: bool)
    requires
        keylen >= 1 ==> keylen <= key@.len(),
    ensures
        (final(object)@, r) == sidxremove_spec(old(object)@, key@, keylen, flags),
{
    let k = match strxx(key, flags.unchecked_utf8_key, keylen) {
        None => { return false; },
        Some(k) => k,
    };
    if flags.no_pointer || k[0] != 47 {
        match object {
            JsonValue::Object(m) => {
                proof { lemma_object_view(*m); }
                let r = remove_member(m, k.as_slice());
                proof { lemma_object_view(*m); }
                r
            },
            _ => false,
        }
    } else {
        let segs = split_segments(k.as_slice());
        if segs.len() == 0 {
            return false;
        }
        let last = segs.len() - 1;
        let parents = parent_keys(&segs);
        proof {
            assert(views(parents@).skip(0) =~= views(parents@));
            assert(views(segs@).last() == segs@[last as int]@);
        }
        let base = unescape_segment(segs[last].as_slice());
        remove_walk(object, &parents, 0, base.as_slice(), flags.swap_remove)
    }
}

/// Reading back a value put at a place gives that value.
pub proof fn lemma_at_put(v: Json, p: Seq<Loc>, x: Json)
    requires
        json_at(v, p) is Some,
    ensures
        json_at(json_put(v, p, x), p) == Some(x),
    decreases p.len(),
{
    if p.len() > 0 {
        match (p[0], v) {
            (Loc::Index(i), Json::Array(a)) => {
                lemma_at_put(a[i], p.drop_first(), x);
            },
            (Loc::Key(k), Json::Object(m)) => {
                let j = obj_find(m, k)->0;
                lemma_lower_bound_exists(m, k);
                let c = json_put(m[j].1, p.drop_first(), x);
                lemma_at_put(m[j].1, p.drop_first(), x);
                lemma_find_after_value_update(m, j, c, k);
            },
            _ => {},
        }
    }
}

/// A second put at the same place overrides the first.
pub proof fn lemma_put_put(v: Json, p: Seq<Loc>, x: Json, y: Json)
    requires
        json_at(v, p) is Some,
    ensures
        json_put(json_put(v, p, x), p, y) == json_put(v, p, y),
    decreases p.len(),
{
    if p.len() > 0 {
        match (p[0], v) {
            (Loc::Index(i), Json::Array(a)) => {
                lemma_put_put(a[i], p.drop_first(), x, y);
                let c = json_put(a[i], p.drop_first(), x);
                assert(a.update(i, c).update(i, json_put(c, p.drop_first(), y)) =~= a.update(i, json_put(a[i], p.drop_first(), y)));
            },
            (Loc::Key(k), Json::Object(m)) => {
                let j = obj_find(m, k)->0;
                lemma_lower_bound_exists(m, k);
                let c = json_put(m[j].1, p.drop_first(), x);
                lemma_put_put(m[j].1, p.drop_first(), x, y);
                lemma_find_after_value_update(m, j, c, k);
                let m2 = m.update(j, (m[j].0, c));
                assert(m2.update(j, (m2[j].0, json_put(m2[j].1, p.drop_first(), y))) =~= m.update(j, (m[j].0, json_put(m[j].1, p.drop_first(), y))));
            },
            _ => {},
        }
    }
}

/// Putting back the value that is at a place changes nothing.
pub proof fn lemma_put_same(v: Json, p: Seq<Loc>)
    requires
        json_at(v, p) is Some,
    ensures
        json_put(v, p, json_at(v, p)->0) == v,
    decreases p.len(),
{
    if p.len() > 0 {
        match (p[0], v) {
            (Loc::Index(i), Json::Array(a)) => {
                lemma_put_same(a[i], p.drop_first());
                assert(a.update(i, a[i]) =~= a);
            },
            (Loc::Key(k), Json::Object(m)) => {
                let j = obj_find(m, k)->0;
                lemma_lower_bound_exists(m, k);
                lemma_put_same(m[j].1, p.drop_first());
                assert(m.update(j, (m[j].0, m[j].1)) =~= m);
            },
            _ => {},
        }
    }
}

} // verus!
