//! Objects keep their keys sorted: every way the natives change a value
//! (looking a key up with creation, putting a value at a place, removing
//! what a key names) keeps every object in it sorted, so `obj_find` finds
//! exactly the member with a key.

use vstd::prelude::*;
use crate::json::value::{Json, obj_find, obj_entry, lower_bound, keys_sorted, lemma_insert_sorted, lemma_lower_bound_exists};
use crate::json::pointer::{spec_as_array_idx, segments, unescape};
use crate::json::walk::{
    Loc, Reach, JsonFlags, at_base, descend, sidx_spec, json_put, json_at, null_seq, remove_base, remove_path,
    sidxremove_spec,
};
use crate::cstr::spec_strxx;

verus! {

/// Every object in the value has its keys in strictly increasing order.
pub open spec fn json_sorted(j: Json) -> bool
    decreases j,
{
    match j {
        Json::Array(a) => forall|i: int| 0 <= i < a.len() ==> json_sorted(#[trigger] a[i]),
        Json::Object(m) => keys_sorted(m) && forall|i: int| 0 <= i < m.len() ==> json_sorted(#[trigger] m[i].1),
        _ => true,
    }
}

/// An object whose members are replaced by values under the same keys stays sorted.
proof fn lemma_same_keys(m: Seq<(Seq<u8>, Json)>, i: int, c: Json)
    requires
        keys_sorted(m),
        0 <= i < m.len(),
    ensures
        keys_sorted(m.update(i, (m[i].0, c))),
{
    let n = m.update(i, (m[i].0, c));
    assert forall|a: int, b: int| 0 <= a < b < n.len() implies crate::json::value::key_lt(#[trigger] n[a].0, #[trigger] n[b].0) by {
        assert(n[a].0 == m[a].0 && n[b].0 == m[b].0);
    }
}

/// Putting a sorted value at a place keeps a sorted value sorted.
pub proof fn law_put_keeps_sorted(v: Json, p: Seq<Loc>, x: Json)
    requires
        json_sorted(v),
        json_sorted(x),
    ensures
        json_sorted(json_put(v, p, x)),
    decreases p.len(),
{
    if p.len() > 0 {
        match (p[0], v) {
            (Loc::Index(i), Json::Array(a)) => {
                if 0 <= i < a.len() {
                    law_put_keeps_sorted(a[i], p.drop_first(), x);
                    let a2 = a.update(i, json_put(a[i], p.drop_first(), x));
                    assert forall|j: int| 0 <= j < a2.len() implies json_sorted(#[trigger] a2[j]) by {
                        if j != i {
                            assert(a2[j] == a[j]);
                        }
                    }
                }
            },
            (Loc::Key(k), Json::Object(m)) => {
                lemma_lower_bound_exists(m, k);
                match obj_find(m, k) {
                    Some(j) => {
                        law_put_keeps_sorted(m[j].1, p.drop_first(), x);
                        let c = json_put(m[j].1, p.drop_first(), x);
                        lemma_same_keys(m, j, c);
                        let m2 = m.update(j, (m[j].0, c));
                        assert forall|q: int| 0 <= q < m2.len() implies json_sorted(#[trigger] m2[q].1) by {
                            if q != j {
                                assert(m2[q] == m[q]);
                            }
                        }
                    },
                    None => {},
                }
            },
            _ => {},
        }
    }
}

/// What a path leads to in a sorted value is sorted.
pub proof fn lemma_at_sorted(v: Json, p: Seq<Loc>)
    requires
        json_sorted(v),
        json_at(v, p) is Some,
    ensures
        json_sorted(json_at(v, p)->0),
    decreases p.len(),
{
    if p.len() > 0 {
        match (p[0], v) {
            (Loc::Index(i), Json::Array(a)) => {
                lemma_at_sorted(a[i], p.drop_first());
            },
            (Loc::Key(k), Json::Object(m)) => {
                let j = obj_find(m, k)->0;
                lemma_lower_bound_exists(m, k);
                lemma_at_sorted(m[j].1, p.drop_first());
            },
            _ => {},
        }
    }
}

/// Inserting a member under a missing key at its place keeps an object sorted.
proof fn lemma_insert_member(m: Seq<(Seq<u8>, Json)>, k: Seq<u8>, c: Json)
    requires
        json_sorted(Json::Object(m)),
        json_sorted(c),
        obj_find(m, k) is None,
    ensures
        json_sorted(Json::Object(m.insert(lower_bound(m, k), (k, c)))),
{
    lemma_insert_sorted(m, k, c);
    lemma_lower_bound_exists(m, k);
    let p = lower_bound(m, k);
    let n = m.insert(p, (k, c));
    assert forall|q: int| 0 <= q < n.len() implies json_sorted(#[trigger] n[q].1) by {
        if q < p {
            assert(n[q] == m[q]);
        } else if q > p {
            assert(n[q] == m[q - 1]);
        }
    }
}

/// Looking up the last segment, creating it or not, keeps a sorted value sorted.
proof fn lemma_base_keeps_sorted(v: Json, base: Seq<u8>, cp: bool, create: bool)
    requires
        json_sorted(v),
    ensures
        json_sorted(at_base(v, base, cp, create).0),
{
    if !(v is Null && !cp) {
        let v1 = if v is Null {
            if spec_as_array_idx(base, 0) is Some { Json::Array(Seq::empty()) } else { Json::Object(Seq::empty()) }
        } else {
            v
        };
        assert(json_sorted(v1));
        match v1 {
            Json::Array(x) => {
                let y = x.push(Json::Null);
                assert forall|j: int| 0 <= j < y.len() implies json_sorted(#[trigger] y[j]) by {
                    if j < x.len() {
                        assert(y[j] == x[j]);
                    }
                }
            },
            Json::Object(m) => {
                if create && obj_find(m, base) is None {
                    lemma_insert_member(m, base, Json::Null);
                }
            },
            _ => {},
        }
    }
}

/// Following the parents and the last segment, creating or not, keeps a
/// sorted value sorted.
proof fn lemma_descend_keeps_sorted(v: Json, parents: Seq<Seq<u8>>, base: Seq<u8>, cp: bool, create: bool)
    requires
        json_sorted(v),
    ensures
        json_sorted(descend(v, parents, base, cp, create).0),
    decreases parents.len(),
{
    if parents.len() == 0 {
        lemma_base_keeps_sorted(v, base, cp, create);
        return;
    }
    let k = parents[0];
    let rest = parents.drop_first();
    match v {
        Json::Object(m) => {
            lemma_lower_bound_exists(m, k);
            match obj_find(m, k) {
                Some(i) => {
                    lemma_descend_keeps_sorted(m[i].1, rest, base, cp, create);
                    let c = descend(m[i].1, rest, base, cp, create).0;
                    assert(m[i].0 == k);
                    lemma_same_keys(m, i, c);
                    let m2 = m.update(i, (k, c));
                    assert(m2 == m.update(i, (m[i].0, c)));
                    assert forall|q: int| 0 <= q < m2.len() implies json_sorted(#[trigger] m2[q].1) by {
                        if q != i {
                            assert(m2[q] == m[q]);
                        }
                    }
                },
                None => {
                    if cp {
                        lemma_descend_keeps_sorted(Json::Null, rest, base, cp, create);
                        let c = descend(Json::Null, rest, base, cp, create).0;
                        lemma_insert_member(m, k, c);
                    }
                },
            }
        },
        Json::Array(a) => {
            match spec_as_array_idx(k, a.len() as usize) {
                Some(idx) => {
                    if idx != usize::MAX {
                        if a.len() < idx + 1 {
                            if cp {
                                lemma_descend_keeps_sorted(Json::Null, rest, base, cp, create);
                                let c = descend(Json::Null, rest, base, cp, create).0;
                                let g = a + null_seq((idx + 1 - a.len()) as nat);
                                let a2 = g.update(idx as int, c);
                                assert forall|j: int| 0 <= j < a2.len() implies json_sorted(#[trigger] a2[j]) by {
                                    if j != idx {
                                        if j < a.len() {
                                            assert(a2[j] == a[j]);
                                        } else {
                                            assert(a2[j] == Json::Null);
                                        }
                                    }
                                }
                            }
                        } else {
                            lemma_descend_keeps_sorted(a[idx as int], rest, base, cp, create);
                            let c = descend(a[idx as int], rest, base, cp, create).0;
                            let a2 = a.update(idx as int, c);
                            assert forall|j: int| 0 <= j < a2.len() implies json_sorted(#[trigger] a2[j]) by {
                                if j != idx {
                                    assert(a2[j] == a[j]);
                                }
                            }
                        }
                    }
                },
                None => {},
            }
        },
        Json::Null => {
            if cp {
                lemma_descend_keeps_sorted(Json::Null, rest, base, cp, create);
                let c = descend(Json::Null, rest, base, cp, create).0;
                match spec_as_array_idx(k, 0) {
                    Some(idx) => {
                        if idx != usize::MAX {
                            let a2 = null_seq((idx + 1) as nat).update(idx as int, c);
                            assert forall|j: int| 0 <= j < a2.len() implies json_sorted(#[trigger] a2[j]) by {
                                if j != idx {
                                    assert(a2[j] == Json::Null);
                                }
                            }
                        }
                    },
                    None => {
                        let m2 = seq![(k, c)];
                        assert(keys_sorted(m2));
                        assert forall|q: int| 0 <= q < m2.len() implies json_sorted(#[trigger] m2[q].1) by {
                            assert(m2[q].1 == c);
                        }
                    },
                }
            }
        },
        _ => {},
    }
}

/// A lookup (`sidx`, creating or not, with any key and flags) keeps every
/// object of a sorted value sorted.
pub proof fn law_lookup_keeps_sorted(root: Json, key: Option<Seq<u8>>, keylen: i32, flags: JsonFlags, create: bool)
    requires
        json_sorted(root),
    ensures
        json_sorted(sidx_spec(root, key, keylen, flags, create).0),
{
    match key {
        None => {},
        Some(mem) => {
            match spec_strxx(mem, flags.unchecked_utf8_key, keylen) {
                None => {},
                Some(k) => {
                    if flags.no_pointer || k[0] != 47 {
                        match root {
                            Json::Object(m) => {
                                if create && obj_find(m, k) is None {
                                    lemma_insert_member(m, k, Json::Null);
                                }
                            },
                            _ => {},
                        }
                    } else {
                        let segs = segments(k);
                        if segs.len() > 0 {
                            lemma_descend_keeps_sorted(root, segs.drop_last().map_values(|s: Seq<u8>| unescape(s)),
                                unescape(segs.last()), flags.create_parents, create);
                        }
                    }
                },
            }
        },
    }
}

/// Removing a member from a sorted object keeps it sorted.
proof fn lemma_remove_member(m: Seq<(Seq<u8>, Json)>, i: int)
    requires
        json_sorted(Json::Object(m)),
        0 <= i < m.len(),
    ensures
        json_sorted(Json::Object(m.remove(i))),
{
    let n = m.remove(i);
    assert forall|a: int, b: int| 0 <= a < b < n.len() implies crate::json::value::key_lt(#[trigger] n[a].0, #[trigger] n[b].0) by {
        let a0 = if a < i { a } else { a + 1 };
        let b0 = if b < i { b } else { b + 1 };
        assert(n[a] == m[a0] && n[b] == m[b0]);
    }
    assert forall|q: int| 0 <= q < n.len() implies json_sorted(#[trigger] n[q].1) by {
        if q < i {
            assert(n[q] == m[q]);
        } else {
            assert(n[q] == m[q + 1]);
        }
    }
}

proof fn lemma_remove_path_keeps_sorted(v: Json, parents: Seq<Seq<u8>>, base: Seq<u8>, swap: bool)
    requires
        json_sorted(v),
    ensures
        json_sorted(remove_path(v, parents, base, swap).0),
    decreases parents.len(),
{
    if parents.len() == 0 {
        match v {
            Json::Array(x) => {
                match spec_as_array_idx(base, x.len() as usize) {
                    Some(i) => {
                        if i < x.len() {
                            if swap {
                                let y = x.update(i as int, x.last()).drop_last();
                                assert forall|j: int| 0 <= j < y.len() implies json_sorted(#[trigger] y[j]) by {
                                    if j != i {
                                        assert(y[j] == x[j]);
                                    } else {
                                        assert(y[j] == x[x.len() - 1]);
                                    }
                                }
                            } else {
                                let y = x.remove(i as int);
                                assert forall|j: int| 0 <= j < y.len() implies json_sorted(#[trigger] y[j]) by {
                                    if j < i {
                                        assert(y[j] == x[j]);
                                    } else {
                                        assert(y[j] == x[j + 1]);
                                    }
                                }
                            }
                        }
                    },
                    None => {},
                }
            },
            Json::Object(m) => {
                match obj_find(m, base) {
                    Some(i) => {
                        lemma_lower_bound_exists(m, base);
                        lemma_remove_member(m, i);
                    },
                    None => {},
                }
            },
            _ => {},
        }
        return;
    }
    let k = parents[0];
    let rest = parents.drop_first();
    match v {
        Json::Array(a) => {
            match spec_as_array_idx(k, a.len() as usize) {
                Some(i) => {
                    if i < a.len() {
                        lemma_remove_path_keeps_sorted(a[i as int], rest, base, swap);
                        let c = remove_path(a[i as int], rest, base, swap).0;
                        let a2 = a.update(i as int, c);
                        assert forall|j: int| 0 <= j < a2.len() implies json_sorted(#[trigger] a2[j]) by {
                            if j != i {
                                assert(a2[j] == a[j]);
                            }
                        }
                    }
                },
                None => {},
            }
        },
        Json::Object(m) => {
            match obj_find(m, k) {
                Some(i) => {
                    lemma_lower_bound_exists(m, k);
                    lemma_remove_path_keeps_sorted(m[i].1, rest, base, swap);
                    let c = remove_path(m[i].1, rest, base, swap).0;
                    lemma_same_keys(m, i, c);
                    let m2 = m.update(i, (m[i].0, c));
                    assert forall|q: int| 0 <= q < m2.len() implies json_sorted(#[trigger] m2[q].1) by {
                        if q != i {
                            assert(m2[q] == m[q]);
                        }
                    }
                },
                None => {},
            }
        },
        _ => {},
    }
}

/// Removing what a key names (`sidxremove`, any key and flags) keeps every
/// object of a sorted value sorted.
pub proof fn law_remove_keeps_sorted(root: Json, key: Seq<u8>, keylen: i32, flags: JsonFlags)
    requires
        json_sorted(root),
    ensures
        json_sorted(sidxremove_spec(root, key, keylen, flags).0),
{
    match spec_strxx(key, flags.unchecked_utf8_key, keylen) {
        None => {},
        Some(k) => {
            if flags.no_pointer || k[0] != 47 {
                match root {
                    Json::Object(m) => {
                        match obj_find(m, k) {
                            Some(i) => {
                                lemma_lower_bound_exists(m, k);
                                lemma_remove_member(m, i);
                            },
                            None => {},
                        }
                    },
                    _ => {},
                }
            } else {
                let segs = segments(k);
                if segs.len() > 0 {
                    lemma_remove_path_keeps_sorted(root, segs.drop_last().map_values(|s: Seq<u8>| unescape(s)),
                        unescape(segs.last()), flags.swap_remove);
                }
            }
        },
    }
}

/// A lookup, then a sorted value put where it led, keeps a sorted value
/// sorted (what the setters do).
pub proof fn law_set_keeps_sorted(root: Json, key: Option<Seq<u8>>, keylen: i32, flags: JsonFlags, create: bool, x: Json)
    ensures
        json_sorted(root) ==> json_sorted(sidx_spec(root, key, keylen, flags, create).0),
        json_sorted(root) && json_sorted(x) && sidx_spec(root, key, keylen, flags, create).1 is Found ==>
            json_sorted(json_put(sidx_spec(root, key, keylen, flags, create).0, sidx_spec(root, key, keylen, flags, create).1->Found_0, x)),
{
    if json_sorted(root) {
        law_lookup_keeps_sorted(root, key, keylen, flags, create);
        let l = sidx_spec(root, key, keylen, flags, create);
        if json_sorted(x) && l.1 is Found {
            law_put_keeps_sorted(l.0, l.1->Found_0, x);
        }
    }
}

/// Changing the elements of an array by sorted values keeps it sorted
/// (what the index natives do): growing it with nulls and setting an
/// element, or removing one.
pub proof fn law_index_natives_keep_sorted(a: Seq<Json>, at: int, x: Json)
    requires
        json_sorted(Json::Array(a)),
        json_sorted(x),
        0 <= at,
    ensures
        json_sorted(Json::Array(crate::json::natives::grown(a, at).update(at, x))),
        at < a.len() ==> json_sorted(Json::Array(a.remove(at))),
        at < a.len() ==> json_sorted(Json::Array(a.update(at, a.last()).drop_last())),
{
    let v = Json::Array(a);
    assert forall|j: int| 0 <= j < a.len() implies json_sorted(#[trigger] a[j]) by {
        match v {
            Json::Array(b) => {
                assert(b == a);
                assert(json_sorted(b[j]));
            },
            _ => {},
        }
    }
    let g = crate::json::natives::grown(a, at);
    let g2 = g.update(at, x);
    assert forall|j: int| 0 <= j < g2.len() implies json_sorted(#[trigger] g2[j]) by {
        if j != at {
            if j < a.len() {
                assert(g2[j] == a[j]);
                assert(json_sorted(a[j]));
            } else {
                assert(g2[j] == Json::Null);
            }
        }
    }
    if at < a.len() {
        let r = a.remove(at);
        assert forall|j: int| 0 <= j < r.len() implies json_sorted(#[trigger] r[j]) by {
            if j < at {
                assert(r[j] == a[j]);
                assert(json_sorted(a[j]));
            } else {
                assert(r[j] == a[j + 1]);
                assert(json_sorted(a[j + 1]));
            }
        }
        let w = a.update(at, a.last()).drop_last();
        assert forall|j: int| 0 <= j < w.len() implies json_sorted(#[trigger] w[j]) by {
            if j != at {
                assert(w[j] == a[j]);
                assert(json_sorted(a[j]));
            } else {
                assert(w[j] == a[a.len() - 1]);
                assert(json_sorted(a[a.len() - 1]));
            }
        }
    }
}

} // verus!
