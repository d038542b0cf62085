//! What holds across natives: a value written where a key leads is what a
//! later read with that key finds, and the read changes nothing.

use vstd::prelude::*;
use crate::cstr::spec_strxx;
use crate::json::value::{
    Json, obj_find, obj_entry, lower_bound, lemma_lower_bound_exists, keys_sorted, key_lt,
    lemma_obj_find_sorted, lemma_key_lt_irrefl,
};
use crate::json::natives::{look, toggled, found, look_idx, setidx_spec, idx_rejected, idx_resolved, neg_count, grown};
use crate::json::pointer::{spec_as_array_idx, wrapped_sub, parse_negative_magnitude, segments, unescape, dash};
use crate::json::walk::{
    Loc, Reach, JsonFlags, at_base, descend, sidx_spec, key_view, json_at, json_put, null_seq, prepend,
    lemma_find_after_value_update, lemma_find_after_insert, lemma_at_put, lemma_put_put, lemma_put_same,
    sidxremove_spec, remove_path, remove_base,
};
use crate::json::sorted::json_sorted;

verus! {

/// Every array index on a path is below `isize::MAX`, as it is for any
/// array that fits in memory.
pub open spec fn path_fits(p: Seq<Loc>) -> bool {
    forall|i: int| 0 <= i < p.len() ==> (#[trigger] p[i] matches Loc::Index(j) ==> j < isize::MAX)
}

/// No segment of a pointer key is the appender `-`, which names a new
/// slot at every lookup.
pub open spec fn no_appender(key: Option<Seq<u8>>, keylen: i32, flags: JsonFlags) -> bool {
    match key {
        None => true,
        Some(mem) => match spec_strxx(mem, flags.unchecked_utf8_key, keylen) {
            None => true,
            Some(k) => flags.no_pointer || k[0] != 47
                || forall|i: int| 0 <= i < segments(k).len() ==> #[trigger] unescape(segments(k)[i]) != dash(),
        },
    }
}

/// A segment other than the appender that names a position at or past the
/// end of an array (and below `isize::MAX`) names that position whatever
/// the array's length.
proof fn lemma_idx_stable(k: Seq<u8>, l1: usize, l2: usize)
    requires
        k != dash(),
        spec_as_array_idx(k, l1) matches Some(i) && l1 <= i && i < isize::MAX,
    ensures
        spec_as_array_idx(k, l2) == spec_as_array_idx(k, l1),
{
    let s1 = k;
    if s1.len() > 0 && s1[0] == 45 {
        let m = parse_negative_magnitude(s1)->0;
        if m != 0 {
            assert(usize::MAX == 2 * (isize::MAX as int) + 1);
            assert(wrapped_sub(l1, m) >= l1);
        }
    }
}

proof fn lemma_fits_tail(s: Loc, q: Seq<Loc>)
    requires
        path_fits(seq![s] + q),
    ensures
        path_fits(q),
        s matches Loc::Index(j) ==> j < isize::MAX,
{
    assert forall|i: int| 0 <= i < q.len() implies (#[trigger] q[i] matches Loc::Index(j) ==> j < isize::MAX) by {
        assert((seq![s] + q)[i + 1] == q[i]);
    }
    assert((seq![s] + q)[0] == s);
}

proof fn lemma_cons(s: Loc, q: Seq<Loc>)
    ensures
        (seq![s] + q).len() > 0,
        (seq![s] + q)[0] == s,
        (seq![s] + q).drop_first() == q,
{
    assert((seq![s] + q).drop_first() =~= q);
}

/// The last segment: where a creating lookup led, a later plain lookup of
/// the value with something put there leads again, and changes nothing.
proof fn lemma_base_reread(v: Json, base: Seq<u8>, cp: bool, x: Json, create2: bool)
    requires
        base != dash(),
        at_base(v, base, cp, true).1 matches Reach::Found(q) && path_fits(q),
    ensures
        ({
            let (v1, r) = at_base(v, base, cp, true);
            let q = r->Found_0;
            &&& json_at(v1, q) is Some
            &&& at_base(json_put(v1, q, x), base, cp, create2) == (json_put(v1, q, x), Reach::Found(q))
        }),
{
    let (v1, r) = at_base(v, base, cp, true);
    let q = r->Found_0;
    let v0 = if v is Null {
        if spec_as_array_idx(base, 0) is Some { Json::Array(Seq::empty()) } else { Json::Object(Seq::empty()) }
    } else {
        v
    };
    reveal_with_fuel(json_at, 2);
    reveal_with_fuel(json_put, 2);
    match v0 {
        Json::Array(a) => {
            let idx = spec_as_array_idx(base, a.len() as usize)->0;
            assert(q =~= seq![Loc::Index(idx as int)]);
            lemma_cons(Loc::Index(idx as int), Seq::empty());
            assert(q.drop_first() =~= Seq::<Loc>::empty());
            if idx >= a.len() {
                let a1 = a.push(Json::Null);
                assert(v1 == Json::Array(a1));
                assert(idx < isize::MAX) by {
                    lemma_fits_tail(Loc::Index(idx as int), Seq::empty());
                    assert(seq![Loc::Index(idx as int)] + Seq::<Loc>::empty() =~= q);
                }
                lemma_idx_stable(base, a.len() as usize, a1.len() as usize);
                assert(json_put(v1, q, x) == Json::Array(a1.update(idx as int, x)));
            } else {
                assert(json_put(v1, q, x) == Json::Array(a.update(idx as int, x)));
            }
        },
        Json::Object(m) => {
            assert(q =~= seq![Loc::Key(base)]);
            lemma_cons(Loc::Key(base), Seq::empty());
            assert(q.drop_first() =~= Seq::<Loc>::empty());
            let m1 = obj_entry(m, base).0;
            lemma_lower_bound_exists(m, base);
            if obj_find(m, base) is None {
                lemma_find_after_insert(m, base, Json::Null);
            }
            let i = obj_find(m1, base)->0;
            lemma_lower_bound_exists(m1, base);
            lemma_find_after_value_update(m1, i, x, base);
        },
        _ => {},
    }
}

/// The parent segments: as `lemma_base_reread`, through any number of them.
proof fn lemma_descend_reread(v: Json, parents: Seq<Seq<u8>>, base: Seq<u8>, cp: bool, x: Json, create2: bool)
    requires
        base != dash(),
        forall|i: int| 0 <= i < parents.len() ==> #[trigger] parents[i] != dash(),
        descend(v, parents, base, cp, true).1 matches Reach::Found(q) && path_fits(q),
    ensures
        ({
            let (v1, r) = descend(v, parents, base, cp, true);
            let q = r->Found_0;
            &&& json_at(v1, q) is Some
            &&& descend(json_put(v1, q, x), parents, base, cp, create2) == (json_put(v1, q, x), Reach::Found(q))
        }),
    decreases parents.len(),
{
    if parents.len() == 0 {
        lemma_base_reread(v, base, cp, x, create2);
        return;
    }
    let (v1, r) = descend(v, parents, base, cp, true);
    let q = r->Found_0;
    let k = parents[0];
    let rest = parents.drop_first();
    match v {
        Json::Object(m) => {
            lemma_lower_bound_exists(m, k);
            let (j, child) = match obj_find(m, k) {
                Some(i) => (i, m[i].1),
                None => (lower_bound(m, k), Json::Null),
            };
            let (c, rc) = descend(child, rest, base, cp, true);
            let q1 = rc->Found_0;
            assert(q == seq![Loc::Key(k)] + q1);
            lemma_cons(Loc::Key(k), q1);
            lemma_fits_tail(Loc::Key(k), q1);
            lemma_descend_reread(child, rest, base, cp, x, create2);
            let m1 = match obj_find(m, k) {
                Some(i) => m.update(i, (k, c)),
                None => m.insert(lower_bound(m, k), (k, c)),
            };
            assert(v1 == Json::Object(m1));
            if obj_find(m, k) is None {
                lemma_find_after_insert(m, k, c);
            } else {
                lemma_find_after_value_update(m, j, c, k);
            }
            assert(obj_find(m1, k) == Some(j));
            assert(m1[j] == (k, c));
            let c2 = json_put(c, q1, x);
            let m2 = m1.update(j, (k, c2));
            assert(json_put(v1, q, x) == Json::Object(m2));
            lemma_lower_bound_exists(m1, k);
            lemma_find_after_value_update(m1, j, c2, k);
            assert(obj_find(m2, k) == Some(j));
            assert(m2.update(j, (k, c2)) =~= m2);
        },
        Json::Array(a) => {
            let idx = spec_as_array_idx(k, a.len() as usize)->0;
            let grows = a.len() < idx + 1;
            let base_arr = if grows { a + null_seq((idx + 1 - a.len()) as nat) } else { a };
            let child = if grows { Json::Null } else { a[idx as int] };
            let (c, rc) = descend(child, rest, base, cp, true);
            let q1 = rc->Found_0;
            assert(q == seq![Loc::Index(idx as int)] + q1);
            lemma_cons(Loc::Index(idx as int), q1);
            lemma_fits_tail(Loc::Index(idx as int), q1);
            lemma_descend_reread(child, rest, base, cp, x, create2);
            let a1 = base_arr.update(idx as int, c);
            assert(v1 == Json::Array(a1));
            if grows {
                lemma_idx_stable(k, a.len() as usize, a1.len() as usize);
            }
            assert(spec_as_array_idx(k, a1.len() as usize) == Some(idx));
            let c2 = json_put(c, q1, x);
            let a2 = a1.update(idx as int, c2);
            assert(json_put(v1, q, x) == Json::Array(a2));
            assert(a2.update(idx as int, c2) =~= a2);
        },
        Json::Null => {
            match spec_as_array_idx(k, 0) {
                Some(idx) => {
                    let (c, rc) = descend(Json::Null, rest, base, cp, true);
                    let q1 = rc->Found_0;
                    assert(q == seq![Loc::Index(idx as int)] + q1);
                    lemma_cons(Loc::Index(idx as int), q1);
                    lemma_fits_tail(Loc::Index(idx as int), q1);
                    lemma_descend_reread(Json::Null, rest, base, cp, x, create2);
                    let a1 = null_seq((idx + 1) as nat).update(idx as int, c);
                    assert(v1 == Json::Array(a1));
                    lemma_idx_stable(k, 0, a1.len() as usize);
                    let c2 = json_put(c, q1, x);
                    let a2 = a1.update(idx as int, c2);
                    assert(json_put(v1, q, x) == Json::Array(a2));
                    assert(a2.update(idx as int, c2) =~= a2);
                },
                None => {
                    let (c, rc) = descend(Json::Null, rest, base, cp, true);
                    let q1 = rc->Found_0;
                    assert(q == seq![Loc::Key(k)] + q1);
                    lemma_cons(Loc::Key(k), q1);
                    lemma_fits_tail(Loc::Key(k), q1);
                    lemma_descend_reread(Json::Null, rest, base, cp, x, create2);
                    let m1 = seq![(k, c)];
                    let e = Seq::<(Seq<u8>, Json)>::empty();
                    lemma_lower_bound_exists(e, k);
                    assert(m1 =~= e.insert(0, (k, c)));
                    lemma_find_after_insert(e, k, c);
                    assert(v1 == Json::Object(m1));
                    let c2 = json_put(c, q1, x);
                    let m2 = m1.update(0, (k, c2));
                    lemma_lower_bound_exists(m1, k);
                    lemma_find_after_value_update(m1, 0, c2, k);
                    assert(json_put(v1, q, x) == Json::Object(m2));
                    assert(m2.update(0, (k, c2)) =~= m2);
                },
            }
        },
        _ => {},
    }
}

/// Reading back a write. Where a creating lookup led (`Set`, `Setx_Inner`
/// and the typed setters, `ToggleBool`, `SetZss`), after a value was put
/// there, a later lookup with the same key, flags and length (creating or
/// not: `Get`, `Has`, `GetType`, the typed getters, another setter) leads
/// to the same place, changes nothing, and finds that value.
pub proof fn law_write_then_read(root: Json, key: Option<Seq<u8>>, keylen: i32, flags: JsonFlags, x: Json, create2: bool)
    requires
        no_appender(key, keylen, flags),
        sidx_spec(root, key, keylen, flags, true).1 matches Reach::Found(p) && path_fits(p),
    ensures
        ({
            let (r1, rr) = sidx_spec(root, key, keylen, flags, true);
            let p = rr->Found_0;
            let w = json_put(r1, p, x);
            &&& sidx_spec(w, key, keylen, flags, create2) == (w, Reach::Found(p))
            &&& json_at(w, p) == Some(x)
        }),
{
    let (r1, rr) = sidx_spec(root, key, keylen, flags, true);
    let p = rr->Found_0;
    reveal_with_fuel(json_at, 2);
    reveal_with_fuel(json_put, 2);
    match key {
        None => {
            assert(p.len() == 0);
        },
        Some(mem) => {
            let k = spec_strxx(mem, flags.unchecked_utf8_key, keylen)->0;
            if flags.no_pointer || k[0] != 47 {
                let m = root->Object_0;
                assert(p =~= seq![Loc::Key(k)]);
                lemma_cons(Loc::Key(k), Seq::empty());
                assert(p.drop_first() =~= Seq::<Loc>::empty());
                let m1 = obj_entry(m, k).0;
                lemma_lower_bound_exists(m, k);
                if obj_find(m, k) is None {
                    lemma_find_after_insert(m, k, Json::Null);
                }
                let i = obj_find(m1, k)->0;
                lemma_lower_bound_exists(m1, k);
                lemma_find_after_value_update(m1, i, x, k);
            } else {
                let segs = segments(k);
                let parents = segs.drop_last().map_values(|s: Seq<u8>| unescape(s));
                assert(unescape(segs[segs.len() - 1]) != dash());
                assert forall|i: int| 0 <= i < parents.len() implies #[trigger] parents[i] != dash() by {
                    assert(parents[i] == unescape(segs[i]));
                }
                lemma_descend_reread(root, parents, unescape(segs.last()), flags.create_parents, x, create2);
                lemma_at_put(r1, p, x);
            }
        },
    }
}

/// Toggling twice restores. Where a `ToggleBool` led to a boolean, a second
/// `ToggleBool` with the same key leads to the same place and puts the
/// boolean back as it was.
pub proof fn law_toggle_twice(root: Json, key: Option<Seq<u8>>, keylen: i32, flags: JsonFlags)
    requires
        no_appender(key, keylen, flags),
        sidx_spec(root, key, keylen, flags, true).1 matches Reach::Found(p) && path_fits(p),
        ({
            let (r1, rr) = sidx_spec(root, key, keylen, flags, true);
            json_at(r1, rr->Found_0) matches Some(Json::Bool(_))
        }),
    ensures
        ({
            let (r1, rr) = sidx_spec(root, key, keylen, flags, true);
            let p = rr->Found_0;
            let b = json_at(r1, p)->0;
            let w1 = json_put(r1, p, toggled(b).0);
            &&& sidx_spec(w1, key, keylen, flags, true) == (w1, Reach::Found(p))
            &&& json_put(w1, p, toggled(json_at(w1, p)->0).0) == r1
        }),
{
    let (r1, rr) = sidx_spec(root, key, keylen, flags, true);
    let p = rr->Found_0;
    let b = json_at(r1, p)->0;
    law_write_then_read(root, key, keylen, flags, toggled(b).0, true);
    lemma_put_put(r1, p, toggled(b).0, toggled(toggled(b).0).0);
    lemma_put_same(r1, p);
}

/// Removing then asking. After `Remove` took a plain key out of an object
/// (whose keys are sorted, as they always are), `Has` with that key finds nothing.
pub proof fn law_remove_then_missing(m: Seq<(Seq<u8>, Json)>, key: Seq<u8>, keylen: i32, flags: JsonFlags)
    requires
        keys_sorted(m),
        spec_strxx(key, flags.unchecked_utf8_key, keylen) matches Some(k) && (flags.no_pointer || k[0] != 47),
    ensures
        sidx_spec(sidxremove_spec(Json::Object(m), key, keylen, flags).0, Some(key), keylen, flags, false).1 is Missing,
{
    let k = spec_strxx(key, flags.unchecked_utf8_key, keylen)->0;
    lemma_obj_find_sorted(m, k);
    match obj_find(m, k) {
        Some(i) => {
            let m2 = m.remove(i);
            assert forall|a: int, b: int| 0 <= a < b < m2.len() implies key_lt(#[trigger] m2[a].0, #[trigger] m2[b].0) by {
                let a0 = if a < i { a } else { a + 1 };
                let b0 = if b < i { b } else { b + 1 };
                assert(m2[a] == m[a0]);
                assert(m2[b] == m[b0]);
            }
            lemma_obj_find_sorted(m2, k);
            if obj_find(m2, k) is Some {
                let j = obj_find(m2, k)->0;
                let j0 = if j < i { j } else { j + 1 };
                assert(m2[j] == m[j0]);
                lemma_key_lt_irrefl(k);
                if j0 < i {
                    assert(key_lt(m[j0].0, m[i].0));
                } else {
                    assert(key_lt(m[i].0, m[j0].0));
                }
            }
        },
        None => {},
    }
}

/// Writing an element then reading it. After `SetIdx` put `x` at the
/// element a plugin index stands for, `GetIdx` with that index finds `x`.
pub proof fn law_setidx_then_getidx(v: Json, idx: usize, x: Json, flags: JsonFlags)
    requires
        v is Array,
        !idx_rejected(v->Array_0.len() as int, idx),
        idx_resolved(v->Array_0.len() as int, idx) != usize::MAX,
    ensures
        found(look_idx(setidx_spec(v, idx, x, flags).0, idx)) == Some(x),
{
    let a = v->Array_0;
    let at = idx_resolved(a.len() as int, idx);
    let a2 = grown(a, at).update(at, x);
    assert(a2.len() >= at + 1);
    reveal_with_fuel(json_at, 2);
    let i = idx as i32;
    if i < 0 {
        if i == i32::MIN {
            assert((i as usize) > 0) by (bit_vector)
                requires
                    i == i32::MIN,
            ;
        }
        assert(neg_count(idx) >= 1);
        assert(neg_count(idx) <= a.len());
        assert(grown(a, at) == a);
    }
    assert(!idx_rejected(a2.len() as int, idx));
    assert(idx_resolved(a2.len() as int, idx) == at);
    let p = seq![Loc::Index(at)];
    assert(p.drop_first() =~= Seq::<Loc>::empty());
}

/// Setting then getting. After `Set` put `other` where a key leads (the
/// key without the appender, every index on the way below `isize::MAX`),
/// `Get` with the same key and flags (without `J_MOVE`) finds a copy of
/// `other` and changes nothing.
pub proof fn law_set_then_get(root: Json, other: Json, key: Option<&[u8]>, keylen: i32, flags: JsonFlags)
    requires
        no_appender(key_view(key), keylen, flags),
        look(root, key, keylen, flags, true).1 matches Reach::Found(p) && path_fits(p),
    ensures
        ({
            let l = look(root, key, keylen, flags, true);
            let p = l.1->Found_0;
            let w = json_put(l.0, p, other);
            &&& look(w, key, keylen, flags, false) == (w, Reach::Found(p))
            &&& found(look(w, key, keylen, flags, false)) == Some(other)
        }),
{
    law_write_then_read(root, key_view(key), keylen, flags, other, false);
}

/// Pointers with the same segments lead to the same place: two pointer keys
/// (starting with `/`, `J_NO_POINTER` unset) whose non-empty `/`-separated
/// segments are equal, such as `/a/b` and `//a///b/`, look up alike; a
/// pointer with no segment (`/`, `//`) leads nowhere and changes nothing.
pub proof fn law_segment_equal_pointers(root: Json, m1: Seq<u8>, l1: i32, m2: Seq<u8>, l2: i32, flags: JsonFlags, create: bool)
    requires
        !flags.no_pointer,
        spec_strxx(m1, flags.unchecked_utf8_key, l1) matches Some(k1) && k1[0] == 47,
        spec_strxx(m2, flags.unchecked_utf8_key, l2) matches Some(k2) && k2[0] == 47,
        segments(spec_strxx(m1, flags.unchecked_utf8_key, l1)->0) == segments(spec_strxx(m2, flags.unchecked_utf8_key, l2)->0),
    ensures
        sidx_spec(root, Some(m1), l1, flags, create) == sidx_spec(root, Some(m2), l2, flags, create),
        segments(spec_strxx(m1, flags.unchecked_utf8_key, l1)->0).len() == 0
            ==> sidx_spec(root, Some(m1), l1, flags, create) == (root, Reach::Missing),
{
}

/// A key found in a sorted object is gone once its entry is removed.
proof fn lemma_removed_key_missing(m: Seq<(Seq<u8>, Json)>, k: Seq<u8>)
    requires
        keys_sorted(m),
        obj_find(m, k) is Some,
    ensures
        obj_find(m.remove(obj_find(m, k)->0), k) is None,
{
    let i = obj_find(m, k)->0;
    lemma_obj_find_sorted(m, k);
    let m2 = m.remove(i);
    if let Some(j) = obj_find(m2, k) {
        lemma_obj_find_sorted_any(m2, k);
        let j0 = if j < i { j } else { j + 1 };
        assert(m2[j] == m[j0]);
        if j0 < i {
            assert(key_lt(m[j0].0, m[i].0));
        } else {
            assert(key_lt(m[i].0, m[j0].0));
        }
        lemma_key_lt_irrefl(k);
    }
}

/// A found position holds the key (whatever the order).
proof fn lemma_obj_find_sorted_any(m: Seq<(Seq<u8>, Json)>, k: Seq<u8>)
    ensures
        obj_find(m, k) matches Some(i) ==> 0 <= i < m.len() && m[i].0 == k,
{
    lemma_lower_bound_exists(m, k);
}

/// Following a pointer's parents without creating anything leaves the value as it is.
proof fn lemma_descend_leaves_value(v: Json, parents: Seq<Seq<u8>>, base: Seq<u8>)
    ensures
        descend(v, parents, base, false, false).0 == v,
        descend(v, parents, base, false, false).1 matches Reach::Found(q) ==> q.len() >= 1,
    decreases parents.len(),
{
    if parents.len() > 0 {
        let k = parents[0];
        let rest = parents.drop_first();
        match v {
            Json::Object(m) => {
                if let Some(i) = obj_find(m, k) {
                    lemma_obj_find_sorted_any(m, k);
                    lemma_descend_leaves_value(m[i].1, rest, base);
                    assert(m.update(i, (k, m[i].1)) =~= m);
                }
            },
            Json::Array(a) => {
                if let Some(idx) = spec_as_array_idx(k, a.len() as usize) {
                    if idx != usize::MAX && a.len() >= idx + 1 {
                        lemma_descend_leaves_value(a[idx as int], rest, base);
                        assert(a.update(idx as int, a[idx as int]) =~= a);
                    }
                }
            },
            _ => {},
        }
    }
}

/// Removing along a pointer whose last segment is found as an object's key
/// removes that member: the removal succeeds and the pointer then leads nowhere.
proof fn lemma_remove_found_member(v: Json, parents: Seq<Seq<u8>>, base: Seq<u8>, swap: bool)
    requires
        json_sorted(v),
        descend(v, parents, base, false, false).1 matches Reach::Found(p) && p.len() > 0 && p.last() is Key,
    ensures
        remove_path(v, parents, base, swap).1,
        descend(remove_path(v, parents, base, swap).0, parents, base, false, false).1 is Missing,
    decreases parents.len(),
{
    if parents.len() == 0 {
        let m = v->Object_0;
        lemma_removed_key_missing(m, base);
    } else {
        let k = parents[0];
        let rest = parents.drop_first();
        match v {
            Json::Object(m) => {
                let i = obj_find(m, k)->0;
                lemma_obj_find_sorted_any(m, k);
                lemma_descend_leaves_value(m[i].1, rest, base);
                let q = descend(m[i].1, rest, base, false, false).1->Found_0;
                let p = descend(v, parents, base, false, false).1->Found_0;
                assert(p == seq![Loc::Key(k)] + q);
                assert(p.last() == q.last());
                assert(json_sorted(m[i].1));
                lemma_remove_found_member(m[i].1, rest, base, swap);
                let c = remove_path(m[i].1, rest, base, swap).0;
                lemma_find_after_value_update(m, i, c, k);
            },
            Json::Array(a) => {
                let idx = spec_as_array_idx(k, a.len() as usize)->0;
                lemma_descend_leaves_value(a[idx as int], rest, base);
                let q = descend(a[idx as int], rest, base, false, false).1->Found_0;
                let p = descend(v, parents, base, false, false).1->Found_0;
                assert(p == seq![Loc::Index(idx as int)] + q);
                assert(p.last() == q.last());
                assert(json_sorted(a[idx as int]));
                lemma_remove_found_member(a[idx as int], rest, base, swap);
            },
            _ => {},
        }
    }
}

/// Removing what a key names: where the key (plain, or a pointer followed
/// without creating parents) leads to a member of an object in a sorted
/// value, `Remove` with that key succeeds and afterwards the key leads
/// nowhere (`Has` finds nothing).
pub proof fn law_remove_member_gone(root: Json, key: Seq<u8>, keylen: i32, flags: JsonFlags)
    requires
        json_sorted(root),
        !flags.create_parents,
        sidx_spec(root, Some(key), keylen, flags, false).1 matches Reach::Found(p) && p.len() > 0 && p.last() is Key,
    ensures
        sidxremove_spec(root, key, keylen, flags).1,
        sidx_spec(sidxremove_spec(root, key, keylen, flags).0, Some(key), keylen, flags, false).1 is Missing,
{
    let k = spec_strxx(key, flags.unchecked_utf8_key, keylen)->0;
    if flags.no_pointer || k[0] != 47 {
        let m = root->Object_0;
        lemma_removed_key_missing(m, k);
    } else {
        let segs = segments(k);
        lemma_remove_found_member(root, segs.drop_last().map_values(|s: Seq<u8>| unescape(s)), unescape(segs.last()),
            flags.swap_remove);
    }
}

} // verus!
