//! The JSON natives of the plugin interface, on values held by handles.
//! A key reaches its place as `sidx` does; every native here says what it
//! reads or changes there and what it hands back to the plugin.

#![allow(non_snake_case)]

use vstd::prelude::*;
use crate::cstr::{spec_strxx, strxx, spec_sp_buf_written, spec_sp_buf_count, write_to_sp_buf};
use crate::json::value::{
    Json, JsonValue, JsonEntry, JsonNumber, json_eq, obj_find, elems_view, entries_view, lemma_array_view,
    lemma_object_view, bytes_copy,
};
use crate::json::pointer::views;
use crate::json::sorted::{
    json_sorted, law_set_keeps_sorted, law_remove_keeps_sorted, law_index_natives_keep_sorted, law_lookup_keeps_sorted,
    law_put_keeps_sorted, lemma_at_sorted,
};
use crate::json::walk::{
    JsonFlags, PathStep, Loc, Reach, Located, path_view, sidx_spec, json_at, json_put, sidx,
    key_view, key_ok, get_at, replace_at, lemma_at_put, lemma_put_put, sidxremove, sidxremove_spec,
};

verus! {

/// The native panics here (an index out of bounds or an overflowing
/// index), so the plugin's call never returns.
#[derive(Clone, Copy, Debug, PartialEq, Eq, Structural)]
pub struct IndexPanic;

/// The kind of a JSON value, as `GetType` reports it.
#[derive(Clone, Copy, Debug, PartialEq, Eq, Structural)]
pub enum JType {
    Unknown,
    Null,
    Bool,
    Number,
    String,
    Array,
    Object,
}

/// Where a key leads in `object` (see `sidx_spec`).
pub open spec fn look(object: Json, key: Option<&[u8]>, keylen: i32, flags: JsonFlags, create: bool) -> (Json, Reach) {
    sidx_spec(object, key_view(key), keylen, flags, create)
}

/// The value a lookup leads to.
pub open spec fn found(l: (Json, Reach)) -> Option<Json> {
    match l.1 {
        Reach::Found(p) => json_at(l.0, p),
        _ => None,
    }
}

/// The kind of a value.
pub open spec fn json_type(j: Json) -> JType {
    match j {
        Json::Null => JType::Null,
        Json::Bool(_) => JType::Bool,
        Json::Number(_) => JType::Number,
        Json::Str(_) => JType::String,
        Json::Array(_) => JType::Array,
        Json::Object(_) => JType::Object,
    }
}

/// `len` of a value: members, elements or bytes; 0 for the rest.
pub open spec fn json_len(j: Json) -> int {
    match j {
        Json::Object(m) => m.len() as int,
        Json::Array(a) => a.len() as int,
        Json::Str(s) => s.len() as int,
        _ => 0,
    }
}

/// `as_i64` of a value.
pub open spec fn json_as_i64(j: Json) -> Option<i64> {
    match j {
        Json::Number(JsonNumber::PosInt(n)) => if n <= i64::MAX { Some(n as i64) } else { None },
        Json::Number(JsonNumber::NegInt(n)) => Some(n),
        _ => None,
    }
}

/// The value of an `i64` (`serde_json`'s `From<i64>`): negative values are
/// stored as negative integers, the rest as non-negative ones.
pub open spec fn int_json(n: i64) -> Json {
    if n < 0 {
        Json::Number(JsonNumber::NegInt(n))
    } else {
        Json::Number(JsonNumber::PosInt(n as u64))
    }
}

/// The value of an `i64`.
pub fn int_value(n: i64) -> (r: JsonValue)
    ensures
        r@ == int_json(n),
{
    if n < 0 {
        JsonValue::Number(JsonNumber::NegInt(n))
    } else {
        JsonValue::Number(JsonNumber::PosInt(n as u64))
    }
}

/// `as_i64` computed.
pub fn value_as_i64(v: &JsonValue) -> (r: Option<i64>)
    ensures
        r == json_as_i64(v@),
{
    match v {
        JsonValue::Number(JsonNumber::PosInt(n)) => if *n <= 9223372036854775807u64 { Some(*n as i64) } else { None },
        JsonValue::Number(JsonNumber::NegInt(n)) => Some(*n),
        _ => None,
    }
}

/// The value at the end of a path that leads somewhere.
fn target<'a>(object: &'a JsonValue, path: &Vec<PathStep>) -> (r: &'a JsonValue)
    requires
        json_at(object@, path_view(path@)) is Some,
    ensures
        json_at(object@, path_view(path@)) == Some(r@),
{
    assert(path_view(path@).skip(0) =~= path_view(path@));
    match get_at(object, path, 0) {
        Some(x) => x,
        None => {
            proof { assert(false); }
            object
        },
    }
}

/// Puts `new` at the end of a path that leads somewhere; hands back what was there.
fn put(object: &mut JsonValue, path: &Vec<PathStep>, new: JsonValue) -> (r: JsonValue)
    requires
        json_at(old(object)@, path_view(path@)) is Some,
    ensures
        final(object)@ == json_put(old(object)@, path_view(path@), new@),
        json_at(old(object)@, path_view(path@)) == Some(r@),
{
    assert(path_view(path@).skip(0) =~= path_view(path@));
    replace_at(object, path, 0, new)
}

/// `Has`: whether the key leads somewhere.
pub fn rust_SRCWRJSON_Has(object: &mut JsonValue, flags: JsonFlags, key: Option<&[u8]>, keylen: i32) -> (r: Result<bool, IndexPanic>)
    requires
        key_ok(key, keylen),
    ensures
        json_sorted(old(object)@) ==> json_sorted(final(object)@),
        final(object)@ == look(old(object)@, key, keylen, flags, false).0,
        r == match look(old(object)@, key, keylen, flags, false).1 {
            Reach::Found(_) => Ok(true),
            Reach::Missing => Ok(false),
            Reach::Panics => Err(IndexPanic),
        },
{
    proof {
        if json_sorted(object@) {
            law_lookup_keeps_sorted(object@, key_view(key), keylen, flags, false);
        }
    }
    match sidx(object, key, keylen, flags, false) {
        Located::Found(_) => Ok(true),
        Located::Missing => Ok(false),
        Located::Panics => Err(IndexPanic),
    }
}

/// `GetType`: the kind of the value the key leads to, `Unknown` when it leads nowhere.
pub fn rust_SRCWRJSON_GetType(object: &mut JsonValue, flags: JsonFlags, key: Option<&[u8]>, keylen: i32) -> (r: Result<JType, IndexPanic>)
    requires
        key_ok(key, keylen),
    ensures
        json_sorted(old(object)@) ==> json_sorted(final(object)@),
        final(object)@ == look(old(object)@, key, keylen, flags, false).0,
        r == match look(old(object)@, key, keylen, flags, false).1 {
            Reach::Found(_) => Ok(json_type(found(look(old(object)@, key, keylen, flags, false))->0)),
            Reach::Missing => Ok(JType::Unknown),
            Reach::Panics => Err(IndexPanic),
        },
{
    proof {
        if json_sorted(object@) {
            law_lookup_keeps_sorted(object@, key_view(key), keylen, flags, false);
        }
    }
    match sidx(object, key, keylen, flags, false) {
        Located::Found(p) => {
            let t = target(object, &p);
            Ok(match t {
                JsonValue::Null => JType::Null,
                JsonValue::Bool(_) => JType::Bool,
                JsonValue::Number(_) => JType::Number,
                JsonValue::String(_) => JType::String,
                JsonValue::Array(_) => JType::Array,
                JsonValue::Object(_) => JType::Object,
            })
        },
        Located::Missing => Ok(JType::Unknown),
        Located::Panics => Err(IndexPanic),
    }
}

/// `IsArray`: whether the key leads to an array.
pub fn rust_SRCWRJSON_IsArray(object: &mut JsonValue, flags: JsonFlags, key: Option<&[u8]>, keylen: i32) -> (r: Result<bool, IndexPanic>)
    requires
        key_ok(key, keylen),
    ensures
        json_sorted(old(object)@) ==> json_sorted(final(object)@),
        final(object)@ == look(old(object)@, key, keylen, flags, false).0,
        r == match look(old(object)@, key, keylen, flags, false).1 {
            Reach::Found(_) => Ok(found(look(old(object)@, key, keylen, flags, false))->0 is Array),
            Reach::Missing => Ok(false),
            Reach::Panics => Err(IndexPanic),
        },
{
    proof {
        if json_sorted(object@) {
            law_lookup_keeps_sorted(object@, key_view(key), keylen, flags, false);
        }
    }
    match sidx(object, key, keylen, flags, false) {
        Located::Found(p) => {
            let t = target(object, &p);
            Ok(match t {
                JsonValue::Array(_) => true,
                _ => false,
            })
        },
        Located::Missing => Ok(false),
        Located::Panics => Err(IndexPanic),
    }
}

/// `len`: members, elements or bytes of the value the key leads to, 0 for
/// other values, and `usize::MAX` (the plugin's -1) when it leads nowhere.
pub fn rust_SRCWRJSON_len(object: &mut JsonValue, flags: JsonFlags, key: Option<&[u8]>, keylen: i32) -> (r: Result<usize, IndexPanic>)
    requires
        key_ok(key, keylen),
    ensures
        json_sorted(old(object)@) ==> json_sorted(final(object)@),
        final(object)@ == look(old(object)@, key, keylen, flags, false).0,
        r matches Ok(n) ==> n as int == match look(old(object)@, key, keylen, flags, false).1 {
            Reach::Found(_) => json_len(found(look(old(object)@, key, keylen, flags, false))->0),
            _ => usize::MAX as int,
        },
        r is Err <==> look(old(object)@, key, keylen, flags, false).1 is Panics,
{
    proof {
        if json_sorted(object@) {
            law_lookup_keeps_sorted(object@, key_view(key), keylen, flags, false);
        }
    }
    match sidx(object, key, keylen, flags, false) {
        Located::Found(p) => {
            let t = target(object, &p);
            Ok(match t {
                JsonValue::Object(m) => {
                    proof { lemma_object_view(*m); }
                    m.len()
                },
                JsonValue::Array(a) => {
                    proof { lemma_array_view(*a); }
                    a.len()
                },
                JsonValue::String(s) => s.len(),
                _ => 0,
            })
        },
        Located::Missing => Ok(usize::MAX),
        Located::Panics => Err(IndexPanic),
    }
}

/// `Get`: a copy of the value the key leads to, or the value itself with
/// `J_MOVE`, which leaves a null in its place.
pub fn rust_SRCWRJSON_Get(object: &mut JsonValue, flags: JsonFlags, key: Option<&[u8]>, keylen: i32) -> (r: Result<Option<JsonValue>, IndexPanic>)
    requires
        key_ok(key, keylen),
    ensures
        json_sorted(old(object)@) ==> json_sorted(final(object)@),
        ({
            let l = look(old(object)@, key, keylen, flags, false);
            match l.1 {
                Reach::Found(p) => {
                    &&& r matches Ok(Some(x)) && Some(x@) == json_at(l.0, p)
                    &&& final(object)@ == if flags.move_value { json_put(l.0, p, Json::Null) } else { l.0 }
                },
                Reach::Missing => r matches Ok(None) && final(object)@ == l.0,
                Reach::Panics => r is Err && final(object)@ == l.0,
            }
        }),
{
    proof {
        law_set_keeps_sorted(object@, key_view(key), keylen, flags, false, Json::Null);
    }
    match sidx(object, key, keylen, flags, false) {
        Located::Found(p) => {
            if flags.move_value {
                Ok(Some(put(object, &p, JsonValue::Null)))
            } else {
                Ok(Some(target(object, &p).duplicate()))
            }
        },
        Located::Missing => Ok(None),
        Located::Panics => Err(IndexPanic),
    }
}

/// `Set`: puts a copy of `other` where the key leads, creating it; with
/// `J_MOVE` puts `other` itself there and leaves a null in `other`.
pub fn rust_SRCWRJSON_Set(object: &mut JsonValue, other: &mut JsonValue, flags: JsonFlags, key: Option<&[u8]>, keylen: i32) -> (r: Result<Option<u32>, IndexPanic>)
    requires
        key_ok(key, keylen),
    ensures
        json_sorted(old(object)@) && json_sorted(old(other)@) ==> json_sorted(final(object)@),
        ({
            let l = look(old(object)@, key, keylen, flags, true);
            match l.1 {
                Reach::Found(p) => {
                    &&& r == Ok::<Option<u32>, IndexPanic>(Some(1u32))
                    &&& final(object)@ == json_put(l.0, p, old(other)@)
                    &&& final(other)@ == if flags.move_value { Json::Null } else { old(other)@ }
                },
                Reach::Missing => r == Ok::<Option<u32>, IndexPanic>(None) && final(object)@ == l.0 && final(other)@ == old(other)@,
                Reach::Panics => r is Err && final(object)@ == l.0 && final(other)@ == old(other)@,
            }
        }),
{
    proof {
        law_set_keeps_sorted(object@, key_view(key), keylen, flags, true, other@);
    }
    match sidx(object, key, keylen, flags, true) {
        Located::Found(p) => {
            if flags.move_value {
                let mut taken = JsonValue::Null;
                std::mem::swap(&mut taken, other);
                let _ = put(object, &p, taken);
            } else {
                let copy = other.duplicate();
                let _ = put(object, &p, copy);
            }
            Ok(Some(1))
        },
        Located::Missing => Ok(None),
        Located::Panics => Err(IndexPanic),
    }
}

/// What `Setx_Inner` reports for a place that held `old` and gets `new`:
/// success, unless `J_IS_DIFFERENT` is set and the two differ.
pub open spec fn setx_result(flags: JsonFlags, old: Json, new: Json) -> Option<u32> {
    if flags.is_different && !json_eq(old, new) {
        None
    } else {
        Some(1u32)
    }
}

/// `Setx_Inner`: swaps `other` with the value where the key leads (creating
/// it), so the place holds `other` and `other` holds what was there.
pub fn Setx_Inner(object: &mut JsonValue, other: &mut JsonValue, flags: JsonFlags, key: Option<&[u8]>, keylen: i32) -> (r: Result<Option<u32>, IndexPanic>)
    requires
        key_ok(key, keylen),
    ensures
        json_sorted(old(object)@) && json_sorted(old(other)@) ==> json_sorted(final(object)@),
        ({
            let l = look(old(object)@, key, keylen, flags, true);
            match l.1 {
                Reach::Found(p) => {
                    &&& r == Ok::<Option<u32>, IndexPanic>(setx_result(flags, json_at(l.0, p)->0, old(other)@))
                    &&& final(object)@ == json_put(l.0, p, old(other)@)
                    &&& Some(final(other)@) == json_at(l.0, p)
                },
                Reach::Missing => r == Ok::<Option<u32>, IndexPanic>(None) && final(object)@ == l.0 && final(other)@ == old(other)@,
                Reach::Panics => r is Err && final(object)@ == l.0 && final(other)@ == old(other)@,
            }
        }),
{
    proof {
        law_set_keeps_sorted(object@, key_view(key), keylen, flags, true, other@);
    }
    match sidx(object, key, keylen, flags, true) {
        Located::Found(p) => {
            let differs = flags.is_different && !target(object, &p).equals(other);
            let mut incoming = JsonValue::Null;
            std::mem::swap(&mut incoming, other);
            let previous = put(object, &p, incoming);
            *other = previous;
            if differs {
                Ok(None)
            } else {
                Ok(Some(1))
            }
        },
        Located::Missing => Ok(None),
        Located::Panics => Err(IndexPanic),
    }
}

/// The count a negative plugin index stands for: `-(idx as i32) as usize`,
/// the negation wrapping for `i32::MIN`.
pub open spec fn neg_count(idx: usize) -> usize {
    let i = idx as i32;
    if i == i32::MIN {
        i as usize
    } else {
        (-i) as usize
    }
}

/// A negative index that reaches before the start of an array of `len`
/// elements, which the index natives refuse.
pub open spec fn idx_rejected(len: int, idx: usize) -> bool {
    (idx as i32) < 0 && neg_count(idx) != 1 && neg_count(idx) > len
}

/// The position an index stands for in an array of `len` elements: itself,
/// or counted from the end when negative; `-1` on an empty array wraps to
/// `usize::MAX`.
pub open spec fn idx_resolved(len: int, idx: usize) -> int {
    if (idx as i32) < 0 {
        if neg_count(idx) <= len {
            len - neg_count(idx)
        } else {
            usize::MAX as int
        }
    } else {
        idx as int
    }
}

/// Resolves a plugin index against an array of `len` elements: `None` when
/// it is refused, else the position it stands for.
pub fn resolve_idx(len: usize, idx: usize) -> (r: Option<usize>)
    ensures
        r is None <==> idx_rejected(len as int, idx),
        r matches Some(at) ==> at as int == idx_resolved(len as int, idx),
{
    let i: i32 = idx as i32;
    if i < 0 {
        let x: usize = if i == i32::MIN { i as usize } else { (-i) as usize };
        if x != 1 && x > len {
            return None;
        }
        if x <= len {
            Some(len - x)
        } else {
            Some(usize::MAX)
        }
    } else {
        Some(idx)
    }
}

/// Where `GetIdx_Inner` leads with `idx` in `v`: an element of an array, or
/// nowhere, or to the panic of `get_mut(..).unwrap()` past the end.
pub open spec fn idx_reach(v: Json, idx: usize) -> Reach {
    match v {
        Json::Array(a) => if idx_rejected(a.len() as int, idx) {
            Reach::Missing
        } else if idx_resolved(a.len() as int, idx) >= a.len() {
            Reach::Panics
        } else {
            Reach::Found(seq![Loc::Index(idx_resolved(a.len() as int, idx))])
        },
        _ => Reach::Missing,
    }
}

/// An index lookup, in the shape of `look`.
pub open spec fn look_idx(v: Json, idx: usize) -> (Json, Reach) {
    (v, idx_reach(v, idx))
}

/// `GetIdx_Inner`: where `idx` leads in `v`.
pub fn GetIdx_Inner(v: &JsonValue, idx: usize) -> (r: Located)
    ensures
        r@ == idx_reach(v@, idx),
        r@ matches Reach::Found(p) ==> json_at(v@, p) is Some,
{
    match v {
        JsonValue::Array(a) => {
            proof { lemma_array_view(*a); }
            match resolve_idx(a.len(), idx) {
                None => Located::Missing,
                Some(at) => {
                    if at >= a.len() {
                        Located::Panics
                    } else {
                        let mut p: Vec<PathStep> = Vec::new();
                        p.push(PathStep::Index(at));
                        proof {
                            assert(path_view(p@) =~= seq![Loc::Index(at as int)]);
                            reveal_with_fuel(json_at, 2);
                        }
                        Located::Found(p)
                    }
                },
            }
        },
        _ => Located::Missing,
    }
}

/// `GetIdx`: a copy of the element `idx` leads to, or the element itself
/// with `J_MOVE`, which leaves a null in its place.
pub fn rust_SRCWRJSON_GetIdx(object: &mut JsonValue, flags: JsonFlags, idx: usize) -> (r: Result<Option<JsonValue>, IndexPanic>)
    ensures
        json_sorted(old(object)@) ==> json_sorted(final(object)@),
        ({
            let l = look_idx(old(object)@, idx);
            match l.1 {
                Reach::Found(p) => {
                    &&& r matches Ok(Some(x)) && Some(x@) == json_at(l.0, p)
                    &&& final(object)@ == if flags.move_value { json_put(l.0, p, Json::Null) } else { l.0 }
                },
                Reach::Missing => r matches Ok(None) && final(object)@ == l.0,
                Reach::Panics => r is Err && final(object)@ == l.0,
            }
        }),
{
    proof {
        if json_sorted(object@) {
            if let Reach::Found(p) = idx_reach(object@, idx) {
                law_put_keeps_sorted(object@, p, Json::Null);
            }
        }
    }
    match GetIdx_Inner(object, idx) {
        Located::Found(p) => {
            if flags.move_value {
                Ok(Some(put(object, &p, JsonValue::Null)))
            } else {
                Ok(Some(target(object, &p).duplicate()))
            }
        },
        Located::Missing => Ok(None),
        Located::Panics => Err(IndexPanic),
    }
}

/// `n` nulls.
pub open spec fn nulls(n: int) -> Seq<Json> {
    Seq::new(n as nat, |i: int| Json::Null)
}

/// The elements of an array grown with nulls so that position `at` exists.
pub open spec fn grown(a: Seq<Json>, at: int) -> Seq<Json> {
    if a.len() < at + 1 {
        a + nulls(at + 1 - a.len())
    } else {
        a
    }
}

/// Pushes nulls until `a` has `n` elements.
fn grow_to(a: &mut Vec<JsonValue>, n: usize)
    ensures
        elems_view(final(a)@) == if old(a)@.len() < n { elems_view(old(a)@) + nulls(n - old(a)@.len()) } else { elems_view(old(a)@) },
{
    let ghost start = elems_view(a@);
    let ghost start_len = a@.len();
    while a.len() < n
        invariant
            start_len == start.len(),
            a@.len() >= start_len,
            a@.len() > start_len ==> a@.len() <= n,
            elems_view(a@) == start + nulls(a@.len() - start_len),
        decreases n - a@.len(),
    {
        let ghost prev = a@;
        a.push(JsonValue::Null);
        proof {
            let target = start + nulls(a@.len() - start_len);
            assert forall|j: int| 0 <= j < a@.len() implies #[trigger] elems_view(a@)[j] == target[j] by {
                if j < prev.len() {
                    assert(a@[j] == prev[j]);
                    assert(elems_view(prev)[j] == (start + nulls(prev.len() - start_len))[j]);
                }
            }
            assert(elems_view(a@) =~= target);
        }
    }
    proof {
        if start_len >= n {
            assert(nulls(0) =~= Seq::<Json>::empty());
            assert(start + nulls(0) =~= start);
        }
    }
}

/// `SetIdx_Inner`: puts `other` (a copy of it, or with `J_MOVE` itself,
/// leaving a null) at the element `idx` stands for, growing the array with
/// nulls up to it. Reports success unless `J_IS_DIFFERENT` is set and the
/// element held a different value.
pub fn SetIdx_Inner(v: &mut JsonValue, idx: usize, other: &mut JsonValue, flags: JsonFlags) -> (r: Result<Option<u32>, IndexPanic>)
    ensures
        match old(v)@ {
            Json::Array(a) => if idx_rejected(a.len() as int, idx) {
                r == Ok::<Option<u32>, IndexPanic>(None) && final(v)@ == old(v)@ && final(other)@ == old(other)@
            } else if idx_resolved(a.len() as int, idx) == usize::MAX {
                r is Err
            } else {
                let at = idx_resolved(a.len() as int, idx);
                &&& r == Ok::<Option<u32>, IndexPanic>(setx_result(flags, grown(a, at)[at], old(other)@))
                &&& final(v)@ == Json::Array(grown(a, at).update(at, old(other)@))
                &&& final(other)@ == if flags.move_value { Json::Null } else { old(other)@ }
            },
            _ => r == Ok::<Option<u32>, IndexPanic>(None) && final(v)@ == old(v)@ && final(other)@ == old(other)@,
        },
{
    match v {
        JsonValue::Array(a) => {
            proof { lemma_array_view(*a); }
            let ghost oa = elems_view(a@);
            let at = match resolve_idx(a.len(), idx) {
                None => { return Ok(None); },
                Some(at) => at,
            };
            if at == usize::MAX {
                return Err(IndexPanic);
            }
            grow_to(a, at + 1);
            let ghost g = elems_view(a@);
            assert(g == grown(oa, at as int));
            assert(g[at as int] == a@[at as int]@);
            let differs = flags.is_different && !a[at].equals(other);
            let incoming = if flags.move_value {
                let mut taken = JsonValue::Null;
                std::mem::swap(&mut taken, other);
                taken
            } else {
                other.duplicate()
            };
            a.set(at, incoming);
            proof {
                lemma_array_view(*a);
                assert(elems_view(a@) =~= g.update(at as int, incoming@));
            }
            if differs {
                Ok(None)
            } else {
                Ok(Some(1))
            }
        },
        _ => Ok(None),
    }
}

/// `SetIdx`.
pub fn rust_SRCWRJSON_SetIdx(object: &mut JsonValue, idx: usize, other: &mut JsonValue, flags: JsonFlags) -> (r: Result<Option<u32>, IndexPanic>)
    ensures
        r is Ok && json_sorted(old(object)@) && json_sorted(old(other)@) ==> json_sorted(final(object)@),
        match old(object)@ {
            Json::Array(a) => if idx_rejected(a.len() as int, idx) {
                r == Ok::<Option<u32>, IndexPanic>(None) && final(object)@ == old(object)@ && final(other)@ == old(other)@
            } else if idx_resolved(a.len() as int, idx) == usize::MAX {
                r is Err
            } else {
                let at = idx_resolved(a.len() as int, idx);
                &&& r == Ok::<Option<u32>, IndexPanic>(setx_result(flags, grown(a, at)[at], old(other)@))
                &&& final(object)@ == Json::Array(grown(a, at).update(at, old(other)@))
                &&& final(other)@ == if flags.move_value { Json::Null } else { old(other)@ }
            },
            _ => r == Ok::<Option<u32>, IndexPanic>(None) && final(object)@ == old(object)@ && final(other)@ == old(other)@,
        },
{
    proof {
        if let Json::Array(a) = object@ {
            if json_sorted(object@) && json_sorted(other@) && !idx_rejected(a.len() as int, idx) {
                law_index_natives_keep_sorted(a, idx_resolved(a.len() as int, idx), other@);
            }
        }
    }
    SetIdx_Inner(object, idx, other, flags)
}

/// `RemoveIdx`: removes the element `idx` stands for, shifting the rest
/// down, or with `J_SWAP_REMOVE` moving the last element into its place.
pub fn rust_SRCWRJSON_RemoveIdx(object: &mut JsonValue, flags: JsonFlags, idx: usize) -> (r: Option<u32>)
    ensures
        json_sorted(old(object)@) ==> json_sorted(final(object)@),
        match old(object)@ {
            Json::Array(a) => if idx_rejected(a.len() as int, idx) || idx_resolved(a.len() as int, idx) >= a.len() {
                r is None && final(object)@ == old(object)@
            } else {
                let at = idx_resolved(a.len() as int, idx);
                &&& r == Some(1u32)
                &&& final(object)@ == Json::Array(if flags.swap_remove { a.update(at, a.last()).drop_last() } else { a.remove(at) })
            },
            _ => r is None && final(object)@ == old(object)@,
        },
{
    proof {
        if let Json::Array(a) = object@ {
            if json_sorted(object@) && !idx_rejected(a.len() as int, idx) && idx_resolved(a.len() as int, idx) < a.len() {
                law_index_natives_keep_sorted(a, idx_resolved(a.len() as int, idx), Json::Null);
            }
        }
    }
    match object {
        JsonValue::Array(a) => {
            proof { lemma_array_view(*a); }
            let ghost oa = elems_view(a@);
            let at = match resolve_idx(a.len(), idx) {
                None => { return None; },
                Some(at) => at,
            };
            if at >= a.len() {
                return None;
            }
            let ghost before = a@;
            if flags.swap_remove {
                let _ = a.swap_remove(at);
                proof {
                    lemma_array_view(*a);
                    assert(elems_view(a@) =~= oa.update(at as int, oa.last()).drop_last());
                }
            } else {
                let _ = a.remove(at);
                proof {
                    lemma_array_view(*a);
                    assert(elems_view(a@) =~= oa.remove(at as int));
                }
            }
            Some(1)
        },
        _ => None,
    }
}

/// What a reading native hands back: the panic, nothing when the lookup
/// leads nowhere, else what `f` makes of the value it leads to.
pub open spec fn read_at<T>(l: (Json, Reach), f: spec_fn(Json) -> Option<T>) -> Result<Option<T>, IndexPanic> {
    match l.1 {
        Reach::Found(p) => Ok(f(json_at(l.0, p)->0)),
        Reach::Missing => Ok(None),
        Reach::Panics => Err(IndexPanic),
    }
}

/// A plugin return value that cannot be zero (`NonZeroI32::new`).
pub open spec fn nonzero_i32(x: i32) -> Option<i32> {
    if x == 0 {
        None
    } else {
        Some(x)
    }
}

/// `GetCell`: the integer as a cell (its low 32 bits).
pub open spec fn cell_of(j: Json) -> Option<i32> {
    match json_as_i64(j) {
        Some(n) => nonzero_i32(n as i32),
        None => None,
    }
}

/// `GetBool`: `1` for `true`.
pub open spec fn true_of(j: Json) -> Option<u32> {
    if j == Json::Bool(true) {
        Some(1u32)
    } else {
        None
    }
}

/// `IsNull`: `1` for null.
pub open spec fn null_of(j: Json) -> Option<u32> {
    if j is Null {
        Some(1u32)
    } else {
        None
    }
}

/// What `ToggleBool` makes of a value, and what it reports: null becomes
/// `true`, a boolean flips, and success means the result is `true`.
pub open spec fn toggled(j: Json) -> (Json, Option<u32>) {
    match j {
        Json::Null => (Json::Bool(true), Some(1u32)),
        Json::Bool(b) => (Json::Bool(!b), if !b { Some(1u32) } else { None }),
        _ => (j, None),
    }
}

/// What `Clear` makes of a value: empty containers and strings, zero, `false`.
pub open spec fn cleared(j: Json) -> Json {
    match j {
        Json::Array(_) => Json::Array(Seq::empty()),
        Json::Object(_) => Json::Object(Seq::empty()),
        Json::Str(_) => Json::Str(Seq::empty()),
        Json::Number(_) => Json::Number(JsonNumber::PosInt(0)),
        Json::Bool(_) => Json::Bool(false),
        Json::Null => Json::Null,
    }
}

/// A value read out for the natives that read one.
fn read_target(object: &mut JsonValue, flags: JsonFlags, key: Option<&[u8]>, keylen: i32) -> (r: Result<Option<JsonValue>, IndexPanic>)
    requires
        key_ok(key, keylen),
    ensures
        final(object)@ == look(old(object)@, key, keylen, flags, false).0,
        r is Err <==> look(old(object)@, key, keylen, flags, false).1 is Panics,
        r matches Ok(None) ==> look(old(object)@, key, keylen, flags, false).1 is Missing,
        r matches Ok(Some(x)) ==> found(look(old(object)@, key, keylen, flags, false)) == Some(x@)
            && look(old(object)@, key, keylen, flags, false).1 is Found,
{
    match sidx(object, key, keylen, flags, false) {
        Located::Found(p) => Ok(Some(target(object, &p).duplicate())),
        Located::Missing => Ok(None),
        Located::Panics => Err(IndexPanic),
    }
}

/// The element an index reads, for the index natives that read one.
fn read_target_idx(object: &JsonValue, idx: usize) -> (r: Result<Option<JsonValue>, IndexPanic>)
    ensures
        r is Err <==> idx_reach(object@, idx) is Panics,
        r matches Ok(None) ==> idx_reach(object@, idx) is Missing,
        r matches Ok(Some(x)) ==> found(look_idx(object@, idx)) == Some(x@) && idx_reach(object@, idx) is Found,
{
    match GetIdx_Inner(object, idx) {
        Located::Found(p) => Ok(Some(target(object, &p).duplicate())),
        Located::Missing => Ok(None),
        Located::Panics => Err(IndexPanic),
    }
}

fn cell_value(v: &JsonValue) -> (r: Option<i32>)
    ensures
        r == cell_of(v@),
{
    match value_as_i64(v) {
        Some(n) => {
            let x = n as i32;
            if x == 0 { None } else { Some(x) }
        },
        None => None,
    }
}

fn true_value(v: &JsonValue) -> (r: Option<u32>)
    ensures
        r == true_of(v@),
{
    match v {
        JsonValue::Bool(true) => Some(1),
        _ => None,
    }
}

fn null_value(v: &JsonValue) -> (r: Option<u32>)
    ensures
        r == null_of(v@),
{
    match v {
        JsonValue::Null => Some(1),
        _ => None,
    }
}

/// `GetCell`.
pub fn rust_SRCWRJSON_GetCell(object: &mut JsonValue, flags: JsonFlags, key: Option<&[u8]>, keylen: i32) -> (r: Result<Option<i32>, IndexPanic>)
    requires
        key_ok(key, keylen),
    ensures
        json_sorted(old(object)@) ==> json_sorted(final(object)@),
        final(object)@ == look(old(object)@, key, keylen, flags, false).0,
        r == read_at(look(old(object)@, key, keylen, flags, false), |j: Json| cell_of(j)),
{
    proof {
        if json_sorted(object@) {
            law_lookup_keeps_sorted(object@, key_view(key), keylen, flags, false);
        }
    }
    match read_target(object, flags, key, keylen) {
        Ok(Some(v)) => Ok(cell_value(&v)),
        Ok(None) => Ok(None),
        Err(e) => Err(e),
    }
}

/// `GetCellIdx`.
pub fn rust_SRCWRJSON_GetCellIdx(object: &mut JsonValue, flags: JsonFlags, idx: usize) -> (r: Result<Option<i32>, IndexPanic>)
    ensures
        final(object)@ == old(object)@,
        r == read_at(look_idx(old(object)@, idx), |j: Json| cell_of(j)),
{
    match read_target_idx(object, idx) {
        Ok(Some(v)) => Ok(cell_value(&v)),
        Ok(None) => Ok(None),
        Err(e) => Err(e),
    }
}

/// `GetBool`.
pub fn rust_SRCWRJSON_GetBool(object: &mut JsonValue, flags: JsonFlags, key: Option<&[u8]>, keylen: i32) -> (r: Result<Option<u32>, IndexPanic>)
    requires
        key_ok(key, keylen),
    ensures
        json_sorted(old(object)@) ==> json_sorted(final(object)@),
        final(object)@ == look(old(object)@, key, keylen, flags, false).0,
        r == read_at(look(old(object)@, key, keylen, flags, false), |j: Json| true_of(j)),
{
    proof {
        if json_sorted(object@) {
            law_lookup_keeps_sorted(object@, key_view(key), keylen, flags, false);
        }
    }
    match read_target(object, flags, key, keylen) {
        Ok(Some(v)) => Ok(true_value(&v)),
        Ok(None) => Ok(None),
        Err(e) => Err(e),
    }
}

/// `GetBoolIdx`.
pub fn rust_SRCWRJSON_GetBoolIdx(object: &mut JsonValue, flags: JsonFlags, idx: usize) -> (r: Result<Option<u32>, IndexPanic>)
    ensures
        final(object)@ == old(object)@,
        r == read_at(look_idx(old(object)@, idx), |j: Json| true_of(j)),
{
    match read_target_idx(object, idx) {
        Ok(Some(v)) => Ok(true_value(&v)),
        Ok(None) => Ok(None),
        Err(e) => Err(e),
    }
}

/// `IsNull`.
pub fn rust_SRCWRJSON_IsNull(object: &mut JsonValue, flags: JsonFlags, key: Option<&[u8]>, keylen: i32) -> (r: Result<Option<u32>, IndexPanic>)
    requires
        key_ok(key, keylen),
    ensures
        json_sorted(old(object)@) ==> json_sorted(final(object)@),
        final(object)@ == look(old(object)@, key, keylen, flags, false).0,
        r == read_at(look(old(object)@, key, keylen, flags, false), |j: Json| null_of(j)),
{
    proof {
        if json_sorted(object@) {
            law_lookup_keeps_sorted(object@, key_view(key), keylen, flags, false);
        }
    }
    match read_target(object, flags, key, keylen) {
        Ok(Some(v)) => Ok(null_value(&v)),
        Ok(None) => Ok(None),
        Err(e) => Err(e),
    }
}

/// `IsNullIdx`: the index is taken as it is, never counted from the end.
pub fn rust_SRCWRJSON_IsNullIdx(object: &JsonValue, flags: JsonFlags, idx: usize) -> (r: Option<u32>)
    ensures
        r == match object@ {
            Json::Array(a) => if idx < a.len() { null_of(a[idx as int]) } else { None },
            _ => None,
        },
{
    match object {
        JsonValue::Array(a) => {
            proof { lemma_array_view(*a); }
            if idx < a.len() {
                null_value(&a[idx])
            } else {
                None
            }
        },
        _ => None,
    }
}

/// `GetI64`: the integer, stored into `buffer` when there is one; hands
/// back its low 32 bits.
pub fn rust_SRCWRJSON_GetI64(object: &mut JsonValue, buffer: &mut i64, flags: JsonFlags, key: Option<&[u8]>, keylen: i32) -> (r: Result<Option<i32>, IndexPanic>)
    requires
        key_ok(key, keylen),
    ensures
        json_sorted(old(object)@) ==> json_sorted(final(object)@),
        final(object)@ == look(old(object)@, key, keylen, flags, false).0,
        r == read_at(look(old(object)@, key, keylen, flags, false), |j: Json| cell_of(j)),
        *final(buffer) == match found(look(old(object)@, key, keylen, flags, false)) {
            Some(j) => match json_as_i64(j) {
                Some(n) => n,
                None => *old(buffer),
            },
            None => *old(buffer),
        },
{
    proof {
        if json_sorted(object@) {
            law_lookup_keeps_sorted(object@, key_view(key), keylen, flags, false);
        }
    }
    match read_target(object, flags, key, keylen) {
        Ok(Some(v)) => {
            match value_as_i64(&v) {
                Some(n) => {
                    *buffer = n;
                    let x = n as i32;
                    Ok(if x == 0 { None } else { Some(x) })
                },
                None => Ok(None),
            }
        },
        Ok(None) => Ok(None),
        Err(e) => Err(e),
    }
}

/// `GetI64Idx`.
pub fn rust_SRCWRJSON_GetI64Idx(object: &mut JsonValue, buffer: &mut i64, flags: JsonFlags, idx: usize) -> (r: Result<Option<i32>, IndexPanic>)
    ensures
        final(object)@ == old(object)@,
        r == read_at(look_idx(old(object)@, idx), |j: Json| cell_of(j)),
        *final(buffer) == match found(look_idx(old(object)@, idx)) {
            Some(j) => match json_as_i64(j) {
                Some(n) => n,
                None => *old(buffer),
            },
            None => *old(buffer),
        },
{
    match read_target_idx(object, idx) {
        Ok(Some(v)) => {
            match value_as_i64(&v) {
                Some(n) => {
                    *buffer = n;
                    let x = n as i32;
                    Ok(if x == 0 { None } else { Some(x) })
                },
                None => Ok(None),
            }
        },
        Ok(None) => Ok(None),
        Err(e) => Err(e),
    }
}

/// `GetString`: copies the string the key leads to into the plugin's
/// buffer (truncated so a NUL fits) and hands back how many bytes were
/// copied; a buffer of fewer than 2 bytes is refused before any lookup.
pub fn rust_SRCWRJSON_GetString(object: &mut JsonValue, buffer: &mut Vec<u8>, flags: JsonFlags, key: Option<&[u8]>, keylen: i32) -> (r: Result<Option<usize>, IndexPanic>)
    requires
        key_ok(key, keylen),
    ensures
        json_sorted(old(object)@) ==> json_sorted(final(object)@),
        old(buffer)@.len() < 2 ==> r == Ok::<Option<usize>, IndexPanic>(None) && final(object)@ == old(object)@ && final(buffer)@ == old(buffer)@,
        old(buffer)@.len() >= 2 ==> {
            let l = look(old(object)@, key, keylen, flags, false);
            &&& final(object)@ == l.0
            &&& match found(l) {
                Some(Json::Str(s)) => {
                    &&& final(buffer)@ == spec_sp_buf_written(s, old(buffer)@)
                    &&& r == Ok::<Option<usize>, IndexPanic>(if spec_sp_buf_count(s, old(buffer)@.len() as int) == 0 {
                        None
                    } else {
                        Some(spec_sp_buf_count(s, old(buffer)@.len() as int) as usize)
                    })
                },
                _ => final(buffer)@ == old(buffer)@ && (r is Err <==> l.1 is Panics) && (r is Ok ==> r == Ok::<Option<usize>, IndexPanic>(None)),
            }
        },
{
    proof {
        if json_sorted(object@) {
            law_lookup_keeps_sorted(object@, key_view(key), keylen, flags, false);
        }
    }
    if buffer.len() < 2 {
        return Ok(None);
    }
    match read_target(object, flags, key, keylen) {
        Ok(Some(v)) => match v {
            JsonValue::String(s) => Ok(write_to_sp_buf(s.as_slice(), buffer)),
            _ => Ok(None),
        },
        Ok(None) => Ok(None),
        Err(e) => Err(e),
    }
}

/// `GetStringIdx`: as `GetString`, but the buffer size is checked as a
/// 32-bit plugin integer.
pub fn rust_SRCWRJSON_GetStringIdx(object: &mut JsonValue, buffer: &mut Vec<u8>, flags: JsonFlags, idx: usize) -> (r: Result<Option<usize>, IndexPanic>)
    ensures
        final(object)@ == old(object)@,
        (old(buffer)@.len() as i32) < 2 ==> r == Ok::<Option<usize>, IndexPanic>(None) && final(buffer)@ == old(buffer)@,
        (old(buffer)@.len() as i32) >= 2 ==> match found(look_idx(old(object)@, idx)) {
            Some(Json::Str(s)) => {
                &&& final(buffer)@ == spec_sp_buf_written(s, old(buffer)@)
                &&& r == Ok::<Option<usize>, IndexPanic>(if spec_sp_buf_count(s, old(buffer)@.len() as int) == 0 {
                    None
                } else {
                    Some(spec_sp_buf_count(s, old(buffer)@.len() as int) as usize)
                })
            },
            _ => final(buffer)@ == old(buffer)@ && (r is Err <==> idx_reach(old(object)@, idx) is Panics)
                && (r is Ok ==> r == Ok::<Option<usize>, IndexPanic>(None)),
        },
{
    if (buffer.len() as i32) < 2 {
        return Ok(None);
    }
    match read_target_idx(object, idx) {
        Ok(Some(v)) => match v {
            JsonValue::String(s) => {
                assert(buffer.len() >= 1) by {
                    if buffer.len() == 0 {
                        assert((0usize as i32) == 0i32);
                    }
                }
                Ok(write_to_sp_buf(s.as_slice(), buffer))
            },
            _ => Ok(None),
        },
        Ok(None) => Ok(None),
        Err(e) => Err(e),
    }
}

/// Takes the value at the end of a path out, leaving a null.
fn take_at(object: &mut JsonValue, p: &Vec<PathStep>) -> (r: JsonValue)
    requires
        json_at(old(object)@, path_view(p@)) is Some,
    ensures
        final(object)@ == json_put(old(object)@, path_view(p@), Json::Null),
        json_at(old(object)@, path_view(p@)) == Some(r@),
        json_at(final(object)@, path_view(p@)) is Some,
{
    let r = put(object, p, JsonValue::Null);
    proof { lemma_at_put(old(object)@, path_view(p@), Json::Null); }
    r
}

/// Puts a value back where `take_at` left its null.
fn put_back(object: &mut JsonValue, p: &Vec<PathStep>, new: JsonValue, Ghost(root): Ghost<Json>)
    requires
        json_at(root, path_view(p@)) is Some,
        old(object)@ == json_put(root, path_view(p@), Json::Null),
    ensures
        final(object)@ == json_put(root, path_view(p@), new@),
{
    proof {
        lemma_at_put(root, path_view(p@), Json::Null);
        lemma_put_put(root, path_view(p@), Json::Null, new@);
    }
    let _ = put(object, p, new);
}

/// What `Clear` makes of a value.
fn clear_value(v: JsonValue) -> (r: JsonValue)
    ensures
        r@ == cleared(v@),
{
    match v {
        JsonValue::Array(_) => {
            let e: Vec<JsonValue> = Vec::new();
            proof { lemma_array_view(e); assert(elems_view(e@) =~= Seq::empty()); }
            JsonValue::Array(e)
        },
        JsonValue::Object(_) => {
            let e: Vec<JsonEntry> = Vec::new();
            proof { lemma_object_view(e); assert(entries_view(e@) =~= Seq::empty()); }
            JsonValue::Object(e)
        },
        JsonValue::String(_) => {
            let e: Vec<u8> = Vec::new();
            JsonValue::String(e)
        },
        JsonValue::Number(_) => JsonValue::Number(JsonNumber::PosInt(0)),
        JsonValue::Bool(_) => JsonValue::Bool(false),
        JsonValue::Null => JsonValue::Null,
    }
}

/// `Clear`: empties the container or string the key leads to, zeroes a
/// number, and sets a boolean to `false`.
pub fn rust_SRCWRJSON_Clear(object: &mut JsonValue, flags: JsonFlags, key: Option<&[u8]>, keylen: i32) -> (r: Result<Option<u32>, IndexPanic>)
    requires
        key_ok(key, keylen),
    ensures
        json_sorted(old(object)@) ==> json_sorted(final(object)@),
        ({
            let l = look(old(object)@, key, keylen, flags, false);
            match l.1 {
                Reach::Found(p) => r == Ok::<Option<u32>, IndexPanic>(Some(1u32))
                    && final(object)@ == json_put(l.0, p, cleared(json_at(l.0, p)->0)),
                Reach::Missing => r == Ok::<Option<u32>, IndexPanic>(None) && final(object)@ == l.0,
                Reach::Panics => r is Err && final(object)@ == l.0,
            }
        }),
        ({
            let l = look(old(object)@, key, keylen, flags, false);
            l.1 matches Reach::Found(p) ==> (json_at(l.0, p) is Some ==> json_at(final(object)@, p) == Some(
                match json_at(l.0, p)->0 {
                    Json::Object(_) => Json::Object(Seq::empty()),
                    Json::Array(_) => Json::Array(Seq::empty()),
                    Json::Str(_) => Json::Str(Seq::empty()),
                    Json::Number(_) => Json::Number(JsonNumber::PosInt(0)),
                    Json::Bool(_) => Json::Bool(false),
                    Json::Null => Json::Null,
                }))
        }),
{
    proof {
        let l = look(object@, key, keylen, flags, false);
        if let Reach::Found(p) = l.1 {
            law_set_keeps_sorted(object@, key_view(key), keylen, flags, false, cleared(json_at(l.0, p)->0));
        } else {
            law_set_keeps_sorted(object@, key_view(key), keylen, flags, false, Json::Null);
        }
    }
    match sidx(object, key, keylen, flags, false) {
        Located::Found(p) => {
            let ghost root = object@;
            let old_v = take_at(object, &p);
            let c = clear_value(old_v);
            proof { lemma_at_put(root, path_view(p@), c@); }
            put_back(object, &p, c, Ghost(root));
            Ok(Some(1))
        },
        Located::Missing => Ok(None),
        Located::Panics => Err(IndexPanic),
    }
}

/// Clearing empties in place: where `Clear` finds a value, the value at
/// that place afterwards is of the same kind and empty: an object with no
/// members, an array with no elements, an empty string, zero, `false`, or null.
pub proof fn law_clear_empties(root: Json, key: Option<&[u8]>, keylen: i32, flags: JsonFlags)
    ensures
        ({
            let l = look(root, key, keylen, flags, false);
            l.1 matches Reach::Found(p) ==> (json_at(l.0, p) matches Some(v) ==> {
                let w = json_put(l.0, p, cleared(v));
                &&& json_at(w, p) matches Some(c)
                &&& json_type(c) == json_type(v)
                &&& json_len(c) == 0
                &&& (v is Object ==> c == Json::Object(Seq::empty()))
                &&& (v is Array ==> c == Json::Array(Seq::empty()))
                &&& (v is Str ==> c == Json::Str(Seq::empty()))
                &&& (v is Bool ==> c == Json::Bool(false))
                &&& (v is Number ==> c == Json::Number(JsonNumber::PosInt(0)))
            })
        }),
{
    let l = look(root, key, keylen, flags, false);
    if let Reach::Found(p) = l.1 {
        if let Some(v) = json_at(l.0, p) {
            lemma_at_put(l.0, p, cleared(v));
        }
    }
}

/// What `ToggleBool` makes of a value.
fn rust_SRCWRJSON_ToggleBool_Inner(v: JsonValue) -> (r: (JsonValue, Option<u32>))
    ensures
        (r.0@, r.1) == toggled(v@),
{
    match v {
        JsonValue::Null => (JsonValue::Bool(true), Some(1)),
        JsonValue::Bool(b) => (JsonValue::Bool(!b), if !b { Some(1) } else { None }),
        other => (other, None),
    }
}

/// `ToggleBool`: flips the boolean the key leads to (creating it; null
/// becomes `true`); success means it is now `true`.
pub fn rust_SRCWRJSON_ToggleBool(object: &mut JsonValue, flags: JsonFlags, key: Option<&[u8]>, keylen: i32) -> (r: Result<Option<u32>, IndexPanic>)
    requires
        key_ok(key, keylen),
    ensures
        json_sorted(old(object)@) ==> json_sorted(final(object)@),
        ({
            let l = look(old(object)@, key, keylen, flags, true);
            match l.1 {
                Reach::Found(p) => r == Ok::<Option<u32>, IndexPanic>(toggled(json_at(l.0, p)->0).1)
                    && final(object)@ == json_put(l.0, p, toggled(json_at(l.0, p)->0).0),
                Reach::Missing => r == Ok::<Option<u32>, IndexPanic>(None) && final(object)@ == l.0,
                Reach::Panics => r is Err && final(object)@ == l.0,
            }
        }),
        ({
            let l = look(old(object)@, key, keylen, flags, true);
            l.1 matches Reach::Found(p) ==> (json_at(l.0, p) is Some ==> match json_at(l.0, p)->0 {
                Json::Null => json_at(final(object)@, p) == Some(Json::Bool(true)) && r == Ok::<Option<u32>, IndexPanic>(Some(1u32)),
                Json::Bool(b) => json_at(final(object)@, p) == Some(Json::Bool(!b))
                    && r == Ok::<Option<u32>, IndexPanic>(if b { None } else { Some(1u32) }),
                _ => final(object)@ == l.0 && r == Ok::<Option<u32>, IndexPanic>(None),
            })
        }),
{
    proof {
        if json_sorted(object@) {
            law_lookup_keeps_sorted(object@, key_view(key), keylen, flags, true);
        }
    }
    match sidx(object, key, keylen, flags, true) {
        Located::Found(p) => {
            let ghost root = object@;
            proof {
                lemma_at_put(root, path_view(p@), toggled(json_at(root, path_view(p@))->0).0);
                if !(json_at(root, path_view(p@))->0 is Null) && !(json_at(root, path_view(p@))->0 is Bool) {
                    crate::json::walk::lemma_put_same(root, path_view(p@));
                }
            }
            proof {
                if json_sorted(old(object)@) {
                    lemma_at_sorted(root, path_view(p@));
                    law_put_keeps_sorted(root, path_view(p@), toggled(json_at(root, path_view(p@))->0).0);
                }
            }
            let old_v = take_at(object, &p);
            let (new_v, res) = rust_SRCWRJSON_ToggleBool_Inner(old_v);
            put_back(object, &p, new_v, Ghost(root));
            Ok(res)
        },
        Located::Missing => Ok(None),
        Located::Panics => Err(IndexPanic),
    }
}

/// `ToggleBoolIdx`.
pub fn rust_SRCWRJSON_ToggleBoolIdx(object: &mut JsonValue, flags: JsonFlags, idx: usize) -> (r: Result<Option<u32>, IndexPanic>)
    ensures
        json_sorted(old(object)@) ==> json_sorted(final(object)@),
        match idx_reach(old(object)@, idx) {
            Reach::Found(p) => r == Ok::<Option<u32>, IndexPanic>(toggled(json_at(old(object)@, p)->0).1)
                && final(object)@ == json_put(old(object)@, p, toggled(json_at(old(object)@, p)->0).0),
            Reach::Missing => r == Ok::<Option<u32>, IndexPanic>(None) && final(object)@ == old(object)@,
            Reach::Panics => r is Err && final(object)@ == old(object)@,
        },
{
    proof {
        if json_sorted(object@) {
            if let Reach::Found(p) = idx_reach(object@, idx) {
                if json_at(object@, p) is Some {
                    lemma_at_sorted(object@, p);
                    law_put_keeps_sorted(object@, p, toggled(json_at(object@, p)->0).0);
                }
            }
        }
    }
    match GetIdx_Inner(object, idx) {
        Located::Found(p) => {
            let ghost root = object@;
            let old_v = take_at(object, &p);
            let (new_v, res) = rust_SRCWRJSON_ToggleBool_Inner(old_v);
            put_back(object, &p, new_v, Ghost(root));
            Ok(res)
        },
        Located::Missing => Ok(None),
        Located::Panics => Err(IndexPanic),
    }
}

/// `ReplaceCell`: replaces the integer the key leads to with `newcell` and
/// hands back the old one's low 32 bits; other values are left alone.
pub fn rust_SRCWRJSON_ReplaceCell(object: &mut JsonValue, newcell: i32, flags: JsonFlags, key: Option<&[u8]>, keylen: i32) -> (r: Result<Option<i32>, IndexPanic>)
    requires
        key_ok(key, keylen),
    ensures
        json_sorted(old(object)@) ==> json_sorted(final(object)@),
        ({
            let l = look(old(object)@, key, keylen, flags, false);
            &&& r == read_at(l, |j: Json| cell_of(j))
            &&& final(object)@ == match l.1 {
                Reach::Found(p) => if json_as_i64(json_at(l.0, p)->0) is Some {
                    json_put(l.0, p, int_json(newcell as i64))
                } else {
                    l.0
                },
                _ => l.0,
            }
        }),
        ({
            let l = look(old(object)@, key, keylen, flags, false);
            l.1 matches Reach::Found(p) ==> (json_at(l.0, p) is Some ==> match json_as_i64(json_at(l.0, p)->0) {
                Some(n) => json_at(final(object)@, p) == Some(int_json(newcell as i64))
                    && r == Ok::<Option<i32>, IndexPanic>(if n as i32 == 0 { None } else { Some(n as i32) }),
                None => final(object)@ == l.0 && r == Ok::<Option<i32>, IndexPanic>(None),
            })
        }),
{
    proof {
        if json_sorted(object@) {
            law_set_keeps_sorted(object@, key_view(key), keylen, flags, false, int_json(newcell as i64));
        }
        let l = look(object@, key, keylen, flags, false);
        if let Reach::Found(p) = l.1 {
            if json_at(l.0, p) is Some {
                lemma_at_put(l.0, p, int_json(newcell as i64));
            }
        }
    }
    match sidx(object, key, keylen, flags, false) {
        Located::Found(p) => {
            let cell = match value_as_i64(target(object, &p)) {
                Some(n) => n as i32,
                None => { return Ok(None); },
            };
            let _ = put(object, &p, int_value(newcell as i64));
            Ok(if cell == 0 { None } else { Some(cell) })
        },
        Located::Missing => Ok(None),
        Located::Panics => Err(IndexPanic),
    }
}

/// `ReplaceCellIdx`: the index picks an element (counted from the end when
/// negative), and then that element is indexed again with `idx` as it is;
/// the integer found there is replaced with `newcell`.
pub fn rust_SRCWRJSON_ReplaceCellIdx(object: &mut JsonValue, newcell: i32, flags: JsonFlags, idx: usize) -> (r: Result<Option<i32>, IndexPanic>)
    ensures
        json_sorted(old(object)@) ==> json_sorted(final(object)@),
        match idx_reach(old(object)@, idx) {
            Reach::Found(p) => match json_at(old(object)@, p)->0 {
                Json::Array(b) => if idx < b.len() && json_as_i64(b[idx as int]) is Some {
                    r == Ok::<Option<i32>, IndexPanic>(cell_of(b[idx as int]))
                        && final(object)@ == json_put(old(object)@, p.push(Loc::Index(idx as int)), int_json(newcell as i64))
                } else {
                    r == Ok::<Option<i32>, IndexPanic>(None) && final(object)@ == old(object)@
                },
                _ => r == Ok::<Option<i32>, IndexPanic>(None) && final(object)@ == old(object)@,
            },
            Reach::Missing => r == Ok::<Option<i32>, IndexPanic>(None) && final(object)@ == old(object)@,
            Reach::Panics => r is Err && final(object)@ == old(object)@,
        },
{
    proof {
        if json_sorted(object@) {
            if let Reach::Found(p) = idx_reach(object@, idx) {
                law_put_keeps_sorted(object@, p.push(Loc::Index(idx as int)), int_json(newcell as i64));
            }
        }
    }
    match GetIdx_Inner(object, idx) {
        Located::Found(p) => {
            let cell = match target(object, &p) {
                JsonValue::Array(b) => {
                    proof { lemma_array_view(*b); }
                    if idx < b.len() {
                        match value_as_i64(&b[idx]) {
                            Some(n) => n as i32,
                            None => { return Ok(None); },
                        }
                    } else {
                        return Ok(None);
                    }
                },
                _ => { return Ok(None); },
            };
            let ghost pv = path_view(p@);
            let mut p2 = p;
            p2.push(PathStep::Index(idx));
            proof {
                assert(path_view(p2@) =~= pv.push(Loc::Index(idx as int)));
                lemma_at_push_index(object@, pv, idx as int);
            }
            let _ = put(object, &p2, int_value(newcell as i64));
            Ok(if cell == 0 { None } else { Some(cell) })
        },
        Located::Missing => Ok(None),
        Located::Panics => Err(IndexPanic),
    }
}

/// One more index step after a path that leads to an array.
proof fn lemma_at_push_index(v: Json, p: Seq<Loc>, i: int)
    requires
        json_at(v, p) matches Some(Json::Array(b)) && 0 <= i < b.len(),
    ensures
        json_at(v, p.push(Loc::Index(i))) == Some(json_at(v, p)->0->Array_0[i]),
    decreases p.len(),
{
    if p.len() == 0 {
        reveal_with_fuel(json_at, 2);
        assert(p.push(Loc::Index(i)).drop_first() =~= Seq::<Loc>::empty());
    } else {
        assert(p.push(Loc::Index(i))[0] == p[0]);
        assert(p.push(Loc::Index(i)).drop_first() =~= p.drop_first().push(Loc::Index(i)));
        match (p[0], v) {
            (Loc::Index(j), Json::Array(a)) => {
                lemma_at_push_index(a[j], p.drop_first(), i);
            },
            (Loc::Key(k), Json::Object(m)) => {
                let j = obj_find(m, k)->0;
                lemma_at_push_index(m[j].1, p.drop_first(), i);
            },
            _ => {},
        }
    }
}

/// `SetZss`: copies the value `key2` leads to in `other` (found without
/// creating it) to where `key` leads in `object` (created; `key` is read up
/// to its NUL).
pub fn rust_SRCWRJSON_SetZss(object: &mut JsonValue, flags: JsonFlags, key: Option<&[u8]>, other: &mut JsonValue, key2: Option<&[u8]>, key2len: i32) -> (r: Result<Option<i32>, IndexPanic>)
    requires
        key_ok(key2, key2len),
    ensures
        json_sorted(old(object)@) && json_sorted(old(other)@) ==> json_sorted(final(object)@),
        json_sorted(old(other)@) ==> json_sorted(final(other)@),
        ({
            let l2 = look(old(other)@, key2, key2len, flags, false);
            &&& final(other)@ == l2.0
            &&& match l2.1 {
                Reach::Found(p2) => {
                    let l = look(old(object)@, key, 0, flags, true);
                    match l.1 {
                        Reach::Found(p) => r == Ok::<Option<i32>, IndexPanic>(Some(1i32))
                            && final(object)@ == json_put(l.0, p, json_at(l2.0, p2)->0),
                        Reach::Missing => r == Ok::<Option<i32>, IndexPanic>(None) && final(object)@ == l.0,
                        Reach::Panics => r is Err && final(object)@ == l.0,
                    }
                },
                Reach::Missing => r == Ok::<Option<i32>, IndexPanic>(None) && final(object)@ == old(object)@,
                Reach::Panics => r is Err && final(object)@ == old(object)@,
            }
        }),
{
    proof {
        if json_sorted(other@) {
            law_lookup_keeps_sorted(other@, key_view(key2), key2len, flags, false);
        }
    }
    let copy = match read_target(other, flags, key2, key2len) {
        Ok(Some(v)) => v,
        Ok(None) => { return Ok(None); },
        Err(e) => { return Err(e); },
    };
    proof {
        if json_sorted(old(object)@) && json_sorted(old(other)@) {
            let l2 = look(old(other)@, key2, key2len, flags, false);
            lemma_at_sorted(l2.0, l2.1->Found_0);
            law_set_keeps_sorted(old(object)@, key_view(key), 0, flags, true, copy@);
        }
    }
    match sidx(object, key, 0, flags, true) {
        Located::Found(p) => {
            let _ = put(object, &p, copy);
            Ok(Some(1))
        },
        Located::Missing => Ok(None),
        Located::Panics => Err(IndexPanic),
    }
}

/// `Remove`: removes what the key names; success when something was removed.
pub fn rust_SRCWRJSON_Remove(object: &mut JsonValue, flags: JsonFlags, key: &[u8], keylen: i32) -> (r: Option<u32>)
    requires
        keylen >= 1 ==> keylen <= key@.len(),
    ensures
        json_sorted(old(object)@) ==> json_sorted(final(object)@),
        final(object)@ == sidxremove_spec(old(object)@, key@, keylen, flags).0,
        r == if sidxremove_spec(old(object)@, key@, keylen, flags).1 { Some(1u32) } else { None },
        json_sorted(old(object)@) && !flags.create_parents
            && (sidx_spec(old(object)@, Some(key@), keylen, flags, false).1 matches Reach::Found(p) && p.len() > 0 && p.last() is Key)
            ==> r == Some(1u32) && sidx_spec(final(object)@, Some(key@), keylen, flags, false).1 is Missing,
{
    proof {
        if json_sorted(object@) {
            law_remove_keeps_sorted(object@, key@, keylen, flags);
            if !flags.create_parents {
                if let Reach::Found(p) = sidx_spec(object@, Some(key@), keylen, flags, false).1 {
                    if p.len() > 0 && p.last() is Key {
                        crate::json::laws::law_remove_member_gone(object@, key@, keylen, flags);
                    }
                }
            }
        }
    }
    if sidxremove(object, key, keylen, flags) {
        Some(1)
    } else {
        None
    }
}

/// The keys of an object's members, in order.
pub open spec fn member_keys(m: Seq<(Seq<u8>, Json)>) -> Seq<Seq<u8>> {
    Seq::new(m.len(), |i: int| m[i].0)
}

/// `FillKeys`: the keys of the object the key leads to, in order, for the
/// plugin's cell array.
pub fn rust_SRCWRJSON_FillKeys(object: &mut JsonValue, flags: JsonFlags, key: Option<&[u8]>, keylen: i32) -> (r: Result<Option<Vec<Vec<u8>>>, IndexPanic>)
    requires
        key_ok(key, keylen),
    ensures
        json_sorted(old(object)@) ==> json_sorted(final(object)@),
        final(object)@ == look(old(object)@, key, keylen, flags, false).0,
        r is Err <==> look(old(object)@, key, keylen, flags, false).1 is Panics,
        r is Ok ==> match found(look(old(object)@, key, keylen, flags, false)) {
            Some(Json::Object(m)) => r matches Ok(Some(ks)) && views(ks@) == member_keys(m),
            _ => r matches Ok(None),
        },
{
    proof {
        if json_sorted(object@) {
            law_lookup_keeps_sorted(object@, key_view(key), keylen, flags, false);
        }
    }
    match sidx(object, key, keylen, flags, false) {
        Located::Found(p) => {
            match target(object, &p) {
                JsonValue::Object(m) => {
                    proof { lemma_object_view(*m); }
                    let ghost mv = entries_view(m@);
                    let mut ks: Vec<Vec<u8>> = Vec::new();
                    let mut i: usize = 0;
                    while i < m.len()
                        invariant
                            i <= m.len(),
                            mv == entries_view(m@),
                            views(ks@) == member_keys(mv).take(i as int),
                        decreases m.len() - i,
                    {
                        let k = bytes_copy(m[i].key.as_slice());
                        let ghost before = views(ks@);
                        ks.push(k);
                        i += 1;
                        proof {
                            let t = member_keys(mv).take(i as int);
                            assert(mv.len() == m@.len());
                            assert(member_keys(mv).len() == mv.len());
                            assert(before.len() == i - 1);
                            assert(t.len() == i);
                            assert(views(ks@).len() == t.len());
                            assert forall|x: int| 0 <= x < t.len() implies #[trigger] views(ks@)[x] == t[x] by {
                                if x < i - 1 {
                                    assert(views(ks@)[x] == before[x]);
                                    assert(before[x] == member_keys(mv).take(i - 1)[x]);
                                } else {
                                    assert(views(ks@)[x] == k@);
                                    assert(mv[x].0 == m@[x].key@);
                                }
                            }
                            assert(views(ks@) =~= t);
                        }
                    }
                    assert(member_keys(mv).take(m.len() as int) =~= member_keys(mv));
                    Ok(Some(ks))
                },
                _ => Ok(None),
            }
        },
        Located::Missing => Ok(None),
        Located::Panics => Err(IndexPanic),
    }
}

/// `SetCell`: `Setx_Inner` with an integer.
pub fn rust_SRCWRJSON_SetCell(object: &mut JsonValue, value: i32, flags: JsonFlags, key: Option<&[u8]>, keylen: i32) -> (r: Result<Option<u32>, IndexPanic>)
    requires
        key_ok(key, keylen),
    ensures
        json_sorted(old(object)@) ==> json_sorted(final(object)@),
        ({
            let l = look(old(object)@, key, keylen, flags, true);
            match l.1 {
                Reach::Found(p) => r == Ok::<Option<u32>, IndexPanic>(setx_result(flags, json_at(l.0, p)->0, int_json(value as i64)))
                    && final(object)@ == json_put(l.0, p, int_json(value as i64)),
                Reach::Missing => r == Ok::<Option<u32>, IndexPanic>(None) && final(object)@ == l.0,
                Reach::Panics => r is Err && final(object)@ == l.0,
            }
        }),
{
    let mut v = int_value(value as i64);
    Setx_Inner(object, &mut v, flags, key, keylen)
}

/// `SetI64`: `Setx_Inner` with a 64-bit integer.
pub fn rust_SRCWRJSON_SetI64(object: &mut JsonValue, value: i64, flags: JsonFlags, key: Option<&[u8]>, keylen: i32) -> (r: Result<Option<u32>, IndexPanic>)
    requires
        key_ok(key, keylen),
    ensures
        json_sorted(old(object)@) ==> json_sorted(final(object)@),
        ({
            let l = look(old(object)@, key, keylen, flags, true);
            match l.1 {
                Reach::Found(p) => r == Ok::<Option<u32>, IndexPanic>(setx_result(flags, json_at(l.0, p)->0, int_json(value)))
                    && final(object)@ == json_put(l.0, p, int_json(value)),
                Reach::Missing => r == Ok::<Option<u32>, IndexPanic>(None) && final(object)@ == l.0,
                Reach::Panics => r is Err && final(object)@ == l.0,
            }
        }),
{
    let mut v = int_value(value);
    Setx_Inner(object, &mut v, flags, key, keylen)
}

/// `SetBool`: `Setx_Inner` with a boolean.
pub fn rust_SRCWRJSON_SetBool(object: &mut JsonValue, value: bool, flags: JsonFlags, key: Option<&[u8]>, keylen: i32) -> (r: Result<Option<u32>, IndexPanic>)
    requires
        key_ok(key, keylen),
    ensures
        json_sorted(old(object)@) ==> json_sorted(final(object)@),
        ({
            let l = look(old(object)@, key, keylen, flags, true);
            match l.1 {
                Reach::Found(p) => r == Ok::<Option<u32>, IndexPanic>(setx_result(flags, json_at(l.0, p)->0, Json::Bool(value)))
                    && final(object)@ == json_put(l.0, p, Json::Bool(value)),
                Reach::Missing => r == Ok::<Option<u32>, IndexPanic>(None) && final(object)@ == l.0,
                Reach::Panics => r is Err && final(object)@ == l.0,
            }
        }),
{
    let mut v = JsonValue::Bool(value);
    Setx_Inner(object, &mut v, flags, key, keylen)
}

/// `SetNull`: `Setx_Inner` with null.
pub fn rust_SRCWRJSON_SetNull(object: &mut JsonValue, flags: JsonFlags, key: Option<&[u8]>, keylen: i32) -> (r: Result<Option<u32>, IndexPanic>)
    requires
        key_ok(key, keylen),
    ensures
        json_sorted(old(object)@) ==> json_sorted(final(object)@),
        ({
            let l = look(old(object)@, key, keylen, flags, true);
            match l.1 {
                Reach::Found(p) => r == Ok::<Option<u32>, IndexPanic>(setx_result(flags, json_at(l.0, p)->0, Json::Null))
                    && final(object)@ == json_put(l.0, p, Json::Null),
                Reach::Missing => r == Ok::<Option<u32>, IndexPanic>(None) && final(object)@ == l.0,
                Reach::Panics => r is Err && final(object)@ == l.0,
            }
        }),
{
    let mut v = JsonValue::Null;
    Setx_Inner(object, &mut v, flags, key, keylen)
}

/// `SetString`: `Setx_Inner` with the string `s` (read as `strxx` reads it,
/// with `J_UNCHECKED_UTF8_VAL`); nothing happens when `s` is empty or,
/// unless allowed, not UTF-8.
pub fn rust_SRCWRJSON_SetString(object: &mut JsonValue, s: &[u8], end: i32, flags: JsonFlags, key: Option<&[u8]>, keylen: i32) -> (r: Result<Option<u32>, IndexPanic>)
    requires
        key_ok(key, keylen),
        end >= 1 ==> end <= s@.len(),
    ensures
        json_sorted(old(object)@) ==> json_sorted(final(object)@),
        match spec_strxx(s@, flags.unchecked_utf8_val, end) {
            None => r == Ok::<Option<u32>, IndexPanic>(None) && final(object)@ == old(object)@,
            Some(text) => {
                let l = look(old(object)@, key, keylen, flags, true);
                match l.1 {
                    Reach::Found(p) => r == Ok::<Option<u32>, IndexPanic>(setx_result(flags, json_at(l.0, p)->0, Json::Str(text)))
                        && final(object)@ == json_put(l.0, p, Json::Str(text)),
                    Reach::Missing => r == Ok::<Option<u32>, IndexPanic>(None) && final(object)@ == l.0,
                    Reach::Panics => r is Err && final(object)@ == l.0,
                }
            },
        },
{
    let text = match strxx(s, flags.unchecked_utf8_val, end) {
        Some(t) => t,
        None => { return Ok(None); },
    };
    let mut v = JsonValue::String(text);
    Setx_Inner(object, &mut v, flags, key, keylen)
}

/// `SetFromString`: `Setx_Inner` with the value parsed from the plugin's
/// text (`parsed`, `None` when the text was empty or no JSON).
pub fn rust_SRCWRJSON_SetFromString(object: &mut JsonValue, parsed: Option<JsonValue>, flags: JsonFlags, key: Option<&[u8]>, keylen: i32) -> (r: Result<Option<u32>, IndexPanic>)
    requires
        key_ok(key, keylen),
    ensures
        json_sorted(old(object)@) && (parsed matches Some(x) ==> json_sorted(x@)) ==> json_sorted(final(object)@),
        match parsed {
            None => r == Ok::<Option<u32>, IndexPanic>(None) && final(object)@ == old(object)@,
            Some(x) => {
                let l = look(old(object)@, key, keylen, flags, true);
                match l.1 {
                    Reach::Found(p) => r == Ok::<Option<u32>, IndexPanic>(setx_result(flags, json_at(l.0, p)->0, x@))
                        && final(object)@ == json_put(l.0, p, x@),
                    Reach::Missing => r == Ok::<Option<u32>, IndexPanic>(None) && final(object)@ == l.0,
                    Reach::Panics => r is Err && final(object)@ == l.0,
                }
            },
        },
{
    match parsed {
        None => Ok(None),
        Some(x) => {
            let mut v = x;
            Setx_Inner(object, &mut v, flags, key, keylen)
        },
    }
}

/// The flags with `J_MOVE` added.
pub open spec fn with_move(flags: JsonFlags) -> JsonFlags {
    JsonFlags { move_value: true, ..flags }
}

/// What `SetIdx_Inner` does to an array with a value that it moves in.
pub open spec fn setidx_spec(v: Json, idx: usize, x: Json, flags: JsonFlags) -> (Json, Result<Option<u32>, IndexPanic>) {
    match v {
        Json::Array(a) => if idx_rejected(a.len() as int, idx) {
            (v, Ok(None))
        } else if idx_resolved(a.len() as int, idx) == usize::MAX {
            (v, Err(IndexPanic))
        } else {
            let at = idx_resolved(a.len() as int, idx);
            (Json::Array(grown(a, at).update(at, x)), Ok(setx_result(flags, grown(a, at)[at], x)))
        },
        _ => (v, Ok(None)),
    }
}

/// Sets an element to a value that the caller gives up.
fn set_idx_value(object: &mut JsonValue, idx: usize, x: JsonValue, flags: JsonFlags) -> (r: Result<Option<u32>, IndexPanic>)
    ensures
        r is Ok && json_sorted(old(object)@) && json_sorted(x@) ==> json_sorted(final(object)@),
        r == setidx_spec(old(object)@, idx, x@, flags).1,
        r is Ok ==> final(object)@ == setidx_spec(old(object)@, idx, x@, flags).0,
{
    proof {
        if let Json::Array(a) = object@ {
            if json_sorted(object@) && json_sorted(x@) && !idx_rejected(a.len() as int, idx) {
                law_index_natives_keep_sorted(a, idx_resolved(a.len() as int, idx), x@);
            }
        }
    }
    let mut v = x;
    let r = SetIdx_Inner(object, idx, &mut v, flags);
    proof {
        if let Err(e) = r {
            assert(e == IndexPanic);
        }
    }
    r
}

/// `SetCellIdx`.
pub fn rust_SRCWRJSON_SetCellIdx(object: &mut JsonValue, value: i32, flags: JsonFlags, idx: usize) -> (r: Result<Option<u32>, IndexPanic>)
    ensures
        r is Ok && json_sorted(old(object)@) ==> json_sorted(final(object)@),
        r == setidx_spec(old(object)@, idx, int_json(value as i64), flags).1,
        r is Ok ==> final(object)@ == setidx_spec(old(object)@, idx, int_json(value as i64), flags).0,
{
    set_idx_value(object, idx, int_value(value as i64), flags)
}

/// `SetI64Idx`.
pub fn rust_SRCWRJSON_SetI64Idx(object: &mut JsonValue, value: i64, flags: JsonFlags, idx: usize) -> (r: Result<Option<u32>, IndexPanic>)
    ensures
        r is Ok && json_sorted(old(object)@) ==> json_sorted(final(object)@),
        r == setidx_spec(old(object)@, idx, int_json(value), flags).1,
        r is Ok ==> final(object)@ == setidx_spec(old(object)@, idx, int_json(value), flags).0,
{
    set_idx_value(object, idx, int_value(value), flags)
}

/// `SetBoolIdx`.
pub fn rust_SRCWRJSON_SetBoolIdx(object: &mut JsonValue, value: bool, flags: JsonFlags, idx: usize) -> (r: Result<Option<u32>, IndexPanic>)
    ensures
        r is Ok && json_sorted(old(object)@) ==> json_sorted(final(object)@),
        r == setidx_spec(old(object)@, idx, Json::Bool(value), flags).1,
        r is Ok ==> final(object)@ == setidx_spec(old(object)@, idx, Json::Bool(value), flags).0,
{
    set_idx_value(object, idx, JsonValue::Bool(value), flags)
}

/// `SetNullIdx`.
pub fn rust_SRCWRJSON_SetNullIdx(object: &mut JsonValue, flags: JsonFlags, idx: usize) -> (r: Result<Option<u32>, IndexPanic>)
    ensures
        r is Ok && json_sorted(old(object)@) ==> json_sorted(final(object)@),
        r == setidx_spec(old(object)@, idx, Json::Null, flags).1,
        r is Ok ==> final(object)@ == setidx_spec(old(object)@, idx, Json::Null, flags).0,
{
    set_idx_value(object, idx, JsonValue::Null, flags)
}

/// `SetStringIdx`: the string is read as `strxx` reads it and moved in.
pub fn rust_SRCWRJSON_SetStringIdx(object: &mut JsonValue, s: &[u8], end: i32, flags: JsonFlags, idx: usize) -> (r: Result<Option<u32>, IndexPanic>)
    requires
        end >= 1 ==> end <= s@.len(),
    ensures
        r is Ok && json_sorted(old(object)@) ==> json_sorted(final(object)@),
        match spec_strxx(s@, flags.unchecked_utf8_val, end) {
            None => r == Ok::<Option<u32>, IndexPanic>(None) && final(object)@ == old(object)@,
            Some(text) => {
                &&& r == setidx_spec(old(object)@, idx, Json::Str(text), with_move(flags)).1
                &&& r is Ok ==> final(object)@ == setidx_spec(old(object)@, idx, Json::Str(text), with_move(flags)).0
            },
        },
{
    let text = match strxx(s, flags.unchecked_utf8_val, end) {
        Some(t) => t,
        None => { return Ok(None); },
    };
    let moving = JsonFlags { move_value: true, ..flags };
    set_idx_value(object, idx, JsonValue::String(text), moving)
}

/// `SetFromStringIdx`: the parsed value (`None` when the text was empty or
/// no JSON) is moved in.
pub fn rust_SRCWRJSON_SetFromStringIdx(object: &mut JsonValue, parsed: Option<JsonValue>, flags: JsonFlags, idx: usize) -> (r: Result<Option<u32>, IndexPanic>)
    ensures
        r is Ok && json_sorted(old(object)@) && (parsed matches Some(x) ==> json_sorted(x@)) ==> json_sorted(final(object)@),
        match parsed {
            None => r == Ok::<Option<u32>, IndexPanic>(None) && final(object)@ == old(object)@,
            Some(x) => {
                &&& r == setidx_spec(old(object)@, idx, x@, with_move(flags)).1
                &&& r is Ok ==> final(object)@ == setidx_spec(old(object)@, idx, x@, with_move(flags)).0
            },
        },
{
    match parsed {
        None => Ok(None),
        Some(x) => {
            let moving = JsonFlags { move_value: true, ..flags };
            set_idx_value(object, idx, x, moving)
        },
    }
}

/// `SRCWRJSON`: a new empty array or object.
pub fn rust_SRCWRJSON_SRCWRJSON(array: bool) -> (r: JsonValue)
    ensures
        r@ == if array { Json::Array(Seq::empty()) } else { Json::Object(Seq::empty()) },
{
    if array {
        let e: Vec<JsonValue> = Vec::new();
        proof { lemma_array_view(e); assert(elems_view(e@) =~= Seq::empty()); }
        JsonValue::Array(e)
    } else {
        let e: Vec<JsonEntry> = Vec::new();
        proof { lemma_object_view(e); assert(entries_view(e@) =~= Seq::empty()); }
        JsonValue::Object(e)
    }
}

/// `Clone`: a deep copy.
pub fn rust_SRCWRJSON_Clone(object: &JsonValue) -> (r: JsonValue)
    ensures
        r@ == object@,
{
    object.duplicate()
}

/// `GetObjects`: `count` new empty objects (none for a count below one).
pub fn rust_SRCWRJSON_GetObjects(count: isize) -> (r: Vec<JsonValue>)
    ensures
        r@.len() == if count < 0 { 0 } else { count as int },
        forall|i: int| 0 <= i < r@.len() ==> r@[i]@ == Json::Object(Seq::empty()),
{
    let mut out: Vec<JsonValue> = Vec::new();
    let mut i: isize = 0;
    while i < count
        invariant
            0 <= i,
            count >= 0 ==> i <= count,
            count < 0 ==> i == 0,
            out@.len() == i,
            forall|j: int| 0 <= j < out@.len() ==> out@[j]@ == Json::Object(Seq::empty()),
        decreases count - i,
    {
        out.push(rust_SRCWRJSON_SRCWRJSON(false));
        i += 1;
    }
    out
}

/// `ToString` and `ToFile` read the value the key leads to (a copy), which
/// is then written out as text.
pub fn json_text_source(object: &mut JsonValue, flags: JsonFlags, key: Option<&[u8]>, keylen: i32) -> (r: Result<Option<JsonValue>, IndexPanic>)
    requires
        key_ok(key, keylen),
    ensures
        json_sorted(old(object)@) ==> json_sorted(final(object)@),
        final(object)@ == look(old(object)@, key, keylen, flags, false).0,
        r is Err <==> look(old(object)@, key, keylen, flags, false).1 is Panics,
        r matches Ok(None) ==> look(old(object)@, key, keylen, flags, false).1 is Missing,
        r matches Ok(Some(x)) ==> found(look(old(object)@, key, keylen, flags, false)) == Some(x@)
            && look(old(object)@, key, keylen, flags, false).1 is Found,
{
    proof {
        if json_sorted(object@) {
            law_lookup_keeps_sorted(object@, key_view(key), keylen, flags, false);
        }
    }
    read_target(object, flags, key, keylen)
}

/// How many bytes of the buffer the text may fill: all of them with
/// `J_DONT_NULL_TERMINATE`, else all but one.
pub open spec fn text_room(len: int, flags: JsonFlags) -> int {
    if flags.dont_null_terminate { len } else { len - 1 }
}

/// `ToString` with `J_TOSTRING_NOALLOC`: the JSON text is written straight
/// into the plugin's buffer. Text that does not fit fills the room and is
/// refused; text that fits is followed by a NUL (unless
/// `J_DONT_NULL_TERMINATE`), and the bytes used, the NUL counted, are
/// handed back.
pub fn tostring_noalloc(text: &[u8], buffer: &mut Vec<u8>, flags: JsonFlags) -> (r: Option<usize>)
    ensures
        final(buffer)@.len() == old(buffer)@.len(),
        ({
            let room = text_room(old(buffer)@.len() as int, flags);
            if old(buffer)@.len() < 2 {
                &&& r is None
                &&& final(buffer)@ == old(buffer)@
            } else if text@.len() > room {
                &&& r is None
                &&& final(buffer)@ == text@.take(room) + old(buffer)@.skip(room)
            } else if flags.dont_null_terminate {
                &&& final(buffer)@ == text@ + old(buffer)@.skip(text@.len() as int)
                &&& r == if text@.len() == 0 { None } else { Some(text@.len() as usize) }
            } else {
                &&& final(buffer)@ == text@ + seq![0u8] + old(buffer)@.skip(text@.len() + 1int)
                &&& r == Some((text@.len() + 1) as usize)
            }
        }),
{
    let len = buffer.len();
    if len < 2 {
        return None;
    }
    let room = if flags.dont_null_terminate { len } else { len - 1 };
    let n = if text.len() < room { text.len() } else { room };
    let ghost old_buf = buffer@;
    let mut i: usize = 0;
    while i < n
        invariant
            i <= n,
            n <= room <= len,
            n <= text.len(),
            buffer@.len() == len,
            len == old_buf.len(),
            buffer@ == text@.take(i as int) + old_buf.skip(i as int),
        decreases n - i,
    {
        buffer.set(i, text[i]);
        i += 1;
        assert(buffer@ =~= text@.take(i as int) + old_buf.skip(i as int));
    }
    if text.len() > room {
        return None;
    }
    assert(text@.take(n as int) =~= text@);
    if flags.dont_null_terminate {
        if n == 0 { None } else { Some(n) }
    } else {
        buffer.set(n, 0);
        assert(buffer@ =~= text@ + seq![0u8] + old_buf.skip(n + 1));
        Some(n + 1)
    }
}

/// What `recursive_size_calc` counts for a value, with `unit` bytes for
/// every value and the bytes of every string.
pub open spec fn json_size(j: Json, unit: nat) -> nat
    decreases j,
{
    unit + match j {
        Json::Str(s) => s.len(),
        Json::Array(a) => elems_size(a, unit),
        Json::Object(m) => members_size(m, unit),
        _ => 0,
    }
}

/// The sizes of a sequence of values, added up.
pub open spec fn elems_size(a: Seq<Json>, unit: nat) -> nat
    decreases a,
{
    if a.len() == 0 {
        0
    } else {
        proof { assert(decreases_to!(a => a.subrange(1, a.len() as int))); }
        json_size(a[0], unit) + elems_size(a.subrange(1, a.len() as int), unit)
    }
}

/// The sizes of an object's values, added up.
pub open spec fn members_size(m: Seq<(Seq<u8>, Json)>, unit: nat) -> nat
    decreases m,
{
    if m.len() == 0 {
        0
    } else {
        proof {
            assert(decreases_to!(m => m.subrange(1, m.len() as int)));
            assert(decreases_to!(m => m[0]));
        }
        json_size(m[0].1, unit) + members_size(m.subrange(1, m.len() as int), unit)
    }
}

/// `recursive_size_calc`: `unit` bytes for the value and every value in
/// it, plus the bytes of every string.
#[verifier::loop_isolation(false)]
pub fn recursive_size_calc(value: &JsonValue, unit: usize) -> (r: usize)
    requires
        json_size(value@, unit as nat) <= usize::MAX,
    ensures
        r == json_size(value@, unit as nat),
    decreases value,
{
    match value {
        JsonValue::String(s) => unit + s.len(),
        JsonValue::Array(v) => {
            proof { lemma_array_view(*v); }
            let ghost av = elems_view(v@);
            let mut acc: usize = 0;
            let mut i: usize = 0;
            assert(av.subrange(0, av.len() as int) =~= av);
            while i < v.len()
                invariant
                    i <= v.len(),
                    av == elems_view(v@),
                    unit + elems_size(av, unit as nat) <= usize::MAX,
                    acc + elems_size(av.subrange(i as int, av.len() as int), unit as nat) == elems_size(av, unit as nat),
                decreases v.len() - i,
            {
                proof {
                    vstd::std_specs::vec::axiom_vec_index_decreases(*v, i as int);
                    assert(decreases_to!(*value => *v));
                    let rest = av.subrange(i as int, av.len() as int);
                    assert(rest[0] == v@[i as int]@);
                    assert(rest.subrange(1, rest.len() as int) =~= av.subrange(i + 1, av.len() as int));
                }
                let c = recursive_size_calc(&v[i], unit);
                acc = acc + c;
                i += 1;
            }
            unit + acc
        },
        JsonValue::Object(m) => {
            proof { lemma_object_view(*m); }
            let ghost mv = entries_view(m@);
            let mut acc: usize = 0;
            let mut i: usize = 0;
            assert(mv.subrange(0, mv.len() as int) =~= mv);
            while i < m.len()
                invariant
                    i <= m.len(),
                    mv == entries_view(m@),
                    unit + members_size(mv, unit as nat) <= usize::MAX,
                    acc + members_size(mv.subrange(i as int, mv.len() as int), unit as nat) == members_size(mv, unit as nat),
                decreases m.len() - i,
            {
                proof {
                    vstd::std_specs::vec::axiom_vec_index_decreases(*m, i as int);
                    assert(decreases_to!(*value => *m));
                    assert(decreases_to!(m[i as int] => m[i as int].value));
                    let rest = mv.subrange(i as int, mv.len() as int);
                    assert(rest[0].1 == m@[i as int].value@);
                    assert(rest.subrange(1, rest.len() as int) =~= mv.subrange(i + 1, mv.len() as int));
                }
                let c = recursive_size_calc(&m[i].value, unit);
                acc = acc + c;
                i += 1;
            }
            unit + acc
        },
        _ => unit,
    }
}

/// The size of a JSON handle: its own `unit` bytes plus what
/// `recursive_size_calc` counts, cut to 32 bits.
pub fn rust_handle_size_SRCWRJSON(object: &JsonValue, unit: usize, size: &mut u32) -> (r: bool)
    requires
        unit + json_size(object@, unit as nat) <= usize::MAX,
    ensures
        r,
        *final(size) == ((unit + json_size(object@, unit as nat)) as usize) as u32,
{
    let total = unit + recursive_size_calc(object, unit);
    *size = total as u32;
    true
}

/// How much of what `FromFile` read with `J_FILE_STOP_AT_ZERO` is JSON
/// text: a NUL that ended the read is left out.
pub fn stop_at_zero_len(buf: &[u8]) -> (r: usize)
    ensures
        r == if buf@.len() > 0 && buf@.last() == 0 { buf@.len() - 1 } else { buf@.len() as int },
{
    let n = buf.len();
    if n > 0 && buf[n - 1] == 0 { n - 1 } else { n }
}

/// What `ToFile` writes after the text: a NUL with
/// `J_FILE_NULL_TERMINATE`, else a line break.
pub fn file_terminator(null_terminate: bool) -> (r: u8)
    ensures
        r == if null_terminate { 0u8 } else { 10u8 },
{
    if null_terminate { 0 } else { 10 }
}

} // verus!
