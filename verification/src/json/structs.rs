//! `GetStruct` / `SetStruct`: moving values between a JSON value and the
//! plugin's cell buffer as a format string says, one `key,type[,count]`
//! field per `|`-separated piece. Types are `int`, `bool`, `float` (one
//! cell each) and `char` (a string of `count` bytes, in `(count + 3) / 4`
//! cells). The buffer is seen as its bytes, four little-endian bytes a cell.

#![allow(non_snake_case)]

use vstd::prelude::*;
use crate::cstr::{spec_strxx, strxx};
use crate::json::value::{
    Json, JsonValue, JsonNumber, elems_view, lemma_array_view, bytes_copy, obj_find, obj_entry, keys_sorted, key_lt,
    lower_bound, lemma_lower_bound_exists, lemma_insert_sorted, lemma_obj_find_sorted, lemma_key_lt_irrefl,
};
use crate::json::walk::{lemma_find_after_value_update, lemma_find_after_insert};
use crate::json::pointer::{parse_unsigned, parse_digits, all_digits, digits_value};
use crate::json::walk::{JsonFlags, PathStep, Loc, Reach, Located, path_view, sidx_spec, json_at, json_put, sidx, get_at, replace_at, key_ok};
use crate::json::natives::{IndexPanic, int_json, int_value, json_as_i64, value_as_i64, look, nulls};
use crate::json::sorted::{json_sorted, law_lookup_keeps_sorted, law_put_keeps_sorted, lemma_at_sorted};
use crate::json::laws::{law_write_then_read, path_fits, no_appender};

verus! {

/// Why a struct transfer stopped short: the native panics, or it would
/// read or write past the plugin's buffer
/// (which it does not check).
#[derive(Clone, Copy, Debug, PartialEq, Eq, Structural)]
pub enum StructFault {
    Panics,
    Overrun,
}

/// The state of a transfer: the value, the buffer's bytes, the cell the
/// cursor is at, and the float cells the getter leaves to be filled in
/// (cell, number).
pub type StructState = (Json, Seq<u8>, int, Seq<(int, JsonNumber)>);

/// How a piece of the format ends.
pub enum PieceEnd {
    Next,
    Stop,
    Fault(StructFault),
}

/// The flags `Struct_inner` looks keys up with: none set.
pub open spec fn no_flags() -> JsonFlags {
    JsonFlags {
        unchecked_utf8_key: false,
        unchecked_utf8_val: false,
        no_pointer: false,
        create_parents: false,
        is_different: false,
        move_value: false,
        swap_remove: false,
        pretty: false,
        dont_null_terminate: false,
        tostring_noalloc: false,
    }
}

/// The first position in `[from, to)` holding `b`, or `to`.
pub open spec fn find_byte(s: Seq<u8>, from: int, to: int, b: u8) -> int
    decreases to - from,
{
    if from >= to {
        to
    } else if s[from] == b {
        from
    } else {
        find_byte(s, from + 1, to, b)
    }
}

/// `find_byte` stays within `[from, to]`.
pub proof fn lemma_find_byte_range(s: Seq<u8>, from: int, to: int, b: u8)
    requires
        from <= to,
    ensures
        from <= find_byte(s, from, to, b) <= to,
    decreases to - from,
{
    if from < to && s[from] != b {
        lemma_find_byte_range(s, from + 1, to, b);
    }
}

/// `usize::from_str`: an optional `+`, then at least one digit, no larger
/// than `usize::MAX`.
pub open spec fn parse_usize_text(s: Seq<u8>) -> Option<nat> {
    if s.len() > 0 && s[0] == 43 {
        parse_unsigned(s.drop_first())
    } else {
        parse_unsigned(s)
    }
}

/// The text `"char"`, `"int"`, `"bool"`, `"float"`.
pub open spec fn char_ty() -> Seq<u8> { seq![99u8, 104u8, 97u8, 114u8] }
pub open spec fn int_ty() -> Seq<u8> { seq![105u8, 110u8, 116u8] }
pub open spec fn bool_ty() -> Seq<u8> { seq![98u8, 111u8, 111u8, 108u8] }
pub open spec fn float_ty() -> Seq<u8> { seq![102u8, 108u8, 111u8, 97u8, 116u8] }

/// The cell at byte `at` (four little-endian bytes).
pub open spec fn le_u32(b: Seq<u8>, at: int) -> u32 {
    (b[at] + 256 * b[at + 1] + 65536 * b[at + 2] + 16777216 * b[at + 3]) as u32
}

/// The bytes with the cell at byte `at` set to `v`.
pub open spec fn put_le_u32(b: Seq<u8>, at: int, v: u32) -> Seq<u8> {
    b.update(at, (v % 256) as u8).update(at + 1, ((v / 256) % 256) as u8).update(at + 2, ((v / 65536) % 256) as u8)
        .update(at + 3, (v / 16777216) as u8)
}

/// Whether cell `cell` lies inside the buffer.
pub open spec fn cell_in(b: Seq<u8>, cell: int) -> bool {
    0 <= cell && 4 * cell + 4 <= b.len()
}

/// How many cells a `char` field of `n` bytes takes (`(n + 3) / 4`, the
/// addition wrapping as machine arithmetic does).
pub open spec fn char_cells(n: nat) -> int {
    if n + 3 > usize::MAX {
        (n + 3 - usize::MAX - 1) / 4
    } else {
        ((n + 3) / 4) as int
    }
}

/// The cursor moved `k` cells on. A cursor past the buffer's end faults on
/// any use, so it is kept at one cell past the end.
pub open spec fn adv(b: Seq<u8>, cell: int, k: int) -> int {
    if cell + k > b.len() / 4 + 1 {
        (b.len() / 4 + 1) as int
    } else {
        cell + k
    }
}

/// The value the setter makes of cell `cell`: an integer, a boolean, or the
/// value of the float (as given in `floats`, one per cell).
pub open spec fn cell_json(ty: Seq<u8>, b: Seq<u8>, cell: int, floats: Seq<Json>) -> Json {
    if ty == int_ty() {
        int_json((le_u32(b, cell * 4) as i32) as i64)
    } else if ty == bool_ty() {
        Json::Bool(le_u32(b, cell * 4) != 0)
    } else {
        floats[cell]
    }
}

/// Whether the type is one the setter reads a cell for.
pub open spec fn reads_cell(ty: Seq<u8>) -> bool {
    ty == int_ty() || ty == bool_ty() || ty == float_ty()
}

/// The setter filling elements `i..n` of an array of nulls from the cells
/// at the cursor; `false` when a cell lies past the buffer.
pub open spec fn set_elems(a: Seq<Json>, i: int, n: int, ty: Seq<u8>, b: Seq<u8>, cell: int, floats: Seq<Json>) -> (Seq<Json>, int, bool)
    decreases n - i,
{
    if i >= n {
        (a, cell, true)
    } else if !reads_cell(ty) {
        set_elems(a, i + 1, n, ty, b, adv(b, cell, 1), floats)
    } else if !cell_in(b, cell) {
        (a, cell, false)
    } else {
        set_elems(a.update(i, cell_json(ty, b, cell, floats)), i + 1, n, ty, b, adv(b, cell, 1), floats)
    }
}

/// What the getter writes for a value: `Some(Ok(cell))`, `Some(Err(number))`
/// for a float left to be filled in, `None` when it stops.
pub open spec fn value_cell(ty: Seq<u8>, v: Json) -> Option<Result<u32, JsonNumber>> {
    if ty == bool_ty() {
        match v {
            Json::Bool(x) => Some(Ok(if x { 1u32 } else { 0u32 })),
            _ => None,
        }
    } else if ty == int_ty() {
        match json_as_i64(v) {
            Some(n) => Some(Ok(((n as i32) as u32))),
            None => None,
        }
    } else if ty == float_ty() {
        match v {
            Json::Number(n) => Some(Err(n)),
            _ => None,
        }
    } else {
        None
    }
}

/// The getter writing one value at the cursor.
pub open spec fn get_one(st: StructState, ty: Seq<u8>, v: Json) -> (StructState, PieceEnd) {
    let (obj, b, cell, pt) = st;
    match value_cell(ty, v) {
        None => (st, PieceEnd::Stop),
        Some(c) => if !cell_in(b, cell) {
            (st, PieceEnd::Fault(StructFault::Overrun))
        } else {
            match c {
                Ok(x) => ((obj, put_le_u32(b, cell * 4, x), adv(b, cell, 1), pt), PieceEnd::Next),
                Err(n) => ((obj, b, adv(b, cell, 1), pt.push((cell, n))), PieceEnd::Next),
            }
        },
    }
}

/// The getter writing elements `i..n` of an array.
pub open spec fn get_elems(st: StructState, ty: Seq<u8>, a: Seq<Json>, i: int, n: int) -> (StructState, PieceEnd)
    decreases n - i,
{
    if i >= n {
        (st, PieceEnd::Next)
    } else if i >= a.len() {
        (st, PieceEnd::Stop)
    } else {
        let (st2, e) = get_one(st, ty, a[i]);
        match e {
            PieceEnd::Next => get_elems(st2, ty, a, i + 1, n),
            _ => (st2, e),
        }
    }
}

/// The bytes `write_to_sp_buf` leaves when it writes `s` into `n` bytes at
/// byte `at`: as much of `s` as fits before a NUL.
pub open spec fn put_text(b: Seq<u8>, at: int, s: Seq<u8>, n: int) -> Seq<u8> {
    let sz = if n - 1 < s.len() { n - 1 } else { s.len() as int };
    b.take(at) + s.take(sz) + seq![0u8] + b.skip(at + sz + 1)
}

/// The room `write_to_sp_buf` needs: the bytes it writes and the NUL.
pub open spec fn text_fits(b: Seq<u8>, at: int, s: Seq<u8>, n: int) -> bool {
    let sz = if n - 1 < s.len() { n - 1 } else { s.len() as int };
    0 <= at && at + sz + 1 <= b.len()
}

/// A field `key,ty[,count]` of the format: key bytes `[ks, ke)`, type
/// `[ke + 1, te)`, and when `te` is a comma, the count `[te + 1, ce)`.
pub open spec fn field_key_end(f: Seq<u8>, start: int, e: int) -> int { find_byte(f, start, e, 44) }
pub open spec fn field_ty_end(f: Seq<u8>, start: int, e: int) -> int { find_byte(f, field_key_end(f, start, e) + 1, e, 44) }
pub open spec fn field_count_end(f: Seq<u8>, start: int, e: int) -> int { find_byte(f, field_ty_end(f, start, e) + 1, e, 44) }

/// One piece `[start, e)` of the format, applied to the state.
#[verifier::opaque]
pub open spec fn struct_piece(f: Seq<u8>, start: int, e: int, st: StructState, setter: bool, floats: Seq<Json>) -> (StructState, PieceEnd) {
    let (obj, b, cell, pt) = st;
    let ke = field_key_end(f, start, e);
    if ke >= e {
        (st, PieceEnd::Stop)
    } else {
        let te = field_ty_end(f, start, e);
        let ty = f.subrange(ke + 1, te);
        let count = if te < e { Some(f.subrange(te + 1, field_count_end(f, start, e))) } else { None };
        let (obj1, reach) = sidx_spec(obj, Some(f.skip(start)), (ke - start) as i32, no_flags(), setter);
        match reach {
            Reach::Missing => ((obj1, b, cell, pt), PieceEnd::Stop),
            Reach::Panics => ((obj1, b, cell, pt), PieceEnd::Fault(StructFault::Panics)),
            Reach::Found(p) => {
                let v = json_at(obj1, p)->0;
                if setter {
                    if ty == char_ty() {
                        match count {
                            None => ((obj1, b, cell, pt), PieceEnd::Stop),
                            Some(c) => match parse_usize_text(c) {
                                None => ((obj1, b, cell, pt), PieceEnd::Stop),
                                Some(n) => if !(0 <= cell && 4 * cell < b.len()) {
                                    ((obj1, b, cell, pt), PieceEnd::Fault(StructFault::Overrun))
                                } else {
                                    match spec_strxx(b.skip(cell * 4), false, 0) {
                                        None => ((obj1, b, cell, pt), PieceEnd::Stop),
                                        Some(s) => ((json_put(obj1, p, Json::Str(s)), b, adv(b, cell, char_cells(n)), pt), PieceEnd::Next),
                                    }
                                },
                            },
                        }
                    } else {
                        match count {
                            Some(c) => match parse_usize_text(c) {
                                None => ((obj1, b, cell, pt), PieceEnd::Stop),
                                Some(n) => {
                                    let (a, cell2, ok) = set_elems(nulls(n as int), 0, n as int, ty, b, cell, floats);
                                    ((json_put(obj1, p, Json::Array(a)), b, cell2, pt),
                                        if ok { PieceEnd::Next } else { PieceEnd::Fault(StructFault::Overrun) })
                                },
                            },
                            None => if !reads_cell(ty) {
                                ((obj1, b, adv(b, cell, 1), pt), PieceEnd::Next)
                            } else if !cell_in(b, cell) {
                                ((obj1, b, cell, pt), PieceEnd::Fault(StructFault::Overrun))
                            } else {
                                ((json_put(obj1, p, cell_json(ty, b, cell, floats)), b, adv(b, cell, 1), pt), PieceEnd::Next)
                            },
                        }
                    }
                } else if ty == char_ty() {
                    let c = match count { Some(c) => c, None => seq![49u8] };
                    match parse_usize_text(c) {
                        None => ((obj1, b, cell, pt), PieceEnd::Stop),
                        Some(n) => match v {
                            Json::Str(s) => if n == 0 {
                                ((obj1, b, cell, pt), PieceEnd::Fault(StructFault::Panics))
                            } else if !text_fits(b, cell * 4, s, n as int) {
                                ((obj1, b, cell, pt), PieceEnd::Fault(StructFault::Overrun))
                            } else {
                                ((obj1, put_text(b, cell * 4, s, n as int), adv(b, cell, char_cells(n)), pt), PieceEnd::Next)
                            },
                            _ => ((obj1, b, cell, pt), PieceEnd::Stop),
                        },
                    }
                } else {
                    match count {
                        Some(c) => match parse_usize_text(c) {
                            None => ((obj1, b, cell, pt), PieceEnd::Stop),
                            Some(n) => match v {
                                Json::Array(a) => get_elems((obj1, b, cell, pt), ty, a, 0, n as int),
                                _ => ((obj1, b, cell, pt), PieceEnd::Stop),
                            },
                        },
                        None => get_one((obj1, b, cell, pt), ty, v),
                    }
                }
            },
        }
    }
}

/// The pieces of the format from `start` on.
pub open spec fn struct_run(f: Seq<u8>, start: int, st: StructState, setter: bool, floats: Seq<Json>) -> (StructState, Result<(), StructFault>)
    decreases f.len() - start,
{
    if start > f.len() || start < 0 {
        (st, Ok(()))
    } else {
        let e = find_byte(f, start, f.len() as int, 124);
        proof { lemma_find_byte_range(f, start, f.len() as int, 124); }
        let (st2, end) = struct_piece(f, start, e, st, setter, floats);
        match end {
            PieceEnd::Next => if e < f.len() {
                struct_run(f, e + 1, st2, setter, floats)
            } else {
                (st2, Ok(()))
            },
            PieceEnd::Stop => (st2, Ok(())),
            PieceEnd::Fault(x) => (st2, Err(x)),
        }
    }
}

/// `Struct_inner` on a format (read as `strxx` reads it: up to its NUL,
/// UTF-8 unless `J_UNCHECKED_UTF8_VAL`).
pub open spec fn struct_spec(obj: Json, b: Seq<u8>, format: Seq<u8>, flags: JsonFlags, setter: bool, floats: Seq<Json>) -> (StructState, Result<(), StructFault>) {
    match spec_strxx(format, flags.unchecked_utf8_val, 0) {
        None => ((obj, b, 0, Seq::empty()), Ok(())),
        Some(f) => struct_run(f, 0, (obj, b, 0, Seq::empty()), setter, floats),
    }
}

/// The float cells left to be filled in, as the state holds them.
pub open spec fn patches_view(p: Seq<(usize, JsonNumber)>) -> Seq<(int, JsonNumber)> {
    Seq::new(p.len(), |i: int| (p[i].0 as int, p[i].1))
}

fn find_byte_exec(s: &[u8], from: usize, to: usize, b: u8) -> (r: usize)
    requires
        from <= to <= s@.len(),
    ensures
        r as int == find_byte(s@, from as int, to as int, b),
        from <= r <= to,
{
    let mut i = from;
    while i < to && s[i] != b
        invariant
            from <= i <= to <= s@.len(),
            find_byte(s@, from as int, to as int, b) == find_byte(s@, i as int, to as int, b),
        decreases to - i,
    {
        i += 1;
    }
    i
}

/// `usize::from_str` computed.
pub fn parse_usize(s: &[u8]) -> (r: Option<usize>)
    ensures
        r matches Some(v) ==> parse_usize_text(s@) == Some(v as nat),
        r is None ==> parse_usize_text(s@) is None,
{
    let from: usize = if s.len() > 0 && s[0] == 43 { 1 } else { 0 };
    proof {
        if from == 1 {
            assert(s@.skip(1) =~= s@.drop_first());
        } else {
            assert(s@.skip(0) =~= s@);
        }
    }
    match parse_digits(s, from, usize::MAX as u64) {
        Some(v) => Some(v as usize),
        None => None,
    }
}

fn adv_exec(b: &Vec<u8>, cell: usize, k: usize) -> (r: usize)
    requires
        cell <= b@.len() / 4 + 1,
    ensures
        r as int == adv(b@, cell as int, k as int),
        r <= b@.len() / 4 + 1,
{
    let lim = b.len() / 4 + 1;
    if k > lim - cell {
        lim
    } else {
        cell + k
    }
}

fn char_cells_exec(n: usize) -> (r: usize)
    ensures
        r as int == char_cells(n as nat),
{
    if n > usize::MAX - 3 {
        (n - (usize::MAX - 2)) / 4
    } else {
        (n + 3) / 4
    }
}

fn le_u32_exec(b: &Vec<u8>, at: usize) -> (r: u32)
    requires
        at + 4 <= b@.len(),
    ensures
        r == le_u32(b@, at as int),
{
    assert(b@.len() == b.len());
    let b0 = b[at] as u32;
    let b1 = b[at + 1] as u32;
    let b2 = b[at + 2] as u32;
    let b3 = b[at + 3] as u32;
    assert(b0 <= 255 && b1 <= 255 && b2 <= 255 && b3 <= 255);
    b0 + 256 * b1 + 65536 * b2 + 16777216 * b3
}

fn put_le_u32_exec(b: &mut Vec<u8>, at: usize, v: u32)
    requires
        at + 4 <= old(b)@.len(),
    ensures
        final(b)@ == put_le_u32(old(b)@, at as int, v),
{
    assert(b@.len() == b.len());
    let a1 = at + 1;
    let a2 = at + 2;
    let a3 = at + 3;
    b.set(at, (v % 256) as u8);
    b.set(a1, ((v / 256) % 256) as u8);
    b.set(a2, ((v / 65536) % 256) as u8);
    b.set(a3, (v / 16777216) as u8);
}

fn no_flags_exec() -> (r: JsonFlags)
    ensures
        r == no_flags(),
{
    JsonFlags {
        unchecked_utf8_key: false,
        unchecked_utf8_val: false,
        no_pointer: false,
        create_parents: false,
        is_different: false,
        move_value: false,
        swap_remove: false,
        pretty: false,
        dont_null_terminate: false,
        tostring_noalloc: false,
    }
}

fn is_char_ty(ty: &[u8]) -> (r: bool) ensures r == (ty@ == char_ty()) {
    let t: [u8; 4] = [99u8, 104u8, 97u8, 114u8];
    assert(t@ =~= char_ty());
    crate::json::value::bytes_equal(ty, t.as_slice())
}

fn is_int_ty(ty: &[u8]) -> (r: bool) ensures r == (ty@ == int_ty()) {
    let t: [u8; 3] = [105u8, 110u8, 116u8];
    assert(t@ =~= int_ty());
    crate::json::value::bytes_equal(ty, t.as_slice())
}

fn is_bool_ty(ty: &[u8]) -> (r: bool) ensures r == (ty@ == bool_ty()) {
    let t: [u8; 4] = [98u8, 111u8, 111u8, 108u8];
    assert(t@ =~= bool_ty());
    crate::json::value::bytes_equal(ty, t.as_slice())
}

fn is_float_ty(ty: &[u8]) -> (r: bool) ensures r == (ty@ == float_ty()) {
    let t: [u8; 5] = [102u8, 108u8, 111u8, 97u8, 116u8];
    assert(t@ =~= float_ty());
    crate::json::value::bytes_equal(ty, t.as_slice())
}

/// Whether cell `cell` lies inside the buffer, computed.
fn cell_in_exec(b: &Vec<u8>, cell: usize) -> (r: bool)
    ensures
        r == cell_in(b@, cell as int),
{
    cell < b.len() / 4
}

/// The value the setter makes of a cell.
fn cell_json_exec(ty: &[u8], b: &Vec<u8>, cell: usize, floats: &Vec<JsonValue>) -> (r: JsonValue)
    requires
        reads_cell(ty@),
        cell_in(b@, cell as int),
        floats@.len() == b@.len() / 4,
    ensures
        r@ == cell_json(ty@, b@, cell as int, elems_view(floats@)),
{
    assert(b@.len() == b.len());
    if is_int_ty(ty) {
        let c = le_u32_exec(b, cell * 4);
        int_value((c as i32) as i64)
    } else if is_bool_ty(ty) {
        let c = le_u32_exec(b, cell * 4);
        JsonValue::Bool(c != 0)
    } else {
        floats[cell].duplicate()
    }
}

/// The setter filling an array of nulls from the cells at the cursor.
fn fill_elems(a: &mut Vec<JsonValue>, n: usize, ty: &[u8], b: &Vec<u8>, cell: &mut usize, floats: &Vec<JsonValue>) -> (r: bool)
    requires
        old(a)@.len() == n,
        *old(cell) <= b@.len() / 4 + 1,
        floats@.len() == b@.len() / 4,
    ensures
        (elems_view(final(a)@), *final(cell) as int, r) == set_elems(elems_view(old(a)@), 0, n as int, ty@, b@, *old(cell) as int, elems_view(floats@)),
        *final(cell) <= b@.len() / 4 + 1,
{
    let ghost a0 = elems_view(a@);
    let ghost c0 = *cell as int;
    let reads = is_int_ty(ty) || is_bool_ty(ty) || is_float_ty(ty);
    let mut i: usize = 0;
    while i < n
        invariant
            i <= n,
            a@.len() == n,
            *cell <= b@.len() / 4 + 1,
            floats@.len() == b@.len() / 4,
            reads == reads_cell(ty@),
            a0 == elems_view(old(a)@),
            c0 == *old(cell) as int,
            set_elems(a0, 0, n as int, ty@, b@, c0, elems_view(floats@))
                == set_elems(elems_view(a@), i as int, n as int, ty@, b@, *cell as int, elems_view(floats@)),
        decreases n - i,
    {
        if reads {
            if !cell_in_exec(b, *cell) {
                assert(set_elems(elems_view(a@), i as int, n as int, ty@, b@, *cell as int, elems_view(floats@))
                    == (elems_view(a@), *cell as int, false));
                return false;
            }
            let v = cell_json_exec(ty, b, *cell, floats);
            let ghost before = elems_view(a@);
            a.set(i, v);
            assert(elems_view(a@) =~= before.update(i as int, v@));
        }
        *cell = adv_exec(b, *cell, 1);
        i += 1;
    }
    true
}

/// The getter writing one value at the cursor.
fn get_one_exec(b: &mut Vec<u8>, cell: &mut usize, patches: &mut Vec<(usize, JsonNumber)>, ty: &[u8], v: &JsonValue, Ghost(obj): Ghost<Json>) -> (r: PieceEnd)
    requires
        *old(cell) <= old(b)@.len() / 4 + 1,
    ensures
        ((obj, final(b)@, *final(cell) as int, patches_view(final(patches)@)), r)
            == get_one((obj, old(b)@, *old(cell) as int, patches_view(old(patches)@)), ty@, v@),
        final(b)@.len() == old(b)@.len(),
        *final(cell) <= final(b)@.len() / 4 + 1,
{
    let c: Result<u32, JsonNumber> = if is_bool_ty(ty) {
        match v {
            JsonValue::Bool(x) => Ok(if *x { 1u32 } else { 0u32 }),
            _ => { return PieceEnd::Stop; },
        }
    } else if is_int_ty(ty) {
        match value_as_i64(v) {
            Some(n) => Ok((n as i32) as u32),
            None => { return PieceEnd::Stop; },
        }
    } else if is_float_ty(ty) {
        match v {
            JsonValue::Number(n) => Err(*n),
            _ => { return PieceEnd::Stop; },
        }
    } else {
        return PieceEnd::Stop;
    };
    if !cell_in_exec(b, *cell) {
        return PieceEnd::Fault(StructFault::Overrun);
    }
    let here = *cell;
    assert(b@.len() == b.len());
    match c {
        Ok(x) => {
            put_le_u32_exec(b, here * 4, x);
        },
        Err(n) => {
            let ghost pv = patches_view(patches@);
            patches.push((here, n));
            assert(patches_view(patches@) =~= pv.push((here as int, n)));
        },
    }
    *cell = adv_exec(b, here, 1);
    PieceEnd::Next
}

/// The getter writing elements `0..n` of an array.
fn get_elems_exec(b: &mut Vec<u8>, cell: &mut usize, patches: &mut Vec<(usize, JsonNumber)>, ty: &[u8], a: &Vec<JsonValue>, n: usize, Ghost(obj): Ghost<Json>) -> (r: PieceEnd)
    requires
        *old(cell) <= old(b)@.len() / 4 + 1,
    ensures
        ((obj, final(b)@, *final(cell) as int, patches_view(final(patches)@)), r)
            == get_elems((obj, old(b)@, *old(cell) as int, patches_view(old(patches)@)), ty@, elems_view(a@), 0, n as int),
        final(b)@.len() == old(b)@.len(),
        *final(cell) <= final(b)@.len() / 4 + 1,
{
    let ghost st0 = (obj, b@, *cell as int, patches_view(patches@));
    let ghost av = elems_view(a@);
    let mut i: usize = 0;
    while i < n
        invariant
            i <= n,
            av == elems_view(a@),
            st0 == (obj, old(b)@, *old(cell) as int, patches_view(old(patches)@)),
            b@.len() == old(b)@.len(),
            *cell <= b@.len() / 4 + 1,
            get_elems(st0, ty@, av, 0, n as int) == get_elems((obj, b@, *cell as int, patches_view(patches@)), ty@, av, i as int, n as int),
        decreases n - i,
    {
        if i >= a.len() {
            return PieceEnd::Stop;
        }
        let e = get_one_exec(b, cell, patches, ty, &a[i], Ghost(obj));
        match e {
            PieceEnd::Next => {},
            _ => { return e; },
        }
        i += 1;
    }
    PieceEnd::Next
}

/// `write_to_sp_buf` into `n` bytes of the buffer at byte `at`.
fn write_text(b: &mut Vec<u8>, at: usize, s: &[u8], n: usize)
    requires
        n >= 1,
        text_fits(old(b)@, at as int, s@, n as int),
    ensures
        final(b)@ == put_text(old(b)@, at as int, s@, n as int),
{
    let sz = if n - 1 < s.len() { n - 1 } else { s.len() };
    let ghost ob = b@;
    let mut i: usize = 0;
    while i < sz
        invariant
            i <= sz,
            sz <= s@.len(),
            at + sz + 1 <= ob.len(),
            b@.len() == ob.len(),
            b@ == ob.take(at as int) + s@.take(i as int) + ob.skip(at + i),
        decreases sz - i,
    {
        assert(b@.len() == b.len());
        b.set(at + i, s[i]);
        i += 1;
        assert(b@ =~= ob.take(at as int) + s@.take(i as int) + ob.skip(at + i));
    }
    assert(b@.len() == b.len());
    b.set(at + sz, 0);
    assert(b@ =~= ob.take(at as int) + s@.take(sz as int) + seq![0u8] + ob.skip(at + sz + 1));
}

/// A vector of `n` nulls.
fn null_vec(n: usize) -> (r: Vec<JsonValue>)
    ensures
        elems_view(r@) == nulls(n as int),
        r@.len() == n,
{
    let mut v: Vec<JsonValue> = Vec::new();
    let mut i: usize = 0;
    while i < n
        invariant
            i <= n,
            v@.len() == i,
            elems_view(v@) == nulls(i as int),
        decreases n - i,
    {
        let ghost before = elems_view(v@);
        v.push(JsonValue::Null);
        i += 1;
        assert(elems_view(v@) =~= nulls(i as int)) by {
            assert forall|j: int| 0 <= j < i implies #[trigger] elems_view(v@)[j] == nulls(i as int)[j] by {
                if j < i - 1 {
                    assert(elems_view(v@)[j] == before[j]);
                }
            }
        }
    }
    v
}

/// One piece `[start, e)` of the format, applied to the state.
#[verifier::rlimit(50)]
fn struct_piece_exec(obj: &mut JsonValue, b: &mut Vec<u8>, cell: &mut usize, patches: &mut Vec<(usize, JsonNumber)>,
    f: &[u8], start: usize, e: usize, setter: bool, floats: &Vec<JsonValue>) -> (r: PieceEnd)
    requires
        start <= e <= f@.len(),
        f@.len() <= i32::MAX,
        *old(cell) <= old(b)@.len() / 4 + 1,
        setter ==> floats@.len() == old(b)@.len() / 4,
    ensures
        ((final(obj)@, final(b)@, *final(cell) as int, patches_view(final(patches)@)), r)
            == struct_piece(f@, start as int, e as int, (old(obj)@, old(b)@, *old(cell) as int, patches_view(old(patches)@)), setter, elems_view(floats@)),
        final(b)@.len() == old(b)@.len(),
        *final(cell) <= final(b)@.len() / 4 + 1,
{
    reveal(struct_piece);
    let ke = find_byte_exec(f, start, e, 44);
    if ke >= e {
        return PieceEnd::Stop;
    }
    let te = find_byte_exec(f, ke + 1, e, 44);
    let ty = &f[ke + 1..te];
    let count: Option<&[u8]> = if te < e {
        let ce = find_byte_exec(f, te + 1, e, 44);
        Some(&f[te + 1..ce])
    } else {
        None
    };
    assert(ty@ =~= f@.subrange(ke + 1, te as int));
    let keymem = &f[start..f.len()];
    assert(keymem@ =~= f@.skip(start as int));
    let keylen = (ke - start) as i32;
    let flags = no_flags_exec();
    let p = match sidx(obj, Some(keymem), keylen, flags, setter) {
        Located::Missing => { return PieceEnd::Stop; },
        Located::Panics => { return PieceEnd::Fault(StructFault::Panics); },
        Located::Found(p) => p,
    };
    assert(b@.len() == b.len());
    if setter {
        if is_char_ty(ty) {
            let c = match count {
                None => { return PieceEnd::Stop; },
                Some(c) => c,
            };
            let n = match parse_usize(c) {
                None => { return PieceEnd::Stop; },
                Some(n) => n,
            };
            if !(*cell < b.len() / 4 || (*cell == b.len() / 4 && b.len() % 4 != 0)) {
                return PieceEnd::Fault(StructFault::Overrun);
            }
            let at = *cell * 4;
            let rest = &b[at..b.len()];
            assert(rest@ =~= b@.skip(at as int));
            let text = match strxx(rest, false, 0) {
                None => { return PieceEnd::Stop; },
                Some(t) => t,
            };
            let _ = replace_at_path(obj, &p, JsonValue::String(text));
            *cell = adv_exec(b, *cell, char_cells_exec(n));
            PieceEnd::Next
        } else {
            match count {
                Some(c) => {
                    let n = match parse_usize(c) {
                        None => { return PieceEnd::Stop; },
                        Some(n) => n,
                    };
                    let mut a = null_vec(n);
                    let ok = fill_elems(&mut a, n, ty, b, cell, floats);
                    proof { lemma_array_view(a); }
                    let _ = replace_at_path(obj, &p, JsonValue::Array(a));
                    if ok { PieceEnd::Next } else { PieceEnd::Fault(StructFault::Overrun) }
                },
                None => {
                    if !(is_int_ty(ty) || is_bool_ty(ty) || is_float_ty(ty)) {
                        *cell = adv_exec(b, *cell, 1);
                        return PieceEnd::Next;
                    }
                    if !cell_in_exec(b, *cell) {
                        return PieceEnd::Fault(StructFault::Overrun);
                    }
                    let v = cell_json_exec(ty, b, *cell, floats);
                    let _ = replace_at_path(obj, &p, v);
                    *cell = adv_exec(b, *cell, 1);
                    PieceEnd::Next
                },
            }
        }
    } else if is_char_ty(ty) {
        let one: [u8; 1] = [49u8];
        assert(one@ =~= seq![49u8]);
        let c: &[u8] = match count {
            Some(c) => c,
            None => one.as_slice(),
        };
        let n = match parse_usize(c) {
            None => { return PieceEnd::Stop; },
            Some(n) => n,
        };
        let ghost o = obj@;
        match target_at(obj, &p) {
            JsonValue::String(s) => {
                if n == 0 {
                    return PieceEnd::Fault(StructFault::Panics);
                }
                let sz = if n - 1 < s.len() { n - 1 } else { s.len() };
                if *cell > b.len() / 4 {
                    return PieceEnd::Fault(StructFault::Overrun);
                }
                let at = *cell * 4;
                if sz + 1 > b.len() - at {
                    return PieceEnd::Fault(StructFault::Overrun);
                }
                write_text(b, at, s.as_slice(), n);
                *cell = adv_exec(b, *cell, char_cells_exec(n));
                PieceEnd::Next
            },
            _ => PieceEnd::Stop,
        }
    } else {
        let ghost o = obj@;
        match count {
            Some(c) => {
                let n = match parse_usize(c) {
                    None => { return PieceEnd::Stop; },
                    Some(n) => n,
                };
                match target_at(obj, &p) {
                    JsonValue::Array(a) => {
                        proof { lemma_array_view(*a); }
                        get_elems_exec(b, cell, patches, ty, a, n, Ghost(o))
                    },
                    _ => PieceEnd::Stop,
                }
            },
            None => get_one_exec(b, cell, patches, ty, target_at(obj, &p), Ghost(o)),
        }
    }
}

/// The value at the end of a path that leads somewhere.
fn target_at<'a>(object: &'a JsonValue, path: &Vec<PathStep>) -> (r: &'a JsonValue)
    requires
        json_at(object@, path_view(path@)) is Some,
    ensures
        json_at(object@, path_view(path@)) == Some(r@),
{
    assert(path_view(path@).skip(0) =~= path_view(path@));
    match get_at(object, path, 0) {
        Some(x) => x,
        None => {
            proof { assert(false); }
            object
        },
    }
}

/// Puts `new` at the end of a path that leads somewhere.
fn replace_at_path(object: &mut JsonValue, path: &Vec<PathStep>, new: JsonValue) -> (r: JsonValue)
    requires
        json_at(old(object)@, path_view(path@)) is Some,
    ensures
        final(object)@ == json_put(old(object)@, path_view(path@), new@),
        json_at(old(object)@, path_view(path@)) == Some(r@),
{
    assert(path_view(path@).skip(0) =~= path_view(path@));
    replace_at(object, path, 0, new)
}

/// `Struct_inner`: the format applied to `object` (the setter fills it
/// from the buffer's bytes, the getter fills the buffer from it), with the
/// float cells the getter leaves to be filled in, and why it stopped short.
/// The native always hands back nothing.
pub fn Struct_inner(object: &mut JsonValue, buf: &mut Vec<u8>, format: &[u8], flags: JsonFlags, setter: bool, floats: &Vec<JsonValue>) -> (r: (Vec<(usize, JsonNumber)>, Result<(), StructFault>))
    requires
        format@.len() <= i32::MAX,
        setter ==> floats@.len() == old(buf)@.len() / 4,
    ensures
        ({
            let (st, out) = struct_spec(old(object)@, old(buf)@, format@, flags, setter, elems_view(floats@));
            &&& final(object)@ == st.0
            &&& final(buf)@ == st.1
            &&& patches_view(r.0@) == st.3
            &&& r.1 == out
        }),
{
    let mut patches: Vec<(usize, JsonNumber)> = Vec::new();
    assert(patches_view(patches@) =~= Seq::empty());
    let f = match strxx(format, flags.unchecked_utf8_val, 0) {
        None => { return (patches, Ok(())); },
        Some(f) => f,
    };
    let ghost fv = f@;
    proof {
        crate::cstr::lemma_cstr_len(format@);
        assert(f@.len() <= format@.len());
    }
    let ghost fl = elems_view(floats@);
    let ghost st0: StructState = (object@, buf@, 0, Seq::empty());
    let mut cell: usize = 0;
    let mut pos: usize = 0;
    let mut going = true;
    let mut result: Result<(), StructFault> = Ok(());
    while going
        invariant
            pos <= f@.len(),
            fv == f@,
            f@.len() <= i32::MAX,
            cell <= buf@.len() / 4 + 1,
            buf@.len() == old(buf)@.len(),
            setter ==> floats@.len() == buf@.len() / 4,
            fl == elems_view(floats@),
            going ==> result == Ok::<(), StructFault>(()),
            going ==> struct_run(fv, 0, st0, setter, fl) == struct_run(fv, pos as int, (object@, buf@, cell as int, patches_view(patches@)), setter, fl),
            !going ==> struct_run(fv, 0, st0, setter, fl) == ((object@, buf@, cell as int, patches_view(patches@)), result),
            st0 == (old(object)@, old(buf)@, 0int, Seq::<(int, JsonNumber)>::empty()),
        decreases (f@.len() - pos) * 2 + (if going { 1int } else { 0int }),
    {
        let ghost cur: StructState = (object@, buf@, cell as int, patches_view(patches@));
        let e = find_byte_exec(f.as_slice(), pos, f.len(), 124);
        let end = struct_piece_exec(object, buf, &mut cell, &mut patches, f.as_slice(), pos, e, setter, floats);
        let ghost next: StructState = (object@, buf@, cell as int, patches_view(patches@));
        proof {
            assert(struct_piece(fv, pos as int, e as int, cur, setter, fl) == (next, end));
        }
        match end {
            PieceEnd::Next => {
                if e < f.len() {
                    pos = e + 1;
                } else {
                    going = false;
                }
            },
            PieceEnd::Stop => {
                going = false;
            },
            PieceEnd::Fault(x) => {
                result = Err(x);
                going = false;
            },
        }
    }
    (patches, result)
}

/// `GetStruct`: the getter on the value the key leads to.
pub fn rust_SRCWRJSON_GetStruct(object: &mut JsonValue, buf: &mut Vec<u8>, format: &[u8], flags: JsonFlags, key: Option<&[u8]>, keylen: i32) -> (r: (Vec<(usize, JsonNumber)>, Result<(), StructFault>))
    requires
        key_ok(key, keylen),
        format@.len() <= i32::MAX,
    ensures
        json_sorted(old(object)@) ==> json_sorted(final(object)@),
        ({
            let l = look(old(object)@, key, keylen, flags, false);
            &&& final(object)@ == l.0
            &&& match l.1 {
                Reach::Found(p) => {
                    let (st, out) = struct_spec(json_at(l.0, p)->0, old(buf)@, format@, flags, false, Seq::empty());
                    final(buf)@ == st.1 && patches_view(r.0@) == st.3 && r.1 == out
                },
                Reach::Missing => final(buf)@ == old(buf)@ && r.0@.len() == 0 && r.1 == Ok::<(), StructFault>(()),
                Reach::Panics => final(buf)@ == old(buf)@ && r.0@.len() == 0 && r.1 == Err::<(), StructFault>(StructFault::Panics),
            }
        }),
{
    proof {
        if json_sorted(object@) {
            law_lookup_keeps_sorted(object@, crate::json::walk::key_view(key), keylen, flags, false);
        }
    }
    let none: Vec<JsonValue> = Vec::new();
    assert(elems_view(none@) =~= Seq::empty());
    match sidx(object, key, keylen, flags, false) {
        Located::Found(p) => {
            let mut v = target_at(object, &p).duplicate();
            Struct_inner(&mut v, buf, format, flags, false, &none)
        },
        Located::Missing => (Vec::new(), Ok(())),
        Located::Panics => (Vec::new(), Err(StructFault::Panics)),
    }
}

/// `GetStructIdx`: the getter on the element the index leads to.
pub fn rust_SRCWRJSON_GetStructIdx(object: &mut JsonValue, buf: &mut Vec<u8>, format: &[u8], flags: JsonFlags, idx: usize) -> (r: (Vec<(usize, JsonNumber)>, Result<(), StructFault>))
    requires
        format@.len() <= i32::MAX,
    ensures
        final(object)@ == old(object)@,
        match crate::json::natives::idx_reach(old(object)@, idx) {
            Reach::Found(p) => {
                let (st, out) = struct_spec(json_at(old(object)@, p)->0, old(buf)@, format@, flags, false, Seq::empty());
                final(buf)@ == st.1 && patches_view(r.0@) == st.3 && r.1 == out
            },
            Reach::Missing => final(buf)@ == old(buf)@ && r.0@.len() == 0 && r.1 == Ok::<(), StructFault>(()),
            Reach::Panics => final(buf)@ == old(buf)@ && r.0@.len() == 0 && r.1 == Err::<(), StructFault>(StructFault::Panics),
        },
{
    let none: Vec<JsonValue> = Vec::new();
    assert(elems_view(none@) =~= Seq::empty());
    match crate::json::natives::GetIdx_Inner(object, idx) {
        Located::Found(p) => {
            let mut v = target_at(object, &p).duplicate();
            Struct_inner(&mut v, buf, format, flags, false, &none)
        },
        Located::Missing => (Vec::new(), Ok(())),
        Located::Panics => (Vec::new(), Err(StructFault::Panics)),
    }
}

/// `SetStruct`: the setter on the value the key leads to (created), reading
/// the buffer's bytes; `floats` holds, for each cell, the value of the cell
/// read as an `f32`.
pub fn rust_SRCWRJSON_SetStruct(object: &mut JsonValue, buf: &[u8], floats: &Vec<JsonValue>, format: &[u8], flags: JsonFlags, key: Option<&[u8]>, keylen: i32) -> (r: Result<(), StructFault>)
    requires
        key_ok(key, keylen),
        format@.len() <= i32::MAX,
        floats@.len() == buf@.len() / 4,
    ensures
        json_sorted(old(object)@) && floats_sorted(elems_view(floats@)) ==> json_sorted(final(object)@),
        ({
            let l = look(old(object)@, key, keylen, flags, true);
            match l.1 {
                Reach::Found(p) => {
                    let (st, out) = struct_spec(json_at(l.0, p)->0, buf@, format@, flags, true, elems_view(floats@));
                    final(object)@ == json_put(l.0, p, st.0) && r == out
                },
                Reach::Missing => final(object)@ == l.0 && r == Ok::<(), StructFault>(()),
                Reach::Panics => final(object)@ == l.0 && r == Err::<(), StructFault>(StructFault::Panics),
            }
        }),
{
    proof {
        if json_sorted(object@) {
            law_lookup_keeps_sorted(object@, crate::json::walk::key_view(key), keylen, flags, true);
        }
    }
    match sidx(object, key, keylen, flags, true) {
        Located::Found(p) => {
            let ghost root = object@;
            let mut v = replace_at_path(object, &p, JsonValue::Null);
            proof {
                assert(path_view(p@).skip(0) =~= path_view(p@));
                crate::json::walk::lemma_at_put(root, path_view(p@), Json::Null);
                crate::json::walk::lemma_put_put(root, path_view(p@), Json::Null, Json::Null);
            }
            let mut cells = bytes_copy(buf);
            let ghost start = v@;
            let (_, out) = Struct_inner(&mut v, &mut cells, format, flags, true, floats);
            proof {
                crate::json::walk::lemma_put_put(root, path_view(p@), Json::Null, v@);
                if json_sorted(old(object)@) && floats_sorted(elems_view(floats@)) {
                    lemma_at_sorted(root, path_view(p@));
                    law_set_struct_keeps_sorted(start, buf@, format@, flags, elems_view(floats@));
                    law_put_keeps_sorted(root, path_view(p@), v@);
                }
            }
            let _ = replace_at_path(object, &p, v);
            out
        },
        Located::Missing => Ok(()),
        Located::Panics => Err(StructFault::Panics),
    }
}

/// `SetStructIdx`: the setter runs on a new empty object, and since it
/// hands back nothing, the element is never set: only a fault can come out.
pub fn rust_SRCWRJSON_SetStructIdx(object: &mut JsonValue, buf: &[u8], floats: &Vec<JsonValue>, format: &[u8], flags: JsonFlags, idx: usize) -> (r: Result<Option<u32>, StructFault>)
    requires
        format@.len() <= i32::MAX,
        floats@.len() == buf@.len() / 4,
    ensures
        final(object)@ == old(object)@,
        r == match struct_spec(Json::Object(Seq::empty()), buf@, format@, flags, true, elems_view(floats@)).1 {
            Ok(_) => Ok::<Option<u32>, StructFault>(None),
            Err(x) => Err(x),
        },
{
    let mut structy = crate::json::natives::rust_SRCWRJSON_SRCWRJSON(false);
    let mut cells = bytes_copy(buf);
    let (_, out) = Struct_inner(&mut structy, &mut cells, format, flags, true, floats);
    match out {
        Ok(_) => Ok(None),
        Err(x) => Err(x),
    }
}

/// Every float value the setter may use is sorted.
pub open spec fn floats_sorted(floats: Seq<Json>) -> bool {
    forall|i: int| 0 <= i < floats.len() ==> json_sorted(#[trigger] floats[i])
}

/// The setter fills arrays with sorted values.
proof fn lemma_set_elems_sorted(a: Seq<Json>, i: int, n: int, ty: Seq<u8>, b: Seq<u8>, cell: int, floats: Seq<Json>)
    requires
        0 <= i,
        a.len() == n,
        forall|k: int| 0 <= k < a.len() ==> json_sorted(#[trigger] a[k]),
        floats_sorted(floats),
        floats.len() == b.len() / 4,
    ensures
        set_elems(a, i, n, ty, b, cell, floats).0.len() == n,
        forall|k: int| 0 <= k < n ==> json_sorted(#[trigger] set_elems(a, i, n, ty, b, cell, floats).0[k]),
    decreases n - i,
{
    if i >= n {
    } else if !reads_cell(ty) {
        lemma_set_elems_sorted(a, i + 1, n, ty, b, adv(b, cell, 1), floats);
    } else if !cell_in(b, cell) {
    } else {
        let c = cell_json(ty, b, cell, floats);
        if ty != int_ty() && ty != bool_ty() {
            assert(cell < floats.len());
        }
        assert(json_sorted(c));
        let a2 = a.update(i, c);
        assert forall|k: int| 0 <= k < a2.len() implies json_sorted(#[trigger] a2[k]) by {
            if k != i {
                assert(a2[k] == a[k]);
            }
        }
        lemma_set_elems_sorted(a2, i + 1, n, ty, b, adv(b, cell, 1), floats);
    }
}

/// One setter piece keeps the value sorted and the buffer as it is.
proof fn lemma_set_piece_sorted(f: Seq<u8>, start: int, e: int, st: StructState, floats: Seq<Json>)
    requires
        json_sorted(st.0),
        floats_sorted(floats),
        floats.len() == st.1.len() / 4,
    ensures
        json_sorted(struct_piece(f, start, e, st, true, floats).0.0),
        struct_piece(f, start, e, st, true, floats).0.1 == st.1,
{
    reveal(struct_piece);
    let (obj, b, cell, pt) = st;
    let ke = field_key_end(f, start, e);
    if ke < e {
        let te = field_ty_end(f, start, e);
        let ty = f.subrange(ke + 1, te);
        let count = if te < e { Some(f.subrange(te + 1, field_count_end(f, start, e))) } else { None };
        law_lookup_keeps_sorted(obj, Some(f.skip(start)), (ke - start) as i32, no_flags(), true);
        let (obj1, reach) = sidx_spec(obj, Some(f.skip(start)), (ke - start) as i32, no_flags(), true);
        if let Reach::Found(p) = reach {
            if ty == char_ty() {
                if let Some(c) = count {
                    if let Some(n) = parse_usize_text(c) {
                        if 0 <= cell && 4 * cell < b.len() {
                            if let Some(t) = spec_strxx(b.skip(cell * 4), false, 0) {
                                law_put_keeps_sorted(obj1, p, Json::Str(t));
                            }
                        }
                    }
                }
            } else {
                match count {
                    Some(c) => {
                        if let Some(n) = parse_usize_text(c) {
                            lemma_set_elems_sorted(nulls(n as int), 0, n as int, ty, b, cell, floats);
                            let a = set_elems(nulls(n as int), 0, n as int, ty, b, cell, floats).0;
                            assert(json_sorted(Json::Array(a)));
                            law_put_keeps_sorted(obj1, p, Json::Array(a));
                        }
                    },
                    None => {
                        if reads_cell(ty) && cell_in(b, cell) {
                            if ty != int_ty() && ty != bool_ty() {
                                assert(cell < floats.len());
                            }
                            law_put_keeps_sorted(obj1, p, cell_json(ty, b, cell, floats));
                        }
                    },
                }
            }
        }
    }
}

/// The setter's run over the format keeps the value sorted.
proof fn lemma_set_run_sorted(f: Seq<u8>, start: int, st: StructState, floats: Seq<Json>)
    requires
        json_sorted(st.0),
        floats_sorted(floats),
        floats.len() == st.1.len() / 4,
    ensures
        json_sorted(struct_run(f, start, st, true, floats).0.0),
    decreases f.len() - start,
{
    if !(start > f.len() || start < 0) {
        let e = find_byte(f, start, f.len() as int, 124);
        lemma_find_byte_range(f, start, f.len() as int, 124);
        lemma_set_piece_sorted(f, start, e, st, floats);
        let (st2, end) = struct_piece(f, start, e, st, true, floats);
        if end is Next && e < f.len() {
            lemma_set_run_sorted(f, e + 1, st2, floats);
        }
    }
}

/// `SetStruct` keeps objects sorted: the setter, on a sorted value with
/// sorted float values, gives a sorted value.
pub proof fn law_set_struct_keeps_sorted(obj: Json, b: Seq<u8>, format: Seq<u8>, flags: JsonFlags, floats: Seq<Json>)
    requires
        json_sorted(obj),
        floats_sorted(floats),
        floats.len() == b.len() / 4,
    ensures
        json_sorted(struct_spec(obj, b, format, flags, true, floats).0.0),
{
    if let Some(f) = spec_strxx(format, flags.unchecked_utf8_val, 0) {
        lemma_set_run_sorted(f, 0, (obj, b, 0, Seq::empty()), floats);
    }
}

/// `find_byte` finds nothing where the byte does not occur.
proof fn lemma_find_byte_absent(s: Seq<u8>, from: int, to: int, b: u8)
    requires
        from <= to,
        forall|k: int| from <= k < to ==> s[k] != b,
    ensures
        find_byte(s, from, to, b) == to,
    decreases to - from,
{
    if from < to {
        lemma_find_byte_absent(s, from + 1, to, b);
    }
}

/// `find_byte` finds the first occurrence.
proof fn lemma_find_byte_first(s: Seq<u8>, from: int, at: int, to: int, b: u8)
    requires
        from <= at < to,
        s[at] == b,
        forall|k: int| from <= k < at ==> s[k] != b,
    ensures
        find_byte(s, from, to, b) == at,
    decreases at - from,
{
    if from < at {
        lemma_find_byte_first(s, from + 1, at, to, b);
    }
}

/// An `int` cell read as a 32-bit integer and handed back gives the same bits.
proof fn lemma_int_cell(x: u32)
    ensures
        value_cell(int_ty(), int_json((x as i32) as i64)) == Some(Ok::<u32, JsonNumber>(x)),
{
    let n: i64 = (x as i32) as i64;
    assert((n as i32) as u32 == x) by (bit_vector)
        requires
            n == (x as i32) as i64;
    assert(json_as_i64(int_json(n)) == Some(n));
    assert(int_ty() != bool_ty());
}

/// The type of a struct field of the round trip: one cell each.
pub enum FieldTy {
    Int,
    Bool,
    Float,
}

/// The format of one field: `name,int`, `name,bool` or `name,float`.
pub open spec fn field_format(name: Seq<u8>, t: FieldTy) -> Seq<u8> {
    name + seq![44u8] + field_ty(t)
}

/// `find_byte` on a suffix: positions shift by where the suffix starts.
proof fn lemma_find_byte_shift(f: Seq<u8>, s: int, a: int, b: int, c: u8)
    requires
        0 <= s,
        0 <= a <= b,
        s + b <= f.len(),
    ensures
        find_byte(f, s + a, s + b, c) == s + find_byte(f.skip(s), a, b, c),
    decreases b - a,
{
    if a < b {
        assert(f[s + a] == f.skip(s)[a]);
        lemma_find_byte_shift(f, s, a + 1, b, c);
    }
}

/// A piece of the format reads the same on a suffix of it.
proof fn lemma_piece_shift(f: Seq<u8>, s: int, t: int, e: int, st: StructState, setter: bool, floats: Seq<Json>)
    requires
        0 <= s,
        0 <= t <= e,
        s + e <= f.len(),
    ensures
        struct_piece(f, s + t, s + e, st, setter, floats) == struct_piece(f.skip(s), t, e, st, setter, floats),
{
    reveal(struct_piece);
    let g = f.skip(s);
    lemma_find_byte_shift(f, s, t, e, 44);
    lemma_find_byte_range(g, t, e, 44);
    let ke = field_key_end(g, t, e);
    assert(f.skip(s + t) =~= g.skip(t));
    if ke < e {
        lemma_find_byte_shift(f, s, ke + 1, e, 44);
        lemma_find_byte_range(g, ke + 1, e, 44);
        let te = field_ty_end(g, t, e);
        assert(f.subrange(s + ke + 1, s + te) =~= g.subrange(ke + 1, te));
        if te < e {
            lemma_find_byte_shift(f, s, te + 1, e, 44);
            lemma_find_byte_range(g, te + 1, e, 44);
            let ce = field_count_end(g, t, e);
            assert(f.subrange(s + te + 1, s + ce) =~= g.subrange(te + 1, ce));
        }
    }
}

/// The run over the format from `s + t` is the run over its suffix from `t`.
proof fn lemma_run_shift(f: Seq<u8>, s: int, t: int, st: StructState, setter: bool, floats: Seq<Json>)
    requires
        0 <= s <= f.len(),
        0 <= t,
    ensures
        struct_run(f, s + t, st, setter, floats) == struct_run(f.skip(s), t, st, setter, floats),
    decreases f.len() - s - t,
{
    let g = f.skip(s);
    if s + t <= f.len() {
        lemma_find_byte_shift(f, s, t, g.len() as int, 124);
        lemma_find_byte_range(g, t, g.len() as int, 124);
        let e = find_byte(g, t, g.len() as int, 124);
        lemma_piece_shift(f, s, t, e, st, setter, floats);
        let (st2, end) = struct_piece(g, t, e, st, setter, floats);
        if end is Next && e < g.len() {
            lemma_run_shift(f, s, e + 1, st2, setter, floats);
        }
    }
}

/// What an object holds under a key, by the lookup the natives use.
pub open spec fn member(v: Json, k: Seq<u8>) -> Option<Json> {
    json_at(v, seq![Loc::Key(k)])
}

/// An object with `k` set to `x` (created when missing), as a setter piece leaves it.
pub open spec fn put_key(v: Json, k: Seq<u8>, x: Json) -> Json {
    match v {
        Json::Object(m) => json_put(Json::Object(obj_entry(m, k).0), seq![Loc::Key(k)], x),
        _ => v,
    }
}

/// A one-step lookup on an object, unfolded.
proof fn lemma_member(m: Seq<(Seq<u8>, Json)>, k: Seq<u8>)
    ensures
        member(Json::Object(m), k) == match obj_find(m, k) {
            Some(j) => Some(m[j].1),
            None => None,
        },
{
    reveal_with_fuel(json_at, 2);
    assert(seq![Loc::Key(k)].drop_first() =~= Seq::<Loc>::empty());
}

/// In a sorted object, two entries with the same key are the same entry.
proof fn lemma_sorted_unique(m: Seq<(Seq<u8>, Json)>, a: int, b: int)
    requires
        keys_sorted(m),
        0 <= a < m.len(),
        0 <= b < m.len(),
        m[a].0 == m[b].0,
    ensures
        a == b,
{
    if a < b {
        assert(key_lt(m[a].0, m[b].0));
        lemma_key_lt_irrefl(m[a].0);
    } else if b < a {
        assert(key_lt(m[b].0, m[a].0));
        lemma_key_lt_irrefl(m[a].0);
    }
}

/// Setting `k` on a sorted object: `k` then holds `x`, every other key
/// holds what it held, and the object stays a sorted object.
proof fn lemma_put_key(v: Json, k: Seq<u8>, x: Json, k2: Seq<u8>)
    requires
        v matches Json::Object(m) && keys_sorted(m),
    ensures
        put_key(v, k, x) matches Json::Object(m2) && keys_sorted(m2),
        member(put_key(v, k, x), k) == Some(x),
        k2 != k ==> member(put_key(v, k, x), k2) == member(v, k2),
{
    let m = v->Object_0;
    let (m1, _) = obj_entry(m, k);
    if obj_find(m, k) is None {
        lemma_insert_sorted(m, k, Json::Null);
        lemma_find_after_insert(m, k, Json::Null);
    }
    assert(keys_sorted(m1));
    let j = obj_find(m1, k)->0;
    lemma_obj_find_sorted(m1, k);
    let m2 = m1.update(j, (m1[j].0, x));
    reveal_with_fuel(json_put, 2);
    assert(seq![Loc::Key(k)].drop_first() =~= Seq::<Loc>::empty());
    assert(put_key(v, k, x) == Json::Object(m2));
    assert(keys_sorted(m2)) by {
        assert forall|a: int, b: int| 0 <= a < b < m2.len() implies key_lt(#[trigger] m2[a].0, #[trigger] m2[b].0) by {
            assert(m2[a].0 == m1[a].0 && m2[b].0 == m1[b].0);
        }
    }
    lemma_find_after_value_update(m1, j, x, k);
    lemma_member(m2, k);
    if k2 != k {
        lemma_find_after_value_update(m1, j, x, k2);
        lemma_member(m2, k2);
        lemma_member(m, k2);
        lemma_obj_find_sorted(m, k2);
        lemma_obj_find_sorted(m1, k2);
        if obj_find(m, k) is None {
            let p = lower_bound(m, k);
            lemma_lower_bound_exists(m, k);
            match obj_find(m, k2) {
                Some(i) => {
                    let i1 = if i < p { i } else { i + 1 };
                    assert(m1[i1] == m[i]);
                    let i2 = obj_find(m1, k2)->0;
                    lemma_sorted_unique(m1, i1, i2);
                },
                None => {
                    if let Some(i2) = obj_find(m1, k2) {
                        if i2 < p {
                            assert(m1[i2] == m[i2]);
                        } else if i2 > p {
                            assert(m1[i2] == m[i2 - 1]);
                        }
                    }
                },
            }
        } else {
            if let Some(i) = obj_find(m, k2) {
                assert(i != j);
            }
        }
    }
}

/// The type text of a field.
pub open spec fn field_ty(t: FieldTy) -> Seq<u8> {
    match t {
        FieldTy::Int => int_ty(),
        FieldTy::Bool => bool_ty(),
        FieldTy::Float => float_ty(),
    }
}

/// A format of `int`, `bool` and `float` fields, `name,type` joined by `|`.
pub open spec fn fields_format(fs: Seq<(Seq<u8>, FieldTy)>) -> Seq<u8>
    decreases fs.len(),
{
    if fs.len() == 0 {
        Seq::empty()
    } else if fs.len() == 1 {
        field_format(fs[0].0, fs[0].1)
    } else {
        field_format(fs[0].0, fs[0].1) + seq![124u8] + fields_format(fs.drop_first())
    }
}

/// A key the setter and getter look up as a plain key: not empty, UTF-8,
/// not a pointer, without `,`, `|` or NUL bytes.
pub open spec fn plain_field_name(name: Seq<u8>) -> bool {
    &&& 1 <= name.len() <= i32::MAX
    &&& vstd::utf8::valid_utf8(name)
    &&& name[0] != 47
    &&& forall|k: int| 0 <= k < name.len() ==> name[k] != 44 && name[k] != 124 && name[k] != 0
}

/// The fields have plain, pairwise different names.
pub open spec fn fields_ok(fs: Seq<(Seq<u8>, FieldTy)>) -> bool {
    &&& forall|i: int| 0 <= i < fs.len() ==> plain_field_name(#[trigger] fs[i].0)
    &&& forall|i: int, j: int| 0 <= i < j < fs.len() ==> #[trigger] fs[i].0 != #[trigger] fs[j].0
}

/// The object the setter leaves: each field's key set to the value of its
/// cell, cells counted from `c`.
pub open spec fn fields_set(v: Json, fs: Seq<(Seq<u8>, FieldTy)>, b: Seq<u8>, c: int, floats: Seq<Json>) -> Json
    decreases fs.len(),
{
    if fs.len() == 0 {
        v
    } else {
        fields_set(put_key(v, fs[0].0, cell_json(field_ty(fs[0].1), b, c, floats)), fs.drop_first(), b, c + 1, floats)
    }
}

/// A key that is none of the fields' keeps what it holds through the setter.
proof fn lemma_fields_set_frame(v: Json, fs: Seq<(Seq<u8>, FieldTy)>, b: Seq<u8>, c: int, floats: Seq<Json>, k: Seq<u8>)
    requires
        v matches Json::Object(m) && keys_sorted(m),
        forall|i: int| 0 <= i < fs.len() ==> #[trigger] fs[i].0 != k,
    ensures
        fields_set(v, fs, b, c, floats) matches Json::Object(m2) && keys_sorted(m2),
        member(fields_set(v, fs, b, c, floats), k) == member(v, k),
    decreases fs.len(),
{
    if fs.len() > 0 {
        let x = cell_json(field_ty(fs[0].1), b, c, floats);
        lemma_put_key(v, fs[0].0, x, k);
        assert(fs[0].0 != k);
        let rest = fs.drop_first();
        assert forall|i: int| 0 <= i < rest.len() implies #[trigger] rest[i].0 != k by {
            assert(rest[i] == fs[i + 1]);
        }
        lemma_fields_set_frame(put_key(v, fs[0].0, x), rest, b, c + 1, floats, k);
    }
}

/// After the setter every field's key holds the value of its cell.
proof fn lemma_fields_set_members(v: Json, fs: Seq<(Seq<u8>, FieldTy)>, b: Seq<u8>, c: int, floats: Seq<Json>)
    requires
        v matches Json::Object(m) && keys_sorted(m),
        fields_ok(fs),
    ensures
        fields_set(v, fs, b, c, floats) matches Json::Object(m2) && keys_sorted(m2),
        forall|i: int| 0 <= i < fs.len() ==> member(fields_set(v, fs, b, c, floats), #[trigger] fs[i].0)
            == Some(cell_json(field_ty(fs[i].1), b, c + i, floats)),
    decreases fs.len(),
{
    if fs.len() > 0 {
        let x = cell_json(field_ty(fs[0].1), b, c, floats);
        let v1 = put_key(v, fs[0].0, x);
        lemma_put_key(v, fs[0].0, x, fs[0].0);
        let rest = fs.drop_first();
        assert(fields_ok(rest)) by {
            assert forall|i: int| 0 <= i < rest.len() implies plain_field_name(#[trigger] rest[i].0) by {
                assert(rest[i] == fs[i + 1]);
            }
            assert forall|i: int, j: int| 0 <= i < j < rest.len() implies #[trigger] rest[i].0 != #[trigger] rest[j].0 by {
                assert(rest[i] == fs[i + 1] && rest[j] == fs[j + 1]);
            }
        }
        lemma_fields_set_members(v1, rest, b, c + 1, floats);
        assert forall|i: int| 0 <= i < rest.len() implies #[trigger] rest[i].0 != fs[0].0 by {
            assert(rest[i] == fs[i + 1]);
        }
        lemma_fields_set_frame(v1, rest, b, c + 1, floats, fs[0].0);
        assert forall|i: int| 0 <= i < fs.len() implies member(fields_set(v, fs, b, c, floats), #[trigger] fs[i].0)
            == Some(cell_json(field_ty(fs[i].1), b, c + i, floats)) by {
            if i > 0 {
                assert(rest[i - 1] == fs[i]);
            }
        }
    }
}

/// How a field followed by the rest of a format (nothing, or `|` and more) is split.
proof fn lemma_field_parts(name: Seq<u8>, t: FieldTy, tail: Seq<u8>)
    requires
        name.len() >= 1,
        forall|k: int| 0 <= k < name.len() ==> name[k] != 44 && name[k] != 124,
        tail.len() == 0 || tail[0] == 124,
    ensures
        ({
            let h = field_format(name, t);
            let f = h + tail;
            let l = h.len() as int;
            &&& find_byte(f, 0, f.len() as int, 124) == l
            &&& field_key_end(f, 0, l) == name.len()
            &&& field_ty_end(f, 0, l) == l
            &&& f.subrange(name.len() + 1int, l) == field_ty(t)
            &&& f.skip(0).take(name.len() as int) == name
            &&& l == name.len() + 1 + field_ty(t).len()
        }),
{
    let h = field_format(name, t);
    let f = h + tail;
    let ty = field_ty(t);
    let l = h.len() as int;
    let n = name.len() as int;
    assert(l == n + 1 + ty.len());
    assert forall|k: int| 0 <= k < l implies f[k] != 124 by {
        if k < n {
            assert(f[k] == name[k]);
        } else if k > n {
            assert(f[k] == ty[k - n - 1]);
        }
    }
    if tail.len() == 0 {
        lemma_find_byte_absent(f, 0, f.len() as int, 124);
    } else {
        assert(f[l] == tail[0]);
        lemma_find_byte_first(f, 0, l, f.len() as int, 124);
    }
    assert forall|k: int| 0 <= k < n implies f[k] != 44 by {
        assert(f[k] == name[k]);
    }
    assert(f[n] == 44);
    lemma_find_byte_first(f, 0, n, l, 44);
    assert forall|k: int| n + 1 <= k < l implies f[k] != 44 by {
        assert(f[k] == ty[k - n - 1]);
    }
    lemma_find_byte_absent(f, n + 1, l, 44);
    assert(f.subrange(n + 1, l) =~= ty);
    assert(f.skip(0).take(n) =~= name);
}

/// What the getter makes of the value the setter stored for a field's
/// cell: an `int` or `bool` cell's bits (a `bool` cell must be 0 or 1), or
/// the number of a `float` cell, left for the embedding code to write.
pub open spec fn cell_result(t: FieldTy, b: Seq<u8>, c: int, floats: Seq<Json>) -> Result<u32, JsonNumber> {
    match t {
        FieldTy::Float => Err(floats[c]->Number_0),
        _ => Ok(le_u32(b, c * 4)),
    }
}

/// A field's cell the round trip gives back: any `int` cell, a `bool`
/// cell of 0 or 1, a `float` cell whose value is a number.
pub open spec fn cell_readable(t: FieldTy, b: Seq<u8>, c: int, floats: Seq<Json>) -> bool {
    match t {
        FieldTy::Int => true,
        FieldTy::Bool => le_u32(b, c * 4) <= 1,
        FieldTy::Float => floats[c] is Number,
    }
}

/// The getter reads back what the setter stored for a cell.
proof fn lemma_cell_value(t: FieldTy, b: Seq<u8>, c: int, floats: Seq<Json>)
    requires
        cell_readable(t, b, c, floats),
    ensures
        value_cell(field_ty(t), cell_json(field_ty(t), b, c, floats)) == Some(cell_result(t, b, c, floats)),
{
    assert(int_ty() != bool_ty());
    assert(int_ty() != float_ty());
    assert(bool_ty() != float_ty());
    if t is Int {
        lemma_int_cell(le_u32(b, c * 4));
    }
}

/// Writing the cell read from `src` into `dst` at the same place copies its four bytes.
proof fn lemma_cell_copy_at(src: Seq<u8>, dst: Seq<u8>, c: int)
    requires
        0 <= c,
        c * 4 + 4 <= src.len(),
        c * 4 + 4 <= dst.len(),
    ensures
        put_le_u32(dst, c * 4, le_u32(src, c * 4)) == dst.take(c * 4) + src.subrange(c * 4, c * 4 + 4) + dst.skip(c * 4 + 4),
{
    let a = c * 4;
    let b0 = src[a];
    let b1 = src[a + 1];
    let b2 = src[a + 2];
    let b3 = src[a + 3];
    let x: u32 = le_u32(src, a);
    assert(x == (b0 as u32) + 256 * (b1 as u32) + 65536 * (b2 as u32) + 16777216 * (b3 as u32));
    assert((x % 256) as u8 == b0 && ((x / 256) % 256) as u8 == b1 && ((x / 65536) % 256) as u8 == b2
        && (x / 16777216) as u8 == b3) by (bit_vector)
        requires
            x == (b0 as u32) + 256 * (b1 as u32) + 65536 * (b2 as u32) + 16777216 * (b3 as u32);
    assert(put_le_u32(dst, a, x) =~= dst.take(a) + src.subrange(a, a + 4) + dst.skip(a + 4));
}

/// The setter's piece for a field at the front of a format.
proof fn lemma_set_piece(name: Seq<u8>, t: FieldTy, tail: Seq<u8>, v: Json, b: Seq<u8>, c: int, pt: Seq<(int, JsonNumber)>, floats: Seq<Json>)
    requires
        plain_field_name(name),
        tail.len() == 0 || tail[0] == 124,
        v is Object,
        cell_in(b, c),
    ensures
        struct_piece(field_format(name, t) + tail, 0, field_format(name, t).len() as int, (v, b, c, pt), true, floats)
            == ((put_key(v, name, cell_json(field_ty(t), b, c, floats)), b, adv(b, c, 1), pt), PieceEnd::Next),
{
    reveal(struct_piece);
    let f = field_format(name, t) + tail;
    lemma_field_parts(name, t, tail);
    let n = name.len() as int;
    assert(spec_strxx(f.skip(0), false, (n - 0) as i32) == Some(name));
    assert(int_ty() != char_ty());
    assert(bool_ty()[0] != char_ty()[0]);
    assert(field_ty(t) != char_ty());
}

/// The getter's piece for a field at the front of a format: a cell's bits
/// are written, a float's number is left as a patch.
proof fn lemma_get_piece(name: Seq<u8>, t: FieldTy, tail: Seq<u8>, w: Json, b2: Seq<u8>, c: int, pt: Seq<(int, JsonNumber)>, vx: Json, vc: Result<u32, JsonNumber>)
    requires
        plain_field_name(name),
        tail.len() == 0 || tail[0] == 124,
        w is Object,
        member(w, name) == Some(vx),
        value_cell(field_ty(t), vx) == Some(vc),
        cell_in(b2, c),
    ensures
        struct_piece(field_format(name, t) + tail, 0, field_format(name, t).len() as int, (w, b2, c, pt), false, Seq::empty())
            == match vc {
                Ok(x) => ((w, put_le_u32(b2, c * 4, x), adv(b2, c, 1), pt), PieceEnd::Next),
                Err(n) => ((w, b2, adv(b2, c, 1), pt.push((c, n))), PieceEnd::Next),
            },
{
    reveal(struct_piece);
    let f = field_format(name, t) + tail;
    lemma_field_parts(name, t, tail);
    let n = name.len() as int;
    assert(spec_strxx(f.skip(0), false, (n - 0) as i32) == Some(name));
    assert(int_ty() != char_ty());
    assert(bool_ty()[0] != char_ty()[0]);
    assert(field_ty(t) != char_ty());
    lemma_member(w->Object_0, name);
    reveal_with_fuel(json_at, 2);
    assert(seq![Loc::Key(name)].drop_first() =~= Seq::<Loc>::empty());
}

/// The rest of a format after its first field: nothing, or `|` and the others.
proof fn lemma_fields_format_split(fs: Seq<(Seq<u8>, FieldTy)>)
    requires
        fs.len() >= 1,
    ensures
        ({
            let tail = if fs.len() == 1 { Seq::<u8>::empty() } else { seq![124u8] + fields_format(fs.drop_first()) };
            &&& fields_format(fs) == field_format(fs[0].0, fs[0].1) + tail
            &&& tail.len() == 0 || tail[0] == 124
            &&& fs.len() > 1 ==> fields_format(fs).skip(field_format(fs[0].0, fs[0].1).len() + 1int) == fields_format(fs.drop_first())
        }),
{
    let h = field_format(fs[0].0, fs[0].1);
    if fs.len() == 1 {
        assert(fields_format(fs) =~= h + Seq::<u8>::empty());
    } else {
        let f = fields_format(fs);
        assert(f.skip(h.len() + 1int) =~= fields_format(fs.drop_first()));
    }
}

/// The getter's buffer after fields `fs` from cell `c` on: the cells of
/// the `int` and `bool` fields hold the bytes of `src`, all else the bytes
/// of `dst`.
pub open spec fn got_cells(dst: Seq<u8>, src: Seq<u8>, fs: Seq<(Seq<u8>, FieldTy)>, c: int) -> Seq<u8> {
    Seq::new(dst.len(), |j: int|
        if c * 4 <= j < (c + fs.len()) * 4 && !(fs[(j - c * 4) / 4].1 is Float) { src[j] } else { dst[j] })
}

/// The patches the getter leaves for the `float` fields from cell `c` on:
/// each one's cell and number, in order.
pub open spec fn float_patches(fs: Seq<(Seq<u8>, FieldTy)>, floats: Seq<Json>, c: int) -> Seq<(int, JsonNumber)>
    decreases fs.len(),
{
    if fs.len() == 0 {
        Seq::empty()
    } else {
        let rest = float_patches(fs.drop_first(), floats, c + 1);
        if fs[0].1 is Float { seq![(c, floats[c]->Number_0)] + rest } else { rest }
    }
}

/// The setter over a format of `int` and `bool` fields on an object.
proof fn lemma_set_run(fs: Seq<(Seq<u8>, FieldTy)>, v: Json, b: Seq<u8>, c: int, floats: Seq<Json>)
    requires
        fs.len() >= 1,
        fields_ok(fs),
        v matches Json::Object(m) && keys_sorted(m),
        0 <= c,
        4 * (c + fs.len()) <= b.len(),
    ensures
        struct_run(fields_format(fs), 0, (v, b, c, Seq::empty()), true, floats)
            == ((fields_set(v, fs, b, c, floats), b, c + fs.len(), Seq::<(int, JsonNumber)>::empty()), Ok::<(), StructFault>(())),
    decreases fs.len(),
{
    let f = fields_format(fs);
    let h = field_format(fs[0].0, fs[0].1);
    let tail = if fs.len() == 1 { Seq::<u8>::empty() } else { seq![124u8] + fields_format(fs.drop_first()) };
    lemma_fields_format_split(fs);
    assert(plain_field_name(fs[0].0));
    lemma_field_parts(fs[0].0, fs[0].1, tail);
    let x = cell_json(field_ty(fs[0].1), b, c, floats);
    lemma_set_piece(fs[0].0, fs[0].1, tail, v, b, c, Seq::empty(), floats);
    let v1 = put_key(v, fs[0].0, x);
    lemma_put_key(v, fs[0].0, x, fs[0].0);
    assert(adv(b, c, 1) == c + 1);
    let st1: StructState = (v1, b, c + 1, Seq::empty());
    if fs.len() == 1 {
        assert(fs.drop_first().len() == 0);
        assert(fields_set(v, fs, b, c, floats) == v1);
    } else {
        let rest = fs.drop_first();
        assert(fields_ok(rest)) by {
            assert forall|i: int| 0 <= i < rest.len() implies plain_field_name(#[trigger] rest[i].0) by {
                assert(rest[i] == fs[i + 1]);
            }
            assert forall|i: int, j: int| 0 <= i < j < rest.len() implies #[trigger] rest[i].0 != #[trigger] rest[j].0 by {
                assert(rest[i] == fs[i + 1] && rest[j] == fs[j + 1]);
            }
        }
        lemma_run_shift(f, h.len() + 1int, 0, st1, true, floats);
        lemma_set_run(rest, v1, b, c + 1, floats);
    }
}

/// The getter over a format of fields, on an object whose field keys hold
/// the values the setter stored for the cells of `src` from `c` on.
proof fn lemma_get_run(fs: Seq<(Seq<u8>, FieldTy)>, w: Json, src: Seq<u8>, b2: Seq<u8>, c: int, floats: Seq<Json>, pt: Seq<(int, JsonNumber)>)
    requires
        fs.len() >= 1,
        fields_ok(fs),
        w is Object,
        0 <= c,
        4 * (c + fs.len()) <= src.len(),
        4 * (c + fs.len()) <= b2.len(),
        forall|i: int| 0 <= i < fs.len() ==> member(w, #[trigger] fs[i].0) == Some(cell_json(field_ty(fs[i].1), src, c + i, floats)),
        forall|i: int| 0 <= i < fs.len() ==> cell_readable(#[trigger] fs[i].1, src, c + i, floats),
    ensures
        struct_run(fields_format(fs), 0, (w, b2, c, pt), false, Seq::empty())
            == ((w, got_cells(b2, src, fs, c), c + fs.len(), pt + float_patches(fs, floats, c)), Ok::<(), StructFault>(())),
    decreases fs.len(),
{
    let f = fields_format(fs);
    let h = field_format(fs[0].0, fs[0].1);
    let tail = if fs.len() == 1 { Seq::<u8>::empty() } else { seq![124u8] + fields_format(fs.drop_first()) };
    lemma_fields_format_split(fs);
    assert(plain_field_name(fs[0].0));
    lemma_field_parts(fs[0].0, fs[0].1, tail);
    let vx = cell_json(field_ty(fs[0].1), src, c, floats);
    assert(member(w, fs[0].0) == Some(vx));
    assert(cell_readable(fs[0].1, src, c + 0, floats));
    lemma_cell_value(fs[0].1, src, c, floats);
    let vc = cell_result(fs[0].1, src, c, floats);
    lemma_get_piece(fs[0].0, fs[0].1, tail, w, b2, c, pt, vx, vc);
    lemma_cell_copy_at(src, b2, c);
    let b3 = if fs[0].1 is Float { b2 } else { put_le_u32(b2, c * 4, le_u32(src, c * 4)) };
    let pt3 = if fs[0].1 is Float { pt.push((c, floats[c]->Number_0)) } else { pt };
    assert(adv(b2, c, 1) == c + 1);
    assert(b3.len() == b2.len());
    assert forall|j: int| 0 <= j < b3.len() implies #[trigger] b3[j] == (if c * 4 <= j < c * 4 + 4 && !(fs[0].1 is Float) { src[j] } else { b2[j] }) by {
        if !(fs[0].1 is Float) {
            assert(b3 == b2.take(c * 4) + src.subrange(c * 4, c * 4 + 4) + b2.skip(c * 4 + 4));
            if j < c * 4 {
                assert(b3[j] == b2.take(c * 4)[j]);
            } else if j < c * 4 + 4 {
                assert(b3[j] == src.subrange(c * 4, c * 4 + 4)[j - c * 4]);
            } else {
                assert(b3[j] == b2.skip(c * 4 + 4)[j - c * 4 - 4]);
            }
        }
    }
    let st1: StructState = (w, b3, c + 1, pt3);
    if fs.len() == 1 {
        assert(float_patches(fs.drop_first(), floats, c + 1).len() == 0);
        assert(pt + float_patches(fs, floats, c) =~= pt3);
        assert forall|j: int| 0 <= j < b3.len() implies #[trigger] got_cells(b2, src, fs, c)[j] == b3[j] by {
            if c * 4 <= j < (c + 1) * 4 {
                assert((j - c * 4) / 4 == 0);
            }
        }
        assert(got_cells(b2, src, fs, c) =~= b3);
    } else {
        let rest = fs.drop_first();
        assert(fields_ok(rest)) by {
            assert forall|i: int| 0 <= i < rest.len() implies plain_field_name(#[trigger] rest[i].0) by {
                assert(rest[i] == fs[i + 1]);
            }
            assert forall|i: int, j: int| 0 <= i < j < rest.len() implies #[trigger] rest[i].0 != #[trigger] rest[j].0 by {
                assert(rest[i] == fs[i + 1] && rest[j] == fs[j + 1]);
            }
        }
        assert forall|i: int| 0 <= i < rest.len() implies member(w, #[trigger] rest[i].0) == Some(cell_json(field_ty(rest[i].1), src, c + 1 + i, floats)) by {
            assert(rest[i] == fs[i + 1]);
        }
        assert forall|i: int| 0 <= i < rest.len() implies cell_readable(#[trigger] rest[i].1, src, c + 1 + i, floats) by {
            assert(rest[i] == fs[i + 1]);
        }
        lemma_run_shift(f, h.len() + 1int, 0, st1, false, Seq::empty());
        lemma_get_run(rest, w, src, b3, c + 1, floats, pt3);
        assert(pt3 + float_patches(rest, floats, c + 1) =~= pt + float_patches(fs, floats, c));
        assert forall|j: int| 0 <= j < b2.len() implies #[trigger] got_cells(b3, src, rest, c + 1)[j] == got_cells(b2, src, fs, c)[j] by {
            if (c + 1) * 4 <= j < (c + 1 + rest.len()) * 4 {
                assert((j - c * 4) / 4 == (j - (c + 1) * 4) / 4 + 1) by (nonlinear_arith)
                    requires (c + 1) * 4 <= j;
                assert(rest[(j - (c + 1) * 4) / 4] == fs[(j - c * 4) / 4]);
            } else if c * 4 <= j < (c + 1) * 4 {
                assert((j - c * 4) / 4 == 0) by (nonlinear_arith)
                    requires c * 4 <= j < (c + 1) * 4;
            }
        }
        assert(got_cells(b3, src, rest, c + 1) =~= got_cells(b2, src, fs, c));
    }
}

/// A format of plain-named fields holds no NUL byte.
proof fn lemma_fields_format_no_nul(fs: Seq<(Seq<u8>, FieldTy)>)
    requires
        fields_ok(fs),
    ensures
        forall|k: int| 0 <= k < fields_format(fs).len() ==> fields_format(fs)[k] != 0,
    decreases fs.len(),
{
    if fs.len() >= 1 {
        lemma_fields_format_split(fs);
        let name = fs[0].0;
        assert(plain_field_name(name));
        let h = field_format(name, fs[0].1);
        let ty = field_ty(fs[0].1);
        let tail = if fs.len() == 1 { Seq::<u8>::empty() } else { seq![124u8] + fields_format(fs.drop_first()) };
        let rest = fs.drop_first();
        if fs.len() > 1 {
            assert(fields_ok(rest)) by {
                assert forall|i: int| 0 <= i < rest.len() implies plain_field_name(#[trigger] rest[i].0) by {
                    assert(rest[i] == fs[i + 1]);
                }
                assert forall|i: int, j: int| 0 <= i < j < rest.len() implies #[trigger] rest[i].0 != #[trigger] rest[j].0 by {
                    assert(rest[i] == fs[i + 1] && rest[j] == fs[j + 1]);
                }
            }
            lemma_fields_format_no_nul(rest);
        }
        let f = fields_format(fs);
        assert forall|k: int| 0 <= k < f.len() implies f[k] != 0 by {
            if k < name.len() {
                assert(f[k] == name[k]);
            } else if k == name.len() {
            } else if k < h.len() {
                assert(f[k] == ty[k - name.len() - 1]);
            } else if k > h.len() {
                assert(f[k] == fields_format(rest)[k - h.len() - 1]);
            }
        }
    }
}

/// Reading back struct fields: on a sorted object, the setter with a format
/// of `int`, `bool` and `float` fields (plain, pairwise different keys)
/// stores each field's cell under its key; the getter with the same format,
/// on what the setter left, writes the `int` and `bool` cells back into its
/// own buffer bit for bit, hands back the number of each `float` cell as a
/// patch for that cell, in order, and leaves the rest of its buffer and the
/// object as they were (a `bool` cell reads back as 0 or 1, so its cells
/// must be one of those; a `float` cell's value must be a number).
pub proof fn law_struct_fields_round_trip(m: Seq<(Seq<u8>, Json)>, fs: Seq<(Seq<u8>, FieldTy)>, b1: Seq<u8>, b2: Seq<u8>, floats: Seq<Json>)
    requires
        keys_sorted(m),
        fs.len() >= 1,
        fields_ok(fs),
        4 * fs.len() <= b1.len(),
        4 * fs.len() <= b2.len(),
        forall|i: int| 0 <= i < fs.len() ==> cell_readable(#[trigger] fs[i].1, b1, i, floats),
    ensures
        ({
            let f = fields_format(fs);
            let (s1, o1) = struct_run(f, 0, (Json::Object(m), b1, 0, Seq::empty()), true, floats);
            let (s2, o2) = struct_run(f, 0, (s1.0, b2, 0, Seq::empty()), false, Seq::empty());
            &&& o1 is Ok
            &&& o2 is Ok
            &&& s2.0 == s1.0
            &&& s2.1 == got_cells(b2, b1, fs, 0)
            &&& s2.3 == float_patches(fs, floats, 0)
        }),
{
    let v = Json::Object(m);
    lemma_set_run(fs, v, b1, 0, floats);
    lemma_fields_set_members(v, fs, b1, 0, floats);
    let w = fields_set(v, fs, b1, 0, floats);
    assert forall|i: int| 0 <= i < fs.len() implies cell_readable(#[trigger] fs[i].1, b1, 0 + i, floats) by {
        assert(0 + i == i);
    }
    lemma_get_run(fs, w, b1, b2, 0, floats, Seq::empty());
    assert(Seq::<(int, JsonNumber)>::empty() + float_patches(fs, floats, 0) =~= float_patches(fs, floats, 0));
}

/// `GetStruct` reads back what `SetStruct` wrote: where `SetStruct` with a
/// key finds an object in a sorted value and stores `int`, `bool` and
/// `float` fields (plain, pairwise different keys; the format given as a
/// UTF-8 C string), `GetStruct` with the same key and format finds the same
/// place, changes nothing, writes the `int` and `bool` cells back into its
/// buffer bit for bit, hands back each `float` cell's number as a patch for
/// that cell, and leaves the rest of its buffer as it was (a `bool` cell
/// reads back as 0 or 1, so its cells must be one of those; a `float`
/// cell's value must be a number).
pub proof fn law_set_struct_then_get_struct(
    root: Json,
    key: Option<&[u8]>,
    keylen: i32,
    flags: JsonFlags,
    fs: Seq<(Seq<u8>, FieldTy)>,
    b1: Seq<u8>,
    b2: Seq<u8>,
    floats: Seq<Json>,
)
    requires
        json_sorted(root),
        look(root, key, keylen, flags, true).1 matches Reach::Found(p) && path_fits(p)
            && json_at(look(root, key, keylen, flags, true).0, p) matches Some(Json::Object(_)),
        no_appender(crate::json::walk::key_view(key), keylen, flags),
        fs.len() >= 1,
        fields_ok(fs),
        vstd::utf8::valid_utf8(fields_format(fs)),
        4 * fs.len() <= b1.len(),
        4 * fs.len() <= b2.len(),
        forall|i: int| 0 <= i < fs.len() ==> cell_readable(#[trigger] fs[i].1, b1, i, floats),
    ensures
        ({
            let fm = fields_format(fs) + seq![0u8];
            let l = look(root, key, keylen, flags, true);
            let p = l.1->Found_0;
            let (s1, o1) = struct_spec(json_at(l.0, p)->0, b1, fm, flags, true, floats);
            let w = json_put(l.0, p, s1.0);
            let l2 = look(w, key, keylen, flags, false);
            let (s2, o2) = struct_spec(json_at(l2.0, p)->0, b2, fm, flags, false, Seq::empty());
            &&& o1 is Ok
            &&& l2 == (w, Reach::Found(p))
            &&& o2 is Ok
            &&& s2.1 == got_cells(b2, b1, fs, 0)
            &&& s2.3 == float_patches(fs, floats, 0)
        }),
{
    let f = fields_format(fs);
    let fm = f + seq![0u8];
    lemma_fields_format_no_nul(fs);
    assert forall|k: int| 0 <= k < f.len() implies fm[k] != 0 by {
        assert(fm[k] == f[k]);
    }
    crate::cstr::lemma_cstr_len_unique(fm, f.len() as int);
    assert(fm.take(f.len() as int) =~= f);
    lemma_fields_format_split(fs);
    assert(f.len() >= 1);
    assert(spec_strxx(fm, flags.unchecked_utf8_val, 0) == Some(f));
    let l = look(root, key, keylen, flags, true);
    let p = l.1->Found_0;
    law_lookup_keeps_sorted(root, crate::json::walk::key_view(key), keylen, flags, true);
    lemma_at_sorted(l.0, p);
    let m = json_at(l.0, p)->0->Object_0;
    law_struct_fields_round_trip(m, fs, b1, b2, floats);
    let s1 = struct_spec(json_at(l.0, p)->0, b1, fm, flags, true, floats).0;
    law_write_then_read(root, crate::json::walk::key_view(key), keylen, flags, s1.0, false);
}

/// `a + b`, saturating at `usize::MAX`.
pub open spec fn sat_add(a: int, b: int) -> int {
    if a + b > usize::MAX { usize::MAX as int } else { a + b }
}

/// How many cells the piece `[start, e)` of a format names: a `char` field
/// its bytes' cells (`count + 3` saturating, over 4), any other its count;
/// a missing or unreadable count counts as 1.
pub open spec fn piece_cells(f: Seq<u8>, start: int, e: int) -> int {
    let ke = field_key_end(f, start, e);
    let te = field_ty_end(f, start, e);
    let ty = if ke < e { f.subrange(ke + 1, te) } else { Seq::empty() };
    let n: int = if ke < e && te < e {
        match parse_usize_text(f.subrange(te + 1, field_count_end(f, start, e))) {
            Some(v) => v as int,
            None => 1,
        }
    } else {
        1
    };
    if ty == char_ty() { sat_add(n, 3) / 4 } else { n }
}

/// The cells of the pieces from `start` on, added (saturating) to `acc`.
pub open spec fn cells_from(f: Seq<u8>, start: int, acc: int) -> int
    decreases f.len() - start,
{
    if start < 0 || start > f.len() {
        acc
    } else {
        let e = find_byte(f, start, f.len() as int, 124);
        proof { lemma_find_byte_range(f, start, f.len() as int, 124); }
        let acc2 = sat_add(acc, piece_cells(f, start, e));
        if e < f.len() { cells_from(f, e + 1, acc2) } else { acc2 }
    }
}

fn piece_cells_exec(f: &[u8], start: usize, e: usize) -> (r: usize)
    requires
        start <= e <= f@.len(),
    ensures
        r as int == piece_cells(f@, start as int, e as int),
{
    let ke = find_byte_exec(f, start, e, 44);
    if ke >= e {
        return 1;
    }
    let te = find_byte_exec(f, ke + 1, e, 44);
    let ty = &f[ke + 1..te];
    assert(ty@ =~= f@.subrange(ke + 1, te as int));
    let n: usize = if te < e {
        let ce = find_byte_exec(f, te + 1, e, 44);
        let c = &f[te + 1..ce];
        assert(c@ =~= f@.subrange(te + 1, ce as int));
        match parse_usize(c) {
            Some(v) => v,
            None => 1,
        }
    } else {
        1
    };
    if is_char_ty(ty) {
        let m: usize = if n > usize::MAX - 3 { usize::MAX } else { n + 3 };
        m / 4
    } else {
        n
    }
}

/// How many cells a format names, so that a plugin buffer read through it
/// can be sized: the pieces' cells added, saturating at `usize::MAX`.
pub fn format_cells(format: &[u8]) -> (r: usize)
    ensures
        r as int == cells_from(format@, 0, 0),
{
    let mut start: usize = 0;
    let mut acc: usize = 0;
    loop
        invariant
            start <= format.len(),
            cells_from(format@, start as int, acc as int) == cells_from(format@, 0, 0),
        decreases format.len() - start,
    {
        let e = find_byte_exec(format, start, format.len(), 124);
        let c = piece_cells_exec(format, start, e);
        proof { lemma_find_byte_range(format@, start as int, format.len() as int, 124); }
        acc = if acc > usize::MAX - c { usize::MAX } else { acc + c };
        if e < format.len() {
            start = e + 1;
        } else {
            return acc;
        }
    }
}

} // verus!
