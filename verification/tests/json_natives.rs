use srcwrtimer::json::natives::{
    stop_at_zero_len, file_terminator,
    rust_SRCWRJSON_Clear, rust_SRCWRJSON_FillKeys, rust_SRCWRJSON_Get, rust_SRCWRJSON_GetBool,
    rust_SRCWRJSON_GetCell, rust_SRCWRJSON_GetCellIdx, rust_SRCWRJSON_GetI64, rust_SRCWRJSON_GetIdx,
    rust_SRCWRJSON_GetString, rust_SRCWRJSON_GetStringIdx, rust_SRCWRJSON_GetType, rust_SRCWRJSON_Has,
    rust_SRCWRJSON_IsArray, rust_SRCWRJSON_IsNull, rust_SRCWRJSON_IsNullIdx, rust_SRCWRJSON_Remove,
    rust_SRCWRJSON_RemoveIdx, rust_SRCWRJSON_ReplaceCell, rust_SRCWRJSON_ReplaceCellIdx,
    rust_SRCWRJSON_SRCWRJSON, rust_SRCWRJSON_Set, rust_SRCWRJSON_SetBool, rust_SRCWRJSON_SetCell,
    rust_SRCWRJSON_SetFromString, rust_SRCWRJSON_SetI64, rust_SRCWRJSON_SetIdx, rust_SRCWRJSON_SetNull,
    rust_SRCWRJSON_SetString, rust_SRCWRJSON_SetStringIdx, rust_SRCWRJSON_SetZss, rust_SRCWRJSON_ToggleBool,
    rust_SRCWRJSON_ToggleBoolIdx, rust_SRCWRJSON_len, rust_SRCWRJSON_GetObjects, rust_SRCWRJSON_Clone,
    rust_handle_size_SRCWRJSON, recursive_size_calc, tostring_noalloc, resolve_idx, IndexPanic, JType,
    Setx_Inner, rust_SRCWRJSON_SetCellIdx, rust_SRCWRJSON_GetI64Idx, rust_SRCWRJSON_GetBoolIdx,
};
use srcwrtimer::json::value::{JsonEntry, JsonNumber, JsonValue};
use srcwrtimer::json::walk::JsonFlags;

fn s(x: &str) -> JsonValue {
    JsonValue::String(x.as_bytes().to_vec())
}

fn num(n: i64) -> JsonValue {
    if n < 0 {
        JsonValue::Number(JsonNumber::NegInt(n))
    } else {
        JsonValue::Number(JsonNumber::PosInt(n as u64))
    }
}

fn obj(mut entries: Vec<(&str, JsonValue)>) -> JsonValue {
    entries.sort_by(|a, b| a.0.as_bytes().cmp(b.0.as_bytes()));
    JsonValue::Object(entries.into_iter().map(|(k, v)| JsonEntry { key: k.as_bytes().to_vec(), value: v }).collect())
}

fn arr(v: Vec<JsonValue>) -> JsonValue {
    JsonValue::Array(v)
}

fn none() -> JsonFlags {
    JsonFlags::none()
}

fn k(x: &str) -> Option<&[u8]> {
    Some(x.as_bytes())
}

fn sample() -> JsonValue {
    obj(vec![
        ("a", num(1)),
        ("b", arr(vec![num(10), num(20), s("x")])),
        ("c", obj(vec![("d", JsonValue::Bool(true)), ("e~f", JsonValue::Null), ("g/h", num(-3))])),
        ("s", s("hello")),
    ])
}

#[test]
fn has_plain_and_pointer_keys() {
    let mut v = sample();
    assert_eq!(rust_SRCWRJSON_Has(&mut v, none(), k("a"), 0), Ok(true));
    assert_eq!(rust_SRCWRJSON_Has(&mut v, none(), k("zz"), 0), Ok(false));
    assert_eq!(rust_SRCWRJSON_Has(&mut v, none(), k("/c/d"), 0), Ok(true));
    assert_eq!(rust_SRCWRJSON_Has(&mut v, none(), k("/c/e~f"), 0), Ok(true));
    assert_eq!(rust_SRCWRJSON_Has(&mut v, none(), k("/c/e~0f"), 0), Ok(true));
    assert_eq!(rust_SRCWRJSON_Has(&mut v, none(), k("/c/g~1h"), 0), Ok(true));
    assert_eq!(rust_SRCWRJSON_Has(&mut v, none(), k("/b/1"), 0), Ok(true));
    assert_eq!(rust_SRCWRJSON_Has(&mut v, none(), k("/b/3"), 0), Ok(false));
    assert_eq!(rust_SRCWRJSON_Has(&mut v, none(), None, 0), Ok(true));
    assert_eq!(rust_SRCWRJSON_Has(&mut v, none(), k(""), 0), Ok(false));
    assert!(v.equals(&sample()));
}

#[test]
fn parent_segments_are_unescaped() {
    let mut v = obj(vec![("g/h", obj(vec![("x", num(5))]))]);
    assert_eq!(rust_SRCWRJSON_Has(&mut v, none(), k("/g~1h/x"), 0), Ok(true));
    assert_eq!(rust_SRCWRJSON_GetCell(&mut v, none(), k("/g~1h/x"), 0), Ok(Some(5)));
}

#[test]
fn no_pointer_flag_takes_slash_keys_literally() {
    let mut v = obj(vec![("/a", num(7))]);
    let mut f = none();
    f.no_pointer = true;
    assert_eq!(rust_SRCWRJSON_GetCell(&mut v, f, k("/a"), 0), Ok(Some(7)));
    assert_eq!(rust_SRCWRJSON_GetCell(&mut v, none(), k("/a"), 0), Ok(None));
}

#[test]
fn explicit_key_length() {
    let mut v = sample();
    assert_eq!(rust_SRCWRJSON_GetCell(&mut v, none(), k("abc"), 1), Ok(Some(1)));
}

#[test]
fn get_type_and_is_array() {
    let mut v = sample();
    assert_eq!(rust_SRCWRJSON_GetType(&mut v, none(), k("a"), 0), Ok(JType::Number));
    assert_eq!(rust_SRCWRJSON_GetType(&mut v, none(), k("b"), 0), Ok(JType::Array));
    assert_eq!(rust_SRCWRJSON_GetType(&mut v, none(), k("c"), 0), Ok(JType::Object));
    assert_eq!(rust_SRCWRJSON_GetType(&mut v, none(), k("s"), 0), Ok(JType::String));
    assert_eq!(rust_SRCWRJSON_GetType(&mut v, none(), k("/c/d"), 0), Ok(JType::Bool));
    assert_eq!(rust_SRCWRJSON_GetType(&mut v, none(), k("/c/e~f"), 0), Ok(JType::Null));
    assert_eq!(rust_SRCWRJSON_GetType(&mut v, none(), k("nope"), 0), Ok(JType::Unknown));
    assert_eq!(rust_SRCWRJSON_IsArray(&mut v, none(), k("b"), 0), Ok(true));
    assert_eq!(rust_SRCWRJSON_IsArray(&mut v, none(), k("c"), 0), Ok(false));
}

#[test]
fn len_of_values() {
    let mut v = sample();
    assert_eq!(rust_SRCWRJSON_len(&mut v, none(), None, 0), Ok(4));
    assert_eq!(rust_SRCWRJSON_len(&mut v, none(), k("b"), 0), Ok(3));
    assert_eq!(rust_SRCWRJSON_len(&mut v, none(), k("s"), 0), Ok(5));
    assert_eq!(rust_SRCWRJSON_len(&mut v, none(), k("a"), 0), Ok(0));
    assert_eq!(rust_SRCWRJSON_len(&mut v, none(), k("missing"), 0), Ok(usize::MAX));
}

#[test]
fn get_copies_and_moves() {
    let mut v = sample();
    let got = rust_SRCWRJSON_Get(&mut v, none(), k("/b/1"), 0).unwrap().unwrap();
    assert!(got.equals(&num(20)));
    assert!(v.equals(&sample()));
    let mut f = none();
    f.move_value = true;
    let moved = rust_SRCWRJSON_Get(&mut v, f, k("s"), 0).unwrap().unwrap();
    assert!(moved.equals(&s("hello")));
    assert_eq!(rust_SRCWRJSON_GetType(&mut v, none(), k("s"), 0), Ok(JType::Null));
    assert!(rust_SRCWRJSON_Get(&mut v, none(), k("nothing"), 0).unwrap().is_none());
}

#[test]
fn set_then_get_returns_the_value() {
    let mut v = sample();
    let mut other = arr(vec![num(1), num(2)]);
    assert_eq!(rust_SRCWRJSON_Set(&mut v, &mut other, none(), k("new"), 0), Ok(Some(1)));
    let got = rust_SRCWRJSON_Get(&mut v, none(), k("new"), 0).unwrap().unwrap();
    assert!(got.equals(&arr(vec![num(1), num(2)])));
    assert!(other.equals(&arr(vec![num(1), num(2)])));
    let mut f = none();
    f.move_value = true;
    let mut other2 = s("moved");
    assert_eq!(rust_SRCWRJSON_Set(&mut v, &mut other2, f, k("/c/d"), 0), Ok(Some(1)));
    assert!(other2.equals(&JsonValue::Null));
    assert!(rust_SRCWRJSON_Get(&mut v, none(), k("/c/d"), 0).unwrap().unwrap().equals(&s("moved")));
}

#[test]
fn set_on_missing_parent_without_create_parents_fails() {
    let mut v = sample();
    let mut other = num(3);
    assert_eq!(rust_SRCWRJSON_Set(&mut v, &mut other, none(), k("/x/y"), 0), Ok(None));
    assert!(v.equals(&sample()));
}

#[test]
fn create_parents_builds_objects_and_arrays() {
    let mut v = obj(vec![]);
    let mut f = none();
    f.create_parents = true;
    assert_eq!(rust_SRCWRJSON_SetCell(&mut v, 9, f, k("/x/2/y"), 0), Ok(Some(1)));
    let expected = obj(vec![("x", arr(vec![JsonValue::Null, JsonValue::Null, obj(vec![("y", num(9))])]))]);
    assert!(v.equals(&expected));
    assert_eq!(rust_SRCWRJSON_GetCell(&mut v, none(), k("/x/2/y"), 0), Ok(Some(9)));
}

#[test]
fn append_with_dash_and_next_index() {
    let mut v = obj(vec![("l", arr(vec![num(1)]))]);
    assert_eq!(rust_SRCWRJSON_SetCell(&mut v, 2, none(), k("/l/1"), 0), Ok(Some(1)));
    assert_eq!(rust_SRCWRJSON_len(&mut v, none(), k("l"), 0), Ok(2));
    assert_eq!(rust_SRCWRJSON_SetCell(&mut v, 3, none(), k("/l/5"), 0), Ok(None));
    assert_eq!(rust_SRCWRJSON_GetCell(&mut v, none(), k("/l/-"), 0), Ok(None));
    assert_eq!(rust_SRCWRJSON_GetCell(&mut v, none(), k("/l/-1"), 0), Ok(Some(2)));
    assert_eq!(rust_SRCWRJSON_GetCell(&mut v, none(), k("/l/-2"), 0), Ok(Some(1)));
    assert_eq!(rust_SRCWRJSON_SetCell(&mut v, 7, none(), k("/l/-"), 0), Ok(Some(1)));
    assert_eq!(rust_SRCWRJSON_len(&mut v, none(), k("l"), 0), Ok(3));
    assert_eq!(rust_SRCWRJSON_GetCell(&mut v, none(), k("/l/2"), 0), Ok(Some(7)));
}

#[test]
fn dash_parent_names_the_slot_past_the_end() {
    let mut v = obj(vec![("l", arr(vec![]))]);
    assert_eq!(rust_SRCWRJSON_Has(&mut v, none(), k("/l/-/x"), 0), Ok(false));
    let mut f = none();
    f.create_parents = true;
    assert_eq!(rust_SRCWRJSON_SetCell(&mut v, 4, f, k("/l/-/x"), 0), Ok(Some(1)));
    let expected = obj(vec![("l", arr(vec![obj(vec![("x", num(4))])]))]);
    assert!(v.equals(&expected));
}

#[test]
fn is_different_reports_equal_sets_only() {
    let mut v = obj(vec![("n", num(4))]);
    let mut f = none();
    f.is_different = true;
    assert_eq!(rust_SRCWRJSON_SetCell(&mut v, 4, f, k("n"), 0), Ok(Some(1)));
    assert_eq!(rust_SRCWRJSON_SetCell(&mut v, 5, f, k("n"), 0), Ok(None));
    assert_eq!(rust_SRCWRJSON_GetCell(&mut v, none(), k("n"), 0), Ok(Some(5)));
}

#[test]
fn setx_inner_swaps_the_old_value_out() {
    let mut v = obj(vec![("n", num(4))]);
    let mut other = s("z");
    assert_eq!(Setx_Inner(&mut v, &mut other, none(), k("n"), 0), Ok(Some(1)));
    assert!(other.equals(&num(4)));
    assert!(v.equals(&obj(vec![("n", s("z"))])));
}

#[test]
fn float_zero_signs_compare_equal() {
    let a = JsonValue::Number(JsonNumber::Float(0x8000_0000_0000_0000));
    let b = JsonValue::Number(JsonNumber::Float(0));
    assert!(a.equals(&b));
    let one = JsonValue::Number(JsonNumber::Float(0x3ff0_0000_0000_0000));
    assert!(!one.equals(&num(1)));
}

#[test]
fn typed_setters_and_getters() {
    let mut v = obj(vec![]);
    assert_eq!(rust_SRCWRJSON_SetBool(&mut v, true, none(), k("b"), 0), Ok(Some(1)));
    assert_eq!(rust_SRCWRJSON_GetBool(&mut v, none(), k("b"), 0), Ok(Some(1)));
    assert_eq!(rust_SRCWRJSON_SetI64(&mut v, 0x1_0000_0005, none(), k("i"), 0), Ok(Some(1)));
    let mut buf: i64 = 0;
    assert_eq!(rust_SRCWRJSON_GetI64(&mut v, &mut buf, none(), k("i"), 0), Ok(Some(5)));
    assert_eq!(buf, 0x1_0000_0005);
    assert_eq!(rust_SRCWRJSON_SetNull(&mut v, none(), k("n"), 0), Ok(Some(1)));
    assert_eq!(rust_SRCWRJSON_IsNull(&mut v, none(), k("n"), 0), Ok(Some(1)));
    assert_eq!(rust_SRCWRJSON_IsNull(&mut v, none(), k("b"), 0), Ok(None));
    assert_eq!(rust_SRCWRJSON_SetString(&mut v, b"hi\0junk", 0, none(), k("s"), 0), Ok(Some(1)));
    let mut out = vec![7u8; 8];
    assert_eq!(rust_SRCWRJSON_GetString(&mut v, &mut out, none(), k("s"), 0), Ok(Some(2)));
    assert_eq!(&out[..3], b"hi\0");
    assert_eq!(rust_SRCWRJSON_SetCell(&mut v, -7, none(), k("neg"), 0), Ok(Some(1)));
    assert_eq!(rust_SRCWRJSON_GetCell(&mut v, none(), k("neg"), 0), Ok(Some(-7)));
    assert_eq!(rust_SRCWRJSON_SetCell(&mut v, 0, none(), k("zero"), 0), Ok(Some(1)));
    assert_eq!(rust_SRCWRJSON_GetCell(&mut v, none(), k("zero"), 0), Ok(None));
}

#[test]
fn get_string_truncates_and_refuses_small_buffers() {
    let mut v = obj(vec![("s", s("abcdef"))]);
    let mut out = vec![0u8; 4];
    assert_eq!(rust_SRCWRJSON_GetString(&mut v, &mut out, none(), k("s"), 0), Ok(Some(3)));
    assert_eq!(out, b"abc\0".to_vec());
    let mut small = vec![9u8; 1];
    assert_eq!(rust_SRCWRJSON_GetString(&mut v, &mut small, none(), k("s"), 0), Ok(None));
    assert_eq!(small, vec![9u8]);
    let mut a = arr(vec![s("xy")]);
    let mut out2 = vec![0u8; 5];
    assert_eq!(rust_SRCWRJSON_GetStringIdx(&mut a, &mut out2, none(), 0), Ok(Some(2)));
    assert_eq!(&out2[..3], b"xy\0");
}

#[test]
fn set_string_rejects_empty_and_invalid_utf8() {
    let mut v = obj(vec![]);
    assert_eq!(rust_SRCWRJSON_SetString(&mut v, b"\0", 0, none(), k("s"), 0), Ok(None));
    assert_eq!(rust_SRCWRJSON_SetString(&mut v, &[0xff, 0xfe], 2, none(), k("s"), 0), Ok(None));
    let mut f = none();
    f.unchecked_utf8_val = true;
    assert_eq!(rust_SRCWRJSON_SetString(&mut v, &[0xff, 0xfe], 2, f, k("s"), 0), Ok(Some(1)));
    assert_eq!(rust_SRCWRJSON_len(&mut v, none(), k("s"), 0), Ok(2));
}

#[test]
fn toggle_twice_restores() {
    let mut v = obj(vec![("t", JsonValue::Bool(false))]);
    assert_eq!(rust_SRCWRJSON_ToggleBool(&mut v, none(), k("t"), 0), Ok(Some(1)));
    assert_eq!(rust_SRCWRJSON_ToggleBool(&mut v, none(), k("t"), 0), Ok(None));
    assert!(v.equals(&obj(vec![("t", JsonValue::Bool(false))])));
    assert_eq!(rust_SRCWRJSON_ToggleBool(&mut v, none(), k("fresh"), 0), Ok(Some(1)));
    assert_eq!(rust_SRCWRJSON_GetBool(&mut v, none(), k("fresh"), 0), Ok(Some(1)));
    let mut n = obj(vec![("x", num(1))]);
    assert_eq!(rust_SRCWRJSON_ToggleBool(&mut n, none(), k("x"), 0), Ok(None));
    assert!(n.equals(&obj(vec![("x", num(1))])));
}

#[test]
fn clear_empties_and_zeroes() {
    let mut v = sample();
    assert_eq!(rust_SRCWRJSON_Clear(&mut v, none(), k("b"), 0), Ok(Some(1)));
    assert_eq!(rust_SRCWRJSON_len(&mut v, none(), k("b"), 0), Ok(0));
    assert_eq!(rust_SRCWRJSON_Clear(&mut v, none(), k("a"), 0), Ok(Some(1)));
    assert!(rust_SRCWRJSON_Get(&mut v, none(), k("a"), 0).unwrap().unwrap().equals(&num(0)));
    assert_eq!(rust_SRCWRJSON_Clear(&mut v, none(), k("/c/d"), 0), Ok(Some(1)));
    assert_eq!(rust_SRCWRJSON_GetBool(&mut v, none(), k("/c/d"), 0), Ok(None));
    assert_eq!(rust_SRCWRJSON_Clear(&mut v, none(), k("s"), 0), Ok(Some(1)));
    assert_eq!(rust_SRCWRJSON_len(&mut v, none(), k("s"), 0), Ok(0));
    assert_eq!(rust_SRCWRJSON_Clear(&mut v, none(), k("none"), 0), Ok(None));
}

#[test]
fn replace_cell_swaps_integers() {
    let mut v = obj(vec![("n", num(0x1_0000_0003)), ("s", s("x"))]);
    assert_eq!(rust_SRCWRJSON_ReplaceCell(&mut v, 8, none(), k("n"), 0), Ok(Some(3)));
    assert_eq!(rust_SRCWRJSON_GetCell(&mut v, none(), k("n"), 0), Ok(Some(8)));
    assert_eq!(rust_SRCWRJSON_ReplaceCell(&mut v, 8, none(), k("s"), 0), Ok(None));
    assert!(rust_SRCWRJSON_Get(&mut v, none(), k("s"), 0).unwrap().unwrap().equals(&s("x")));
}

#[test]
fn replace_cell_idx_indexes_twice() {
    let mut v = arr(vec![arr(vec![num(1), num(2)]), arr(vec![num(5), num(6)])]);
    assert_eq!(rust_SRCWRJSON_ReplaceCellIdx(&mut v, 9, none(), 1), Ok(Some(6)));
    assert!(v.equals(&arr(vec![arr(vec![num(1), num(2)]), arr(vec![num(5), num(9)])])));
    assert_eq!(rust_SRCWRJSON_ReplaceCellIdx(&mut v, 9, none(), 5), Err(IndexPanic));
}

#[test]
fn remove_plain_and_pointer() {
    let mut v = sample();
    assert_eq!(rust_SRCWRJSON_Remove(&mut v, none(), b"a\0", 0), Some(1));
    assert_eq!(rust_SRCWRJSON_Has(&mut v, none(), k("a"), 0), Ok(false));
    assert_eq!(rust_SRCWRJSON_Remove(&mut v, none(), b"a\0", 0), None);
    assert_eq!(rust_SRCWRJSON_Remove(&mut v, none(), b"/b/0\0", 0), Some(1));
    assert!(rust_SRCWRJSON_Get(&mut v, none(), k("b"), 0).unwrap().unwrap().equals(&arr(vec![num(20), s("x")])));
    let mut f = none();
    f.swap_remove = true;
    let mut w = arr(vec![num(1), num(2), num(3), num(4)]);
    let mut holder = obj(vec![("w", w)]);
    assert_eq!(rust_SRCWRJSON_Remove(&mut holder, f, b"/w/0\0", 0), Some(1));
    w = rust_SRCWRJSON_Get(&mut holder, none(), k("w"), 0).unwrap().unwrap();
    assert!(w.equals(&arr(vec![num(4), num(2), num(3)])));
    assert_eq!(rust_SRCWRJSON_Remove(&mut holder, none(), b"/w/9\0", 0), None);
}

#[test]
fn fill_keys_in_order() {
    let mut v = sample();
    let keys = rust_SRCWRJSON_FillKeys(&mut v, none(), None, 0).unwrap().unwrap();
    assert_eq!(keys, vec![b"a".to_vec(), b"b".to_vec(), b"c".to_vec(), b"s".to_vec()]);
    assert!(rust_SRCWRJSON_FillKeys(&mut v, none(), k("b"), 0).unwrap().is_none());
}

#[test]
fn set_zss_copies_between_values() {
    let mut a = obj(vec![]);
    let mut b = obj(vec![("src", arr(vec![num(1)]))]);
    assert_eq!(rust_SRCWRJSON_SetZss(&mut a, none(), Some(b"dst\0"), &mut b, k("src"), 0), Ok(Some(1)));
    assert!(a.equals(&obj(vec![("dst", arr(vec![num(1)]))])));
    assert_eq!(rust_SRCWRJSON_SetZss(&mut a, none(), Some(b"dst\0"), &mut b, k("nope"), 0), Ok(None));
}

#[test]
fn set_from_string_uses_the_parsed_value() {
    let mut v = obj(vec![]);
    assert_eq!(rust_SRCWRJSON_SetFromString(&mut v, Some(num(3)), none(), k("p"), 0), Ok(Some(1)));
    assert_eq!(rust_SRCWRJSON_GetCell(&mut v, none(), k("p"), 0), Ok(Some(3)));
    assert_eq!(rust_SRCWRJSON_SetFromString(&mut v, None, none(), k("q"), 0), Ok(None));
    assert_eq!(rust_SRCWRJSON_Has(&mut v, none(), k("q"), 0), Ok(false));
}

#[test]
fn index_natives_count_negative_from_the_end() {
    let mut v = arr(vec![num(1), num(2), num(3)]);
    assert!(rust_SRCWRJSON_GetIdx(&mut v, none(), (-1i32) as usize).unwrap().unwrap().equals(&num(3)));
    assert!(rust_SRCWRJSON_GetIdx(&mut v, none(), (-3i32) as usize).unwrap().unwrap().equals(&num(1)));
    assert!(rust_SRCWRJSON_GetIdx(&mut v, none(), (-4i32) as usize).unwrap().is_none());
    assert_eq!(rust_SRCWRJSON_GetIdx(&mut v, none(), 3).map(|x| x.is_some()), Err(IndexPanic));
    assert_eq!(rust_SRCWRJSON_GetCellIdx(&mut v, none(), 1), Ok(Some(2)));
    let mut empty = arr(vec![]);
    assert_eq!(rust_SRCWRJSON_GetIdx(&mut empty, none(), (-1i32) as usize).map(|x| x.is_some()), Err(IndexPanic));
}

#[test]
fn set_idx_grows_with_nulls() {
    let mut v = arr(vec![num(1)]);
    let mut x = s("e");
    assert_eq!(rust_SRCWRJSON_SetIdx(&mut v, 3, &mut x, none()), Ok(Some(1)));
    assert!(v.equals(&arr(vec![num(1), JsonValue::Null, JsonValue::Null, s("e")])));
    assert_eq!(rust_SRCWRJSON_IsNullIdx(&v, none(), 1), Some(1));
    assert_eq!(rust_SRCWRJSON_IsNullIdx(&v, none(), 3), None);
    assert_eq!(rust_SRCWRJSON_SetCellIdx(&mut v, 4, none(), (-1i32) as usize), Ok(Some(1)));
    assert_eq!(rust_SRCWRJSON_GetCellIdx(&mut v, none(), 3), Ok(Some(4)));
    assert_eq!(rust_SRCWRJSON_SetCellIdx(&mut v, 4, none(), (-9i32) as usize), Ok(None));
    let mut empty = arr(vec![]);
    assert_eq!(rust_SRCWRJSON_SetCellIdx(&mut empty, 1, none(), (-1i32) as usize), Err(IndexPanic));
    let mut not_array = obj(vec![]);
    assert_eq!(rust_SRCWRJSON_SetCellIdx(&mut not_array, 1, none(), 0), Ok(None));
}

#[test]
fn set_string_idx_moves_the_string() {
    let mut v = arr(vec![]);
    assert_eq!(rust_SRCWRJSON_SetStringIdx(&mut v, b"zz\0", 0, none(), 0), Ok(Some(1)));
    assert!(v.equals(&arr(vec![s("zz")])));
}

#[test]
fn remove_idx_plain_and_swap() {
    let mut v = arr(vec![num(1), num(2), num(3)]);
    assert_eq!(rust_SRCWRJSON_RemoveIdx(&mut v, none(), 0), Some(1));
    assert!(v.equals(&arr(vec![num(2), num(3)])));
    let mut f = none();
    f.swap_remove = true;
    let mut w = arr(vec![num(1), num(2), num(3)]);
    assert_eq!(rust_SRCWRJSON_RemoveIdx(&mut w, f, 0), Some(1));
    assert!(w.equals(&arr(vec![num(3), num(2)])));
    assert_eq!(rust_SRCWRJSON_RemoveIdx(&mut w, none(), 5), None);
    let mut e = arr(vec![]);
    assert_eq!(rust_SRCWRJSON_RemoveIdx(&mut e, none(), (-1i32) as usize), None);
}

#[test]
fn toggle_and_bool_by_index() {
    let mut v = arr(vec![JsonValue::Null, JsonValue::Bool(true)]);
    assert_eq!(rust_SRCWRJSON_ToggleBoolIdx(&mut v, none(), 0), Ok(Some(1)));
    assert_eq!(rust_SRCWRJSON_ToggleBoolIdx(&mut v, none(), 1), Ok(None));
    assert_eq!(rust_SRCWRJSON_GetBoolIdx(&mut v, none(), 0), Ok(Some(1)));
    assert_eq!(rust_SRCWRJSON_GetBoolIdx(&mut v, none(), 1), Ok(None));
    let mut buf: i64 = 11;
    assert_eq!(rust_SRCWRJSON_GetI64Idx(&mut v, &mut buf, none(), 0), Ok(None));
    assert_eq!(buf, 11);
}

#[test]
fn constructors_and_clone() {
    let a = rust_SRCWRJSON_SRCWRJSON(true);
    assert!(a.equals(&arr(vec![])));
    let o = rust_SRCWRJSON_SRCWRJSON(false);
    assert!(o.equals(&obj(vec![])));
    let many = rust_SRCWRJSON_GetObjects(3);
    assert_eq!(many.len(), 3);
    assert!(rust_SRCWRJSON_GetObjects(-2).is_empty());
    let c = rust_SRCWRJSON_Clone(&sample());
    assert!(c.equals(&sample()));
}

#[test]
fn tostring_noalloc_frames_the_text() {
    let mut buf = vec![b'#'; 8];
    assert_eq!(tostring_noalloc(b"[1,2]", &mut buf, none()), Some(6));
    assert_eq!(buf, b"[1,2]\0##".to_vec());
    let mut small = vec![b'#'; 4];
    assert_eq!(tostring_noalloc(b"[1,2]", &mut small, none()), None);
    assert_eq!(small, b"[1,#".to_vec());
    let mut f = none();
    f.dont_null_terminate = true;
    let mut exact = vec![b'#'; 5];
    assert_eq!(tostring_noalloc(b"[1,2]", &mut exact, f), Some(5));
    assert_eq!(exact, b"[1,2]".to_vec());
}

#[test]
fn handle_size_counts_values_and_string_bytes() {
    let v = obj(vec![("a", s("abc")), ("b", arr(vec![num(1), JsonValue::Null]))]);
    assert_eq!(recursive_size_calc(&v, 10), 10 + (10 + 3) + (10 + 10 + 10));
    let mut size = 0u32;
    assert!(rust_handle_size_SRCWRJSON(&v, 10, &mut size));
    assert_eq!(size, 10 + 53);
}

#[test]
fn resolve_idx_edges() {
    assert_eq!(resolve_idx(3, 1), Some(1));
    assert_eq!(resolve_idx(3, (-1i32) as usize), Some(2));
    assert_eq!(resolve_idx(3, (-4i32) as usize), None);
    assert_eq!(resolve_idx(0, (-1i32) as usize), Some(usize::MAX));
    assert_eq!(resolve_idx(3, (i32::MIN) as usize), None);
}

#[test]
fn file_text_framing() {
    assert_eq!(stop_at_zero_len(b"{}\0"), 2);
    assert_eq!(stop_at_zero_len(b"{}"), 2);
    assert_eq!(stop_at_zero_len(b""), 0);
    assert_eq!(file_terminator(true), 0);
    assert_eq!(file_terminator(false), b'\n');
}

fn keys_in_order(v: &JsonValue) -> bool {
    match v {
        JsonValue::Object(m) => {
            m.windows(2).all(|w| w[0].key < w[1].key) && m.iter().all(|e| keys_in_order(&e.value))
        },
        JsonValue::Array(a) => a.iter().all(keys_in_order),
        _ => true,
    }
}

#[test]
fn natives_keep_object_keys_sorted() {
    let mut v = rust_SRCWRJSON_SRCWRJSON(false);
    let f = JsonFlags::none();
    for k in ["zeta", "alpha", "mid", "beta", "alpha"] {
        assert_eq!(rust_SRCWRJSON_SetI64(&mut v, 1, f, Some(k.as_bytes()), 0), Ok(Some(1)));
    }
    assert_eq!(rust_SRCWRJSON_ToggleBool(&mut v, f, Some(b"kappa"), 0), Ok(Some(1)));
    assert_eq!(rust_SRCWRJSON_ReplaceCell(&mut v, 5, f, Some(b"mid"), 0), Ok(Some(1)));
    let mut c = JsonFlags::none();
    c.create_parents = true;
    assert_eq!(rust_SRCWRJSON_SetBool(&mut v, true, c, Some(b"/nest/y/b"), 0), Ok(Some(1)));
    assert_eq!(rust_SRCWRJSON_SetBool(&mut v, true, c, Some(b"/nest/x/a"), 0), Ok(Some(1)));
    assert_eq!(rust_SRCWRJSON_Remove(&mut v, f, b"beta", 0), Some(1));
    assert!(keys_in_order(&v));
    assert_eq!(
        rust_SRCWRJSON_FillKeys(&mut v, f, None, 0),
        Ok(Some(vec![b"alpha".to_vec(), b"kappa".to_vec(), b"mid".to_vec(), b"nest".to_vec(), b"zeta".to_vec()]))
    );
}
