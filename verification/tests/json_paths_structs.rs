use srcwrtimer::json::natives::{rust_SRCWRJSON_Get, rust_SRCWRJSON_GetCell, rust_SRCWRJSON_Has};
use srcwrtimer::json::pointer::{as_array_idx, split_segments, unescape_segment};
use srcwrtimer::json::structs::{
    format_cells, parse_usize, rust_SRCWRJSON_GetStruct, rust_SRCWRJSON_GetStructIdx, rust_SRCWRJSON_SetStruct,
    rust_SRCWRJSON_SetStructIdx, StructFault,
};
use srcwrtimer::json::value::{JsonEntry, JsonNumber, JsonValue};
use srcwrtimer::json::walk::{sidx, JsonFlags, Located, PathStep};

fn num(n: i64) -> JsonValue {
    if n < 0 {
        JsonValue::Number(JsonNumber::NegInt(n))
    } else {
        JsonValue::Number(JsonNumber::PosInt(n as u64))
    }
}

fn obj(mut entries: Vec<(&str, JsonValue)>) -> JsonValue {
    entries.sort_by(|a, b| a.0.as_bytes().cmp(b.0.as_bytes()));
    JsonValue::Object(entries.into_iter().map(|(k, v)| JsonEntry { key: k.as_bytes().to_vec(), value: v }).collect())
}

fn cells(words: &[u32]) -> Vec<u8> {
    let mut out = Vec::new();
    for w in words {
        out.extend_from_slice(&w.to_le_bytes());
    }
    out
}

#[test]
fn as_array_idx_forms() {
    assert_eq!(as_array_idx(b"0", 5), Some(0));
    assert_eq!(as_array_idx(b"12", 5), Some(12));
    assert_eq!(as_array_idx(b"01", 5), None);
    assert_eq!(as_array_idx(b"-", 5), Some(5));
    assert_eq!(as_array_idx(b"-2", 5), Some(3));
    assert_eq!(as_array_idx(b"-0", 5), Some(0));
    assert_eq!(as_array_idx(b"-6", 5), Some(usize::MAX));
    assert_eq!(as_array_idx(b"1a", 5), None);
    assert_eq!(as_array_idx(b"", 5), None);
    assert_eq!(as_array_idx(b"-x", 5), None);
}

#[test]
fn unescape_pointer_segments() {
    assert_eq!(unescape_segment(b"a~1b"), b"a/b".to_vec());
    assert_eq!(unescape_segment(b"a~0b"), b"a~b".to_vec());
    assert_eq!(unescape_segment(b"~01"), b"~1".to_vec());
    assert_eq!(unescape_segment(b"~00"), b"~0".to_vec());
    assert_eq!(unescape_segment(b"~0~1~00"), b"~/~0".to_vec());
    assert_eq!(unescape_segment(b"plain"), b"plain".to_vec());
}

#[test]
fn split_segments_skips_empty_ones() {
    assert_eq!(split_segments(b"/a//b/"), vec![b"a".to_vec(), b"b".to_vec()]);
    assert_eq!(split_segments(b"/"), Vec::<Vec<u8>>::new());
}

#[test]
fn sidx_reports_the_path() {
    let mut v = obj(vec![("a", JsonValue::Array(vec![num(1), obj(vec![("b", num(2))])]))]);
    match sidx(&mut v, Some(b"/a/1/b"), 0, JsonFlags::none(), false) {
        Located::Found(p) => {
            assert_eq!(p.len(), 3);
            assert!(matches!(&p[1], PathStep::Index(1)));
        },
        other => panic!("unexpected {:?}", other),
    }
    assert!(matches!(sidx(&mut v, Some(b"/a/9/b"), 0, JsonFlags::none(), false), Located::Missing));
}

#[test]
fn pointer_key_that_is_only_slashes_leads_nowhere() {
    let mut v = obj(vec![("a", num(1))]);
    assert_eq!(rust_SRCWRJSON_Has(&mut v, JsonFlags::none(), Some(b"//"), 0), Ok(false));
}

#[test]
fn parse_usize_accepts_plus() {
    assert_eq!(parse_usize(b"+7"), Some(7));
    assert_eq!(parse_usize(b"42"), Some(42));
    assert_eq!(parse_usize(b"-1"), None);
    assert_eq!(parse_usize(b""), None);
    assert_eq!(parse_usize(b"+"), None);
}

#[test]
fn get_struct_fills_cells() {
    let mut v = obj(vec![
        ("i", num(-2)),
        ("b", JsonValue::Bool(true)),
        ("f", JsonValue::Number(JsonNumber::Float(0x3ff0_0000_0000_0000))),
        ("s", JsonValue::String(b"hey".to_vec())),
        ("a", JsonValue::Array(vec![num(5), num(6)])),
    ]);
    let mut buf = cells(&[0xffff_ffff; 7]);
    let (patches, out) = rust_SRCWRJSON_GetStruct(&mut v, &mut buf, b"i,int|b,bool|f,float|s,char,4|a,int,2\0", JsonFlags::none(), None, 0);
    assert_eq!(out, Ok(()));
    assert_eq!(&buf[0..4], &(-2i32 as u32).to_le_bytes());
    assert_eq!(&buf[4..8], &1u32.to_le_bytes());
    assert_eq!(patches.len(), 1);
    assert_eq!(patches[0].0, 2);
    assert_eq!(&buf[12..16], b"hey\0");
    assert_eq!(&buf[16..20], &5u32.to_le_bytes());
    assert_eq!(&buf[20..24], &6u32.to_le_bytes());
    assert_eq!(&buf[24..28], &0xffff_ffffu32.to_le_bytes());
}

#[test]
fn get_struct_stops_at_a_mismatch() {
    let mut v = obj(vec![("i", num(3)), ("s", JsonValue::String(b"x".to_vec()))]);
    let mut buf = cells(&[9, 9]);
    let (_, out) = rust_SRCWRJSON_GetStruct(&mut v, &mut buf, b"s,int|i,int\0", JsonFlags::none(), None, 0);
    assert_eq!(out, Ok(()));
    assert_eq!(buf, cells(&[9, 9]));
    let (_, out2) = rust_SRCWRJSON_GetStruct(&mut v, &mut buf, b"i,int|i,int|i,int\0", JsonFlags::none(), None, 0);
    assert_eq!(out2, Err(StructFault::Overrun));
    assert_eq!(buf, cells(&[3, 3]));
}

#[test]
fn get_struct_char_of_zero_bytes_panics() {
    let mut v = obj(vec![("s", JsonValue::String(b"x".to_vec()))]);
    let mut buf = cells(&[0, 0]);
    let (_, out) = rust_SRCWRJSON_GetStruct(&mut v, &mut buf, b"s,char,0\0", JsonFlags::none(), None, 0);
    assert_eq!(out, Err(StructFault::Panics));
}

#[test]
fn set_struct_reads_cells() {
    let mut v = obj(vec![]);
    let mut buf = cells(&[(-5i32) as u32, 0, 7, 8, 0]);
    buf[12..16].copy_from_slice(b"ab\0\0");
    let floats: Vec<JsonValue> = (0..5).map(|_| JsonValue::Null).collect();
    let out = rust_SRCWRJSON_SetStruct(&mut v, &buf, &floats, b"i,int|b,bool|arr,int,1|t,char,4\0", JsonFlags::none(), None, 0);
    assert_eq!(out, Ok(()));
    assert_eq!(rust_SRCWRJSON_GetCell(&mut v, JsonFlags::none(), Some(b"i"), 0), Ok(Some(-5)));
    assert!(rust_SRCWRJSON_Get(&mut v, JsonFlags::none(), Some(b"b"), 0).unwrap().unwrap().equals(&JsonValue::Bool(false)));
    assert!(rust_SRCWRJSON_Get(&mut v, JsonFlags::none(), Some(b"arr"), 0).unwrap().unwrap().equals(&JsonValue::Array(vec![num(7)])));
    assert!(rust_SRCWRJSON_Get(&mut v, JsonFlags::none(), Some(b"t"), 0).unwrap().unwrap().equals(&JsonValue::String(b"ab".to_vec())));
}

#[test]
fn set_struct_float_cells_come_from_the_given_values() {
    let mut v = obj(vec![]);
    let buf = cells(&[0x3f80_0000]);
    let floats = vec![JsonValue::Number(JsonNumber::Float(0x3ff0_0000_0000_0000))];
    let out = rust_SRCWRJSON_SetStruct(&mut v, &buf, &floats, b"f,float\0", JsonFlags::none(), None, 0);
    assert_eq!(out, Ok(()));
    assert!(rust_SRCWRJSON_Get(&mut v, JsonFlags::none(), Some(b"f"), 0).unwrap().unwrap().equals(&floats[0]));
}

#[test]
fn struct_by_index_natives() {
    let mut v = JsonValue::Array(vec![obj(vec![("x", num(4))])]);
    let mut buf = cells(&[0]);
    let (_, out) = rust_SRCWRJSON_GetStructIdx(&mut v, &mut buf, b"x,int\0", JsonFlags::none(), 0);
    assert_eq!(out, Ok(()));
    assert_eq!(buf, cells(&[4]));
    let floats = vec![JsonValue::Null];
    assert_eq!(rust_SRCWRJSON_SetStructIdx(&mut v, &cells(&[1]), &floats, b"x,int\0", JsonFlags::none(), 0), Ok(None));
    assert_eq!(rust_SRCWRJSON_GetCell(&mut v, JsonFlags::none(), Some(b"/0/x"), 0), Ok(Some(4)));
}

#[test]
fn get_struct_reads_back_set_struct_int_and_bool_fields() {
    let mut v = obj(vec![("p", obj(vec![("old", num(1))]))]);
    let written = cells(&[0xdead_beef, 1, 0xffff_fff6, 0]);
    let floats: Vec<JsonValue> = (0..4).map(|_| JsonValue::Null).collect();
    let fmt = b"w,int|x,bool|y,int|z,bool\0";
    assert_eq!(rust_SRCWRJSON_SetStruct(&mut v, &written, &floats, fmt, JsonFlags::none(), Some(b"p"), 0), Ok(()));
    let mut read = cells(&[7, 7, 7, 7, 9]);
    let (patches, out) = rust_SRCWRJSON_GetStruct(&mut v, &mut read, fmt, JsonFlags::none(), Some(b"p"), 0);
    assert_eq!(out, Ok(()));
    assert!(patches.is_empty());
    assert_eq!(&read[..16], &written[..]);
    assert_eq!(&read[16..], &9u32.to_le_bytes());
    for f in [b"one,int\0".as_slice(), b"two,bool\0".as_slice()] {
        let src = cells(&[1]);
        let one_float = vec![JsonValue::Null];
        assert_eq!(rust_SRCWRJSON_SetStruct(&mut v, &src, &one_float, f, JsonFlags::none(), Some(b"p"), 0), Ok(()));
        let mut back = cells(&[5, 6]);
        let (_, out) = rust_SRCWRJSON_GetStruct(&mut v, &mut back, f, JsonFlags::none(), Some(b"p"), 0);
        assert_eq!(out, Ok(()));
        assert_eq!(back, cells(&[1, 6]));
    }
}

#[test]
fn format_cells_counts_the_cells_a_format_names() {
    assert_eq!(format_cells(b"i,int|b,bool|f,float|s,char,4|a,int,2"), 6);
    assert_eq!(format_cells(b"s,char,5"), 2);
    assert_eq!(format_cells(b"s,char"), 1);
    assert_eq!(format_cells(b"x"), 1);
    assert_eq!(format_cells(b""), 1);
    assert_eq!(format_cells(b"a,int,+3|b,int,zz"), 4);
    assert_eq!(format_cells(b"a,int,18446744073709551615|b,int"), usize::MAX);
}

#[test]
fn get_struct_hands_back_float_numbers_set_struct_stored() {
    let mut v = obj(vec![("p", obj(vec![]))]);
    let written = cells(&[3, 0x3fc0_0000, 1]);
    let floats = vec![JsonValue::Null, JsonValue::Number(JsonNumber::Float(0x3ff8_0000_0000_0000)), JsonValue::Null];
    let fmt = b"i,int|f,float|b,bool\0";
    assert_eq!(rust_SRCWRJSON_SetStruct(&mut v, &written, &floats, fmt, JsonFlags::none(), Some(b"p"), 0), Ok(()));
    let mut read = cells(&[9, 9, 9]);
    let (patches, out) = rust_SRCWRJSON_GetStruct(&mut v, &mut read, fmt, JsonFlags::none(), Some(b"p"), 0);
    assert_eq!(out, Ok(()));
    assert_eq!(read, cells(&[3, 9, 1]));
    assert_eq!(patches.len(), 1);
    assert_eq!(patches[0].0, 1);
    assert!(matches!(patches[0].1, JsonNumber::Float(0x3ff8_0000_0000_0000)));
}
