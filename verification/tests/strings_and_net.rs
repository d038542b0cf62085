use srcwrtimer::host::{build_path_text, load_error_into, report_error_buffer, seek_args, SeekOrigin};
use srcwrtimer::cstr::{strxx, write_to_sp_buf};
use srcwrtimer::net::{commandline_bindip, ipv4_from_str, is_benchmarking, is_global, is_reserved, is_shared, Ipv4};
use srcwrtimer::string_block::StringBlock;

fn ip(a: u8, b: u8, c: u8, d: u8) -> Ipv4 {
    Ipv4 { a, b, c, d }
}

#[test]
fn strxx_reads_c_strings() {
    assert_eq!(strxx(b"abc\0def", false, 0), Some(b"abc".to_vec()));
    assert_eq!(strxx(b"abcdef", false, 2), Some(b"ab".to_vec()));
    assert_eq!(strxx(b"\0", false, 0), None);
    assert_eq!(strxx(&[0xc3, 0x28, 0], false, 0), None);
    assert_eq!(strxx(&[0xc3, 0x28, 0], true, 0), Some(vec![0xc3, 0x28]));
}

#[test]
fn write_to_sp_buf_truncates() {
    let mut buf = vec![b'#'; 4];
    assert_eq!(write_to_sp_buf(b"hello", &mut buf), Some(3));
    assert_eq!(buf, b"hel\0".to_vec());
    let mut buf2 = vec![b'#'; 8];
    assert_eq!(write_to_sp_buf(b"hi", &mut buf2), Some(2));
    assert_eq!(buf2, b"hi\0#####".to_vec());
    let mut buf3 = vec![b'#'; 3];
    assert_eq!(write_to_sp_buf(b"", &mut buf3), None);
    assert_eq!(buf3, b"\0##".to_vec());
}

#[test]
fn string_block_push_get_find() {
    let mut sb = StringBlock::new();
    assert_eq!(sb.len(), 0);
    assert_eq!(sb.push("bhop_arcane"), 0);
    assert_eq!(sb.push("surf_mesa"), 1);
    assert_eq!(sb.push("bhop_arcane"), 2);
    assert_eq!(sb.len(), 3);
    assert_eq!(sb.get_str(1), Some("surf_mesa".to_string()));
    assert_eq!(sb.get_str(3), None);
    assert_eq!(sb.find_str("bhop_arcane"), Some(0));
    assert_eq!(sb.find_str("nope"), None);
    assert_eq!(sb.find_c_str(b"surf_mesa\0xyz"), Some(1));
    assert_eq!(sb.find_delimited_str("\0surf_mesa\0"), Some(1));
    assert_eq!(sb.find_delimited_str("\0surf\0"), None);
    assert_eq!(sb.get_str_ptr(0), Some(1));
    assert_eq!(sb.get_str_ptr(1), Some(13));
}

#[test]
fn string_block_iterators_and_clear() {
    let mut sb = StringBlock::new();
    sb.push("a");
    sb.push("bc");
    let mut it = sb.iter_str();
    assert_eq!(it.next(), Some("a".to_string()));
    assert_eq!(it.next(), Some("bc".to_string()));
    assert_eq!(it.next(), None);
    let mut ip = sb.iter_ptr();
    assert_eq!(ip.next(), Some(1));
    assert_eq!(ip.next(), Some(3));
    assert_eq!(ip.next(), None);
    sb.clear();
    assert_eq!(sb.len(), 0);
    assert_eq!(sb.find_str("a"), None);
}

#[test]
fn string_block_nul_inside_reads_short() {
    let mut sb = StringBlock::new();
    let i = sb.push("ab\0cd");
    assert_eq!(sb.get_str(i), Some("ab".to_string()));
    assert_eq!(sb.find_str("ab"), Some(0));
}

#[test]
fn string_block_delimited_search_agrees_with_find() {
    let mut sb = StringBlock::new();
    sb.push("de");
    sb.push("abc");
    sb.push("de");
    sb.push("");
    for t in ["de", "abc", "", "d", "e", "bc", "x"] {
        let delimited = format!("\0{}\0", t);
        assert_eq!(sb.find_delimited_str(&delimited), sb.find_str(t), "target {:?}", t);
    }
    assert_eq!(sb.find_delimited_str("\0de\0"), Some(0));
    assert_eq!(sb.find_delimited_str("\0\0"), Some(3));
}

#[test]
fn string_block_len_counts_pushes_since_clear() {
    let mut sb = StringBlock::new();
    sb.push("a");
    sb.push("b");
    sb.clear();
    sb.push("c");
    sb.push("d");
    sb.push("e");
    assert_eq!(sb.len(), 3);
    assert_eq!(sb.get_str(0), Some("c".to_string()));
    assert_eq!(sb.get_str(2), Some("e".to_string()));
}

#[test]
fn ipv4_parse() {
    assert_eq!(ipv4_from_str(b"1.2.3.4"), Some(ip(1, 2, 3, 4)));
    assert_eq!(ipv4_from_str(b"255.255.255.255"), Some(ip(255, 255, 255, 255)));
    assert_eq!(ipv4_from_str(b"256.1.1.1"), None);
    assert_eq!(ipv4_from_str(b"01.1.1.1"), None);
    assert_eq!(ipv4_from_str(b"1.1.1"), None);
    assert_eq!(ipv4_from_str(b"1.1.1.1.1"), None);
    assert_eq!(ipv4_from_str(b"1..1.1"), None);
    assert_eq!(ipv4_from_str(b"a.b.c.d"), None);
    assert_eq!(ipv4_from_str(b"0.0.0.0"), Some(ip(0, 0, 0, 0)));
}

#[test]
fn ipv4_classes() {
    assert!(is_shared(&ip(100, 64, 0, 1)));
    assert!(!is_shared(&ip(100, 128, 0, 1)));
    assert!(is_benchmarking(&ip(198, 19, 0, 1)));
    assert!(!is_benchmarking(&ip(198, 20, 0, 1)));
    assert!(is_reserved(&ip(240, 0, 0, 1)));
    assert!(!is_reserved(&ip(255, 255, 255, 255)));
    assert!(is_global(&ip(8, 8, 8, 8)));
    assert!(!is_global(&ip(10, 0, 0, 1)));
    assert!(!is_global(&ip(172, 16, 0, 1)));
    assert!(is_global(&ip(172, 32, 0, 1)));
    assert!(!is_global(&ip(192, 168, 1, 1)));
    assert!(!is_global(&ip(127, 0, 0, 1)));
    assert!(!is_global(&ip(169, 254, 1, 1)));
    assert!(!is_global(&ip(192, 0, 0, 8)));
    assert!(is_global(&ip(192, 0, 0, 9)));
    assert!(!is_global(&ip(192, 0, 2, 1)));
    assert!(!is_global(&ip(203, 0, 113, 5)));
    assert!(!is_global(&ip(0, 1, 2, 3)));
}

#[test]
fn bindip_from_command_line() {
    let args = |v: &[&str]| v.iter().map(|s| s.as_bytes().to_vec()).collect::<Vec<_>>();
    assert_eq!(commandline_bindip(&args(&["srcds", "-ip", "8.8.4.4", "-port"])), Some(ip(8, 8, 4, 4)));
    assert_eq!(commandline_bindip(&args(&["srcds", "+ip", "1.1.1.1"])), Some(ip(1, 1, 1, 1)));
    assert_eq!(commandline_bindip(&args(&["srcds", "-ip", "192.168.0.2"])), None);
    assert_eq!(commandline_bindip(&args(&["srcds", "-ip", "nonsense", "-ip", "8.8.8.8"])), None);
    assert_eq!(commandline_bindip(&args(&["srcds", "-port", "27015"])), None);
    assert_eq!(commandline_bindip(&args(&["srcds", "-ip"])), None);
}

#[test]
fn host_buffers_and_seek() {
    assert_eq!(seek_args(SeekOrigin::Start(5)), (5, 0));
    assert_eq!(seek_args(SeekOrigin::Current(-2)), (-2, 1));
    assert_eq!(seek_args(SeekOrigin::End(0x1_0000_0003)), (3, 2));
    assert_eq!(build_path_text(b"cfg/x.cfg\0\0\0"), b"cfg/x.cfg".to_vec());
    let r = report_error_buffer(b"oops");
    assert_eq!(r.len(), 1024);
    assert_eq!(&r[..5], b"oops\0");
    let long = vec![b'a'; 2000];
    let r2 = report_error_buffer(&long);
    assert_eq!(r2[1022], b'a');
    assert_eq!(r2[1023], 0);
    let mut buf = vec![b'#'; 6];
    assert!(!load_error_into(b"bad", &mut buf));
    assert_eq!(buf, b"bad\0#\0".to_vec());
    let mut small = vec![b'#'; 3];
    assert!(!load_error_into(b"bad", &mut small));
    assert_eq!(small, b"ba\0".to_vec());
}
