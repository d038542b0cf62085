use srcwrtimer::bz2::{level_usable, rust_BZ2_XompressFile, worker_result, Bz2Stage, BzError};
use srcwrtimer::http::{
    body_plan, failed_response, forward_texts, rust_SRCWRHTTPResp_header, rust_SRCWRWebsocketMsg_get,
    rust_SRCWRWebsocketMsg_length_get, rust_handle_size_SRCWRHTTPReq, rust_handle_size_SRCWRHTTPResp, BodyPlan,
    CallbackInfo, HttpReq, HttpResp, yeah, rust_SRCWRHTTPReq_SRCWRHTTPReq, header_pair, BadHeaderName, IpAddress,
};
use srcwrtimer::json::natives::tostring_noalloc;
use srcwrtimer::json::walk::JsonFlags;
use srcwrtimer::util::{rust_sdk_on_load, sha1_hex_into, SmolStringList};
use srcwrtimer::ws::{
    decimal_text, rust_handle_size_SRCWRWebsocketMsg, ws_step, ForwardKind, ServerEvent, WsAction, WsDispatch,
    WsEvent, WsInner, WsMsg, WsRegistry, WsRemoved, WsState, StreamMissing,
};

#[test]
fn sha1_of_abc() {
    let mut buf = vec![0u8; 40];
    assert_eq!(sha1_hex_into(b"abc", &mut buf), Some(3));
    assert_eq!(buf, b"a9993e364706816aba3e25717850c26c9cd0d89d".to_vec());
    let mut buf2 = vec![0u8; 40];
    assert_eq!(sha1_hex_into(b"", &mut buf2), None);
    assert_eq!(buf2, b"da39a3ee5e6b4b0d3255bfef95601890afd80709".to_vec());
}

#[test]
fn smol_list_and_load() {
    let mut l = SmolStringList;
    let mut size = 5u32;
    assert!(!l.rust_handle_size_SmolStringList(&mut size));
    assert_eq!(size, 5);
    assert!(rust_sdk_on_load(false).is_ok());
}

#[test]
fn bz2_job_and_results() {
    let info = rust_BZ2_XompressFile(b"a\0", b"b\0", b"/x/a\0", b"/x/b\0", -1, 7).unwrap();
    assert_eq!(info.infile, b"a".to_vec());
    assert_eq!(info.outfilefull, b"/x/b".to_vec());
    assert_eq!(info.compression_level, None);
    assert_eq!(info.data, 7);
    assert!(rust_BZ2_XompressFile(b"\0", b"b\0", b"c\0", b"d\0", 9, 0).is_none());
    assert_eq!(rust_BZ2_XompressFile(b"a\0", b"b\0", b"c\0", b"d\0", 9, 0).unwrap().compression_level, Some(9));
    assert_eq!(worker_result(Bz2Stage::InputNotOpened), BzError::BZ_IO_ERROR_INPUT);
    assert_eq!(worker_result(Bz2Stage::OutputNotCreated), BzError::BZ_IO_ERROR_OUTPUT);
    assert_eq!(worker_result(Bz2Stage::Copied { copy_ok: true, flush_ok: true }), BzError::BZ_OK);
    assert_eq!(worker_result(Bz2Stage::Copied { copy_ok: true, flush_ok: false }), BzError::BZ_IO_ERROR);
    assert!(level_usable(None));
    assert!(level_usable(Some(9)));
    assert!(!level_usable(Some(0)));
    assert!(!level_usable(Some(10)));
}

#[test]
fn decimal_digits() {
    assert_eq!(decimal_text(0), b"0".to_vec());
    assert_eq!(decimal_text(1000), b"1000".to_vec());
    assert_eq!(decimal_text(65535), b"65535".to_vec());
}

#[test]
fn ws_step_decisions() {
    match ws_step(WsEvent::FromServer(ServerEvent::Close(Some((1000, b"bye".to_vec()))))) {
        WsAction::Fail(t) => assert_eq!(t, b"Code 1000 - bye".to_vec()),
        _ => panic!("expected a failure"),
    }
    match ws_step(WsEvent::FromServer(ServerEvent::Close(None))) {
        WsAction::Fail(t) => assert_eq!(t, b"Unknown".to_vec()),
        _ => panic!("expected a failure"),
    }
    match ws_step(WsEvent::FromPlugin(None)) {
        WsAction::Fail(t) => assert_eq!(t, b"Failed to receive message from sourcepawn".to_vec()),
        _ => panic!("expected a failure"),
    }
    match ws_step(WsEvent::FromServer(ServerEvent::Ended)) {
        WsAction::Fail(t) => assert_eq!(t, b"Failed to read next WS message".to_vec()),
        _ => panic!("expected a failure"),
    }
    assert!(matches!(ws_step(WsEvent::FromServer(ServerEvent::Binary(vec![0xff]))), WsAction::Nothing));
    assert!(matches!(ws_step(WsEvent::FromServer(ServerEvent::Binary(b"ok".to_vec()))), WsAction::ForwardText(t) if t == b"ok".to_vec()));
    assert!(matches!(ws_step(WsEvent::FromServer(ServerEvent::Ping(vec![1]))), WsAction::SendPong(t) if t == vec![1]));
    assert!(matches!(ws_step(WsEvent::FromServer(ServerEvent::Pong)), WsAction::Nothing));
    assert!(matches!(ws_step(WsEvent::Connected), WsAction::AnnounceOpen));
    let close = WsMsg { streamid: 1, state: WsState::Closed, text: vec![] };
    assert!(matches!(ws_step(WsEvent::FromPlugin(Some(close))), WsAction::CloseAndFinish));
    let msg = WsMsg { streamid: 1, state: WsState::Msg, text: b"hi".to_vec() };
    assert!(matches!(ws_step(WsEvent::FromPlugin(Some(msg))), WsAction::SendText(t) if t == b"hi".to_vec()));
}

#[test]
fn ws_registry_lifecycle() {
    let mut reg = WsRegistry::new();
    let id = reg.rust_SRCWRWebsocket_SRCWRWebsocket();
    assert_eq!(id, 1);
    assert_eq!(reg.rust_SRCWRWebsocket_SRCWRWebsocket(), 2);
    reg.rust_SRCWRWebsocket_set_handle(id, 77);
    assert!(reg.is_request(id));
    assert_eq!(reg.rust_SRCWRWebsocket_write_str_inner(id, b"hello\0"), None);
    assert_eq!(reg.rust_SRCWRWebsocket_YEET(id, b"no host\0", 5), Ok(None));
    assert_eq!(reg.rust_SRCWRWebsocket_YEET(id, b"\0", 5), Ok(None));
    assert!(reg.is_request(id));
    assert_eq!(reg.rust_SRCWRWebsocket_YEET(99, b"ws://x\0", 5), Err(StreamMissing));
    assert_eq!(reg.rust_SRCWRWebsocket_YEET(99, b"no host\0", 5), Ok(None));
    assert_eq!(reg.rust_SRCWRWebsocket_YEET(id, b"ws://x\0", 5), Ok(Some(1)));
    assert!(!reg.is_request(id));
    assert_eq!(reg.rust_SRCWRWebsocket_YEET(id, b"ws://x\0", 5), Ok(None));
    assert_eq!(reg.rust_SRCWRWebsocket_write_str_inner(id, b"hello\0"), Some(b"hello".to_vec()));
    match reg.handle_from_async(id, WsState::Msg) {
        WsDispatch::Forward { stream, kind, removed } => {
            assert_eq!(stream.handle, 77);
            assert_eq!(stream.user_value, 5);
            assert_eq!(kind, ForwardKind::Message);
            assert!(!removed);
        },
        other => panic!("unexpected {:?}", other),
    }
    assert!(matches!(reg.handle_from_async(2, WsState::Open), WsDispatch::Panics));
    assert!(matches!(reg.handle_from_async(99, WsState::Open), WsDispatch::Unknown));
    match reg.handle_from_async(id, WsState::Closed) {
        WsDispatch::Forward { kind, removed, .. } => {
            assert_eq!(kind, ForwardKind::Connection);
            assert!(removed);
        },
        other => panic!("unexpected {:?}", other),
    }
    assert!(matches!(reg.rust_handle_destroy_SRCWRWebsocket(id), WsRemoved::Missing));
    match reg.rust_handle_destroy_SRCWRWebsocket(2) {
        WsRemoved::Removed { stream, stop_writer } => {
            assert_eq!(stream.inner, WsInner::Request);
            assert!(!stop_writer);
        },
        WsRemoved::Missing => panic!("stream 2 should exist"),
    }
}

#[test]
fn ws_msg_natives() {
    let m = WsMsg { streamid: 3, state: WsState::Msg, text: b"payload".to_vec() };
    let mut buf = vec![0u8; 4];
    assert_eq!(rust_SRCWRWebsocketMsg_get(&m, &mut buf), Some(3));
    assert_eq!(buf, b"pay\0".to_vec());
    assert_eq!(rust_SRCWRWebsocketMsg_length_get(&m), 7);
    let mut size = 0u32;
    assert!(rust_handle_size_SRCWRWebsocketMsg(&m, 16, &mut size));
    assert_eq!(size, 23);
}

#[test]
fn request_building() {
    let mut r = HttpReq::new();
    assert_eq!(r.rust_SRCWRHTTPReq_max_redirections_get(), 10);
    assert_eq!(r.rust_SRCWRHTTPReq_timeout_get(), 30000);
    assert_eq!(r.rust_SRCWRHTTPReq_connect_timeout_get(), 10000);
    assert_eq!(r.rust_SRCWRHTTPReq_body_add(0, b"ab\0zz"), Some(1));
    assert_eq!(r.rust_SRCWRHTTPReq_body_add(3, b"cde"), Some(1));
    assert_eq!(r.body, Some(b"abcde".to_vec()));
    assert_eq!(r.rust_SRCWRHTTPReq_body_set(0, b"x\0"), Some(1));
    assert_eq!(r.body, Some(b"x".to_vec()));
    assert_eq!(r.rust_SRCWRHTTPReq_body_add_file_on_send(b"/tmp/f\0"), Some(1));
    assert_eq!(r.rust_SRCWRHTTPReq_body_add_file_on_send(b"\0"), None);
    assert_eq!(r.rust_SRCWRHTTPReq_basic_auth(b"user\0", b"\0"), Some(1));
    assert_eq!(r.basic_auth, Some((b"user".to_vec(), None)));
    assert_eq!(r.set_download_path(b"out.bin\0"), Some(1));
    r.rust_SRCWRHTTPReq_timeout_set(5);
    r.rust_SRCWRHTTPReq_max_redirections_set(1);
    r.rust_SRCWRHTTPReq_connect_timeout_set(2);
    r.rust_SRCWRHTTPReq_allow_invalid_certs();
    assert_eq!(r.rust_SRCWRHTTPReq_header(b"X-Test\0", b"one\0"), Ok(Some(1)));
    assert_eq!(r.rust_SRCWRHTTPReq_header(b"Accept\0", b"*/*\0"), Ok(Some(1)));
    assert_eq!(r.rust_SRCWRHTTPReq_header(b"x-test\0", b"three\0"), Ok(Some(1)));
    assert_eq!(
        r.headers,
        Some(vec![(b"X-Test".to_vec(), b"three".to_vec()), (b"Accept".to_vec(), b"*/*".to_vec())])
    );
    let mut size = 0u32;
    assert!(rust_handle_size_SRCWRHTTPReq(&r, 100, 7, &mut size));
    assert_eq!(size, 100 + (6 + 5) + (6 + 3) + 1 + 6 + 4 + 7 + 7);
    let sent = r.take_for_send(42, Some(0x1234), Some(b"DELETE\0"));
    assert_eq!(sent.cbinfo.user_value, 42);
    assert_eq!(sent.cbinfo.forward, Some(0x1234));
    assert_eq!(sent.method, b"DELETE".to_vec());
    assert_eq!(sent.headers.as_ref().map(|h| h.len()), Some(2));
    assert_eq!(r.method, b"GET".to_vec());
    assert_eq!(r.headers, None);
    assert_eq!(r.cbinfo.forward, None);
    assert_eq!(sent.timeout, 5);
    assert!(sent.allow_invalid_certs);
    assert_eq!(r.rust_SRCWRHTTPReq_timeout_get(), 0);
    assert_eq!(r.body, None);
    match body_plan(sent.body, sent.body_file_on_send) {
        BodyPlan::BytesThenFile(b, f) => {
            assert_eq!(b, b"x".to_vec());
            assert_eq!(f, b"/tmp/f".to_vec());
        },
        other => panic!("unexpected {:?}", other),
    }
    assert!(matches!(body_plan(None, None), BodyPlan::NoBody));
}

#[test]
fn response_reading() {
    let cb = CallbackInfo { user_value: 3, forward: None, download_path: Some(b"dl".to_vec()) };
    let mut resp = HttpResp { status: 200, text: Some(b"text!".to_vec()), bytes: b"raw-bytes".to_vec(), cbinfo: cb, e: None };
    let mut buf = vec![0u8; 6];
    assert_eq!(resp.rust_SRCWRHTTPResp_get(&mut buf, 0), Some(5));
    assert_eq!(buf, b"text!\0".to_vec());
    let mut buf2 = vec![0u8; 4];
    assert_eq!(resp.rust_SRCWRHTTPResp_get(&mut buf2, 1), Some(3));
    assert_eq!(buf2, b"raw\0".to_vec());
    let mut tiny = vec![0u8; 1];
    assert_eq!(resp.rust_SRCWRHTTPResp_get(&mut tiny, 1), None);
    assert_eq!(resp.rust_SRCWRHTTPResp_status_get(), 200);
    assert_eq!(resp.rust_SRCWRHTTPResp_text_length_get(), 5);
    assert_eq!(resp.rust_SRCWRHTTPResp_byte_length_get(), 9);
    let mut size = 0u32;
    assert!(rust_handle_size_SRCWRHTTPResp(&resp, 50, 10, &mut size));
    assert_eq!(size, 50 + 10 + 5 + 0 + 2 + 9);
    let (e, d) = forward_texts(&mut resp);
    assert_eq!(e, b"\0".to_vec());
    assert_eq!(d, Some(b"dl\0".to_vec()));
    assert_eq!(resp.cbinfo.download_path, None);
    let failed = failed_response(CallbackInfo { user_value: 1, forward: Some(7), download_path: None }, b"boom".to_vec());
    assert_eq!(failed.status, 0);
    assert_eq!(failed.e, Some(b"boom".to_vec()));
    assert_eq!(failed.cbinfo.forward, Some(7));
}

#[test]
fn response_header_copy() {
    let mut buf = vec![b'#'; 5];
    assert_eq!(rust_SRCWRHTTPResp_header(b"content-type\0", Some(b"text/html"), &mut buf, 5), Some(4));
    assert_eq!(buf, b"text\0".to_vec());
    let mut buf2 = vec![b'#'; 5];
    assert_eq!(rust_SRCWRHTTPResp_header(b"x\0", None, &mut buf2, 5), None);
    assert_eq!(buf2, vec![b'#'; 5]);
    assert_eq!(rust_SRCWRHTTPResp_header(b"x\0", Some(b"v"), &mut buf2, 1), None);
}

#[test]
fn response_text_by_charset() {
    assert_eq!(yeah(None, "héllo".as_bytes()), "héllo".as_bytes().to_vec());
    // latin1 0xE9 is é, two bytes in UTF-8
    assert_eq!(yeah(Some(b"text/plain; charset=latin1"), &[0x63, 0xE9]), vec![0x63, 0xC3, 0xA9]);
    // an unknown charset falls back to UTF-8, invalid bytes become U+FFFD
    assert_eq!(yeah(Some(b"text/plain; charset=nope"), &[0x61, 0xFF]), vec![0x61, 0xEF, 0xBF, 0xBD]);
    // a header value that is not text is ignored
    assert_eq!(yeah(Some(&[0x01, 0x02]), &[0x63, 0xE9]), vec![0x63, 0xEF, 0xBF, 0xBD]);
    // a UTF-8 byte order mark is dropped
    assert_eq!(yeah(None, &[0xEF, 0xBB, 0xBF, 0x41]), vec![0x41]);
}

#[test]
fn response_text_resolved_once() {
    let mut resp = failed_response(CallbackInfo { user_value: 1, forward: Some(7), download_path: None }, b"x".to_vec());
    resp.bytes = vec![0x63, 0xE9];
    resp.resp_resolve_text(Some(b"text/html; charset=ISO-8859-1"));
    assert_eq!(resp.text, Some(vec![0x63, 0xC3, 0xA9]));
    resp.resp_resolve_text(None);
    assert_eq!(resp.text, Some(vec![0x63, 0xC3, 0xA9]));
    assert_eq!(resp.rust_SRCWRHTTPResp_text_length_get(), 3);
}

#[test]
fn request_handle_for_url() {
    let (req, url) = rust_SRCWRHTTPReq_SRCWRHTTPReq(b"https://example.com/a b\0").unwrap();
    assert_eq!(url, b"https://example.com/a%20b".to_vec());
    assert_eq!(req.max_redirections, 10);
    assert_eq!(req.timeout, 30000);
    assert!(req.body.is_none());
    assert_eq!(req.method, b"GET".to_vec());
    assert!(req.headers.is_none());
    assert!(req.local_address.is_none());
    assert!(req.cbinfo.forward.is_none());
    assert_eq!(req.connect_timeout, 10000);
    assert!(!req.allow_invalid_certs);
    assert!(rust_SRCWRHTTPReq_SRCWRHTTPReq(b"not a url\0").is_none());
    assert!(rust_SRCWRHTTPReq_SRCWRHTTPReq(b"\0").is_none());
    assert!(rust_SRCWRHTTPReq_SRCWRHTTPReq(&[0xff, 0]).is_none());
}

#[test]
fn methods_and_headers() {
    let mut r = HttpReq::new();
    assert_eq!(r.rust_SRCWRHTTPReq_method(b"PATCH\0"), Some(1));
    assert_eq!(r.method, b"PATCH".to_vec());
    assert_eq!(r.rust_SRCWRHTTPReq_method(b"BAD METHOD\0"), None);
    assert_eq!(r.rust_SRCWRHTTPReq_method(b"\0"), None);
    assert_eq!(r.method, b"PATCH".to_vec());
    let kept = r.take_for_send(0, None, Some(b"NOT A METHOD\0"));
    assert_eq!(kept.method, b"PATCH".to_vec());
    assert_eq!(r.rust_SRCWRHTTPReq_header(b"bad name\0", b"v\0"), Err(BadHeaderName));
    assert_eq!(r.rust_SRCWRHTTPReq_header(b"ok\0", b"a\nb\0"), Ok(None));
    assert_eq!(r.headers, None);
    assert_eq!(r.rust_SRCWRHTTPReq_local_address(IpAddress::V4(srcwrtimer::net::Ipv4 { a: 10, b: 0, c: 0, d: 1 })), Some(1));
    assert!(matches!(r.local_address, Some(IpAddress::V4(a)) if a.d == 1));
    assert_eq!(header_pair(b"Accept\0", b"text/html\0"), Ok(Some((b"Accept".to_vec(), b"text/html".to_vec()))));
    assert_eq!(header_pair(b"Accept\0", b"a\nb\0"), Ok(None));
    assert_eq!(header_pair(b"bad name\0", b"v\0"), Err(BadHeaderName));
    assert_eq!(header_pair(b"\0", b"v\0"), Ok(None));
}

#[test]
fn tostring_refuses_tiny_buffers() {
    let f = JsonFlags::none();
    let mut one = vec![9u8];
    assert_eq!(tostring_noalloc(b"{}", &mut one, f), None);
    assert_eq!(one, vec![9u8]);
    let mut none: Vec<u8> = vec![];
    assert_eq!(tostring_noalloc(b"1", &mut none, f), None);
    let mut buf = vec![9u8; 4];
    assert_eq!(tostring_noalloc(b"{}", &mut buf, f), Some(3));
    assert_eq!(buf, vec![b'{', b'}', 0, 9]);
}
