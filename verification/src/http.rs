//! HTTP requests and responses of the HTTP extension, as the plugin builds
//! and reads them. A request holds its method, headers, local address and
//! callback as plain values; the parsed URL (a `reqwest` value) stays with
//! the embedding code, which builds the outgoing request from these.

#![allow(non_snake_case)]

use vstd::prelude::*;
use vstd::string::*;
use vstd::utf8::*;
use crate::cstr::{spec_strxx, strxx, spec_cstr_len, cstr_len, spec_sp_buf_written, spec_sp_buf_count, write_to_sp_buf};
use crate::ws::WsMsg;
use crate::net::Ipv4;

verus! {

/// What the plugin's callback gets besides the response: its value, the
/// plugin's callback (a handle the embedding code gives, by its address)
/// and the download path.
#[derive(Debug)]
pub struct CallbackInfo {
    pub user_value: i32,
    pub forward: Option<usize>,
    pub download_path: Option<Vec<u8>>,
}

/// An IP address by its parts: four octets, or eight 16-bit groups.
#[derive(Clone, Copy, Debug)]
pub enum IpAddress {
    V4(Ipv4),
    V6([u16; 8]),
}

/// A request being built. The method is held as its bytes; the headers,
/// once one was set, as (name, value) pairs in the order their names were
/// first set, no two names equal up to ASCII case (as a header map keys
/// them).
#[derive(Debug)]
pub struct HttpReq {
    pub method: Vec<u8>,
    pub headers: Option<Vec<(Vec<u8>, Vec<u8>)>>,
    pub local_address: Option<IpAddress>,
    pub body: Option<Vec<u8>>,
    pub body_file_on_send: Option<Vec<u8>>,
    pub basic_auth: Option<(Vec<u8>, Option<Vec<u8>>)>,
    pub allow_invalid_certs: bool,
    pub max_redirections: u32,
    pub timeout: u32,
    pub connect_timeout: u32,
    pub cbinfo: CallbackInfo,
}

/// A response as the plugin reads it.
#[derive(Debug)]
pub struct HttpResp {
    pub status: i32,
    /// The body decoded as text, once something asked for it.
    pub text: Option<Vec<u8>>,
    pub bytes: Vec<u8>,
    pub cbinfo: CallbackInfo,
    /// The error's text when the request failed.
    pub e: Option<Vec<u8>>,
}

/// The optional bytes' view.
pub open spec fn opt_view(x: Option<Vec<u8>>) -> Option<Seq<u8>> {
    match x {
        Some(v) => Some(v@),
        None => None,
    }
}

/// The optional bytes' length, 0 when absent.
pub open spec fn opt_len(x: Option<Vec<u8>>) -> int {
    match x {
        Some(v) => v@.len() as int,
        None => 0,
    }
}

fn opt_len_exec(x: &Option<Vec<u8>>) -> (r: usize)
    ensures
        r == opt_len(*x),
{
    match x {
        Some(v) => v.len(),
        None => 0,
    }
}

/// The method `GET`.
pub open spec fn get_method() -> Seq<u8> {
    seq![71u8, 69u8, 84u8]
}

/// A byte with ASCII letters folded to lower case.
pub open spec fn ascii_lower(c: u8) -> u8 {
    if 65 <= c <= 90 { (c + 32) as u8 } else { c }
}

/// Two header names a header map takes as one: equal up to ASCII case.
pub open spec fn same_header_name(a: Seq<u8>, b: Seq<u8>) -> bool {
    a.len() == b.len() && forall|i: int| 0 <= i < a.len() ==> ascii_lower(#[trigger] a[i]) == ascii_lower(b[i])
}

/// The header pairs as bytes.
pub open spec fn pairs_view(v: Seq<(Vec<u8>, Vec<u8>)>) -> Seq<(Seq<u8>, Seq<u8>)> {
    Seq::new(v.len(), |i: int| (v[i].0@, v[i].1@))
}

/// The request's headers as bytes, empty when none was set.
pub open spec fn headers_view(h: Option<Vec<(Vec<u8>, Vec<u8>)>>) -> Seq<(Seq<u8>, Seq<u8>)> {
    match h {
        Some(v) => pairs_view(v@),
        None => Seq::empty(),
    }
}

/// The last position whose name a header map takes as `k`.
pub open spec fn header_index(hs: Seq<(Seq<u8>, Seq<u8>)>, k: Seq<u8>) -> Option<int>
    decreases hs.len(),
{
    if hs.len() == 0 {
        None
    } else if same_header_name(hs.last().0, k) {
        Some(hs.len() - 1)
    } else {
        header_index(hs.drop_last(), k)
    }
}

/// The headers after setting `k` to `v`: the value of a name taken as `k`
/// is replaced where it stands, else the pair is added at the end.
pub open spec fn headers_put(hs: Seq<(Seq<u8>, Seq<u8>)>, k: Seq<u8>, v: Seq<u8>) -> Seq<(Seq<u8>, Seq<u8>)> {
    match header_index(hs, k) {
        Some(i) => hs.update(i, (hs[i].0, v)),
        None => hs.push((k, v)),
    }
}

/// A request as it is made: method `GET`, no headers, no local address,
/// no body, no file, no user, valid certificates only, 10 redirections, a
/// 30 s timeout, a 10 s connect timeout, no plugin value, no callback and
/// no download path.
pub open spec fn fresh_req(r: HttpReq) -> bool {
    &&& r.method@ == get_method()
    &&& r.headers is None
    &&& r.local_address is None
    &&& r.cbinfo.forward is None
    &&& r.body is None
    &&& r.body_file_on_send is None
    &&& r.basic_auth is None
    &&& !r.allow_invalid_certs
    &&& r.max_redirections == 10
    &&& r.timeout == 30000
    &&& r.connect_timeout == 10000
    &&& r.cbinfo.user_value == 0
    &&& r.cbinfo.download_path is None
}

/// The text of a plugin string argument, where `strxx` takes it as UTF-8.
pub open spec fn text_arg(s: Seq<u8>) -> Option<Seq<char>> {
    match spec_strxx(s, false, 0) {
        Some(t) => Some(decode_utf8(t)),
        None => None,
    }
}

/// Reads a plugin string argument as UTF-8 text.
pub fn text_arg_exec(s: &[u8]) -> (r: Option<String>)
    ensures
        match r {
            Some(x) => text_arg(s@) == Some(x@),
            None => text_arg(s@) is None,
        },
{
    let t = strxx(s, false, 0)?;
    crate::string_block::utf8_to_string(t.as_slice())
}

/// The serialization of the URL a text parses as, where it parses.
pub uninterp spec fn url_parsed(text: Seq<char>) -> Option<Seq<u8>>;

/// `reqwest::Url::parse`, then `Url::as_str`. Trusted: the result is
/// `url_parsed` of the text (a function of the text alone).
#[verifier::external_body]
fn parse_url(text: &str) -> (r: Option<Vec<u8>>)
    ensures
        opt_view(r) == url_parsed(text@),
{
    reqwest::Url::parse(text).ok().map(|u| u.as_str().as_bytes().to_vec())
}

/// Creating a request handle for a URL: `None` when the argument is empty,
/// not UTF-8, or not a URL; else a fresh request and the parsed URL.
pub fn rust_SRCWRHTTPReq_SRCWRHTTPReq(url: &[u8]) -> (r: Option<(HttpReq, Vec<u8>)>)
    ensures
        match text_arg(url@) {
            None => r is None,
            Some(t) => match url_parsed(t) {
                None => r is None,
                Some(u) => r matches Some((req, parsed)) && fresh_req(req) && parsed@ == u,
            },
        },
{
    let t = text_arg_exec(url)?;
    let parsed = parse_url(t.as_str())?;
    Some((HttpReq::new(), parsed))
}

/// Whether bytes make an HTTP method (`http::Method::from_bytes` succeeds).
pub uninterp spec fn method_ok(bytes: Seq<u8>) -> bool;

/// `http::Method::from_bytes`. Trusted: it succeeds exactly when
/// `method_ok` of the bytes (a function of the bytes alone).
#[verifier::external_body]
fn method_valid(bytes: &[u8]) -> (r: bool)
    ensures
        r == method_ok(bytes@),
{
    http::Method::from_bytes(bytes).is_ok()
}

/// Whether bytes make a header name (`http::HeaderName::from_bytes` succeeds).
pub uninterp spec fn header_name_ok(bytes: Seq<u8>) -> bool;

/// Whether a text makes a header value (`http::HeaderValue::from_str` succeeds).
pub uninterp spec fn header_value_ok(text: Seq<char>) -> bool;

/// `http::HeaderName::from_bytes`. Trusted: it succeeds exactly when
/// `header_name_ok` of the bytes.
#[verifier::external_body]
fn header_name_valid(bytes: &[u8]) -> (r: bool)
    ensures
        r == header_name_ok(bytes@),
{
    http::HeaderName::from_bytes(bytes).is_ok()
}

/// `http::HeaderValue::from_str`. Trusted: it succeeds exactly when
/// `header_value_ok` of the text.
#[verifier::external_body]
fn header_value_valid(text: &str) -> (r: bool)
    ensures
        r == header_value_ok(text@),
{
    http::HeaderValue::from_str(text).is_ok()
}

/// A header name the header map cannot take: the native stops (its static
/// name conversion panics).
#[derive(Debug, PartialEq, Eq)]
pub struct BadHeaderName;

/// What `header_pair` gives for the plugin's key and value: nothing when
/// either is empty or not UTF-8 or the value is no header value, a stop
/// when the name is no header name, else the two as bytes.
pub open spec fn header_pair_result(key: Seq<u8>, value: Seq<u8>) -> Result<Option<(Seq<u8>, Seq<u8>)>, BadHeaderName> {
    match (spec_strxx(key, false, 0), spec_strxx(value, false, 0)) {
        (Some(k), Some(v)) => if !header_value_ok(decode_utf8(v)) {
            Ok(None)
        } else if !header_name_ok(k) {
            Err(BadHeaderName)
        } else {
            Ok(Some((k, v)))
        },
        _ => Ok(None),
    }
}

/// The header a plugin sets (the request's and the websocket's `header`
/// natives): `None` when the key or value is empty or not UTF-8, or the
/// value is not a header value; a name that is no header name stops the
/// native; else the name and the value, as bytes.
pub fn header_pair(key: &[u8], value: &[u8]) -> (r: Result<Option<(Vec<u8>, Vec<u8>)>, BadHeaderName>)
    ensures
        match header_pair_result(key@, value@) {
            Ok(Some((k, v))) => r matches Ok(Some((a, b))) && a@ == k && b@ == v,
            Ok(None) => r matches Ok(None),
            Err(_) => r is Err,
        },
{
    let k = match strxx(key, false, 0) {
        Some(k) => k,
        None => { return Ok(None); },
    };
    let v = match strxx(value, false, 0) {
        Some(v) => v,
        None => { return Ok(None); },
    };
    let text = match crate::string_block::utf8_to_string(v.as_slice()) {
        Some(t) => t,
        None => { return Ok(None); },
    };
    if !header_value_valid(text.as_str()) {
        return Ok(None);
    }
    if !header_name_valid(k.as_slice()) {
        return Err(BadHeaderName);
    }
    Ok(Some((k, v)))
}

/// The bytes of `GET`.
fn get_method_exec() -> (r: Vec<u8>)
    ensures
        r@ == get_method(),
{
    let mut m: Vec<u8> = Vec::new();
    m.push(71u8);
    m.push(69u8);
    m.push(84u8);
    assert(m@ =~= get_method());
    m
}

/// Whether two header names are taken as one (equal up to ASCII case).
fn same_header_name_exec(a: &[u8], b: &[u8]) -> (r: bool)
    ensures
        r == same_header_name(a@, b@),
{
    if a.len() != b.len() {
        return false;
    }
    let mut i: usize = 0;
    while i < a.len()
        invariant
            a@.len() == b@.len(),
            i <= a.len(),
            forall|j: int| 0 <= j < i ==> ascii_lower(#[trigger] a@[j]) == ascii_lower(b@[j]),
        decreases a.len() - i,
    {
        let x = if 65 <= a[i] && a[i] <= 90 { a[i] + 32 } else { a[i] };
        let y = if 65 <= b[i] && b[i] <= 90 { b[i] + 32 } else { b[i] };
        if x != y {
            return false;
        }
        i += 1;
    }
    true
}

/// The headers of a prefix end where they end in the whole list.
proof fn lemma_header_index_prefix(hs: Seq<(Seq<u8>, Seq<u8>)>, k: Seq<u8>, i: int)
    requires
        0 <= i <= hs.len(),
        forall|j: int| i <= j < hs.len() ==> !same_header_name(#[trigger] hs[j].0, k),
    ensures
        header_index(hs, k) == header_index(hs.take(i), k),
    decreases hs.len() - i,
{
    if i < hs.len() {
        assert(hs.drop_last().len() == hs.len() - 1);
        assert forall|j: int| i <= j < hs.drop_last().len() implies !same_header_name(#[trigger] hs.drop_last()[j].0, k) by {
            assert(hs.drop_last()[j] == hs[j]);
        }
        lemma_header_index_prefix(hs.drop_last(), k, i);
        assert(hs.drop_last().take(i) =~= hs.take(i));
    } else {
        assert(hs.take(i) =~= hs);
    }
}

/// Bytes the header pairs are counted at: each name's and value's bytes.
pub open spec fn headers_size(hs: Seq<(Seq<u8>, Seq<u8>)>) -> int
    decreases hs.len(),
{
    if hs.len() == 0 {
        0
    } else {
        headers_size(hs.drop_last()) + hs.last().0.len() + hs.last().1.len()
    }
}

proof fn lemma_headers_size_prefix(hs: Seq<(Seq<u8>, Seq<u8>)>, i: int)
    requires
        0 <= i <= hs.len(),
    ensures
        0 <= headers_size(hs.take(i)) <= headers_size(hs),
    decreases hs.len() - i,
{
    if i < hs.len() {
        lemma_headers_size_prefix(hs.drop_last(), i);
        assert(hs.drop_last().take(i) =~= hs.take(i));
    } else {
        assert(hs.take(i) =~= hs);
        lemma_headers_size_nonneg(hs);
    }
}

proof fn lemma_headers_size_nonneg(hs: Seq<(Seq<u8>, Seq<u8>)>)
    ensures
        headers_size(hs) >= 0,
    decreases hs.len(),
{
    if hs.len() > 0 {
        lemma_headers_size_nonneg(hs.drop_last());
    }
}

impl HttpReq {
    /// A new request (for a URL that parsed): no body,
    /// 10 redirections, a 30 s timeout and a 10 s connect timeout.
    pub fn new() -> (r: HttpReq)
        ensures
            fresh_req(r),
    {
        let r = HttpReq {
            method: get_method_exec(),
            headers: None,
            local_address: None,
            body: None,
            body_file_on_send: None,
            basic_auth: None,
            allow_invalid_certs: false,
            max_redirections: 10,
            timeout: 30000,
            connect_timeout: 10000,
            cbinfo: CallbackInfo { user_value: 0, forward: None, download_path: None },
        };
        r
    }

    /// What a request handle holds after it was sent: method `GET`, all
    /// else empty or zero.
    pub fn emptied() -> (r: HttpReq)
        ensures
            r.method@ == get_method(),
            r.headers is None,
            r.local_address is None,
            r.cbinfo.forward is None,
            r.body is None,
            r.body_file_on_send is None,
            r.basic_auth is None,
            !r.allow_invalid_certs,
            r.max_redirections == 0,
            r.timeout == 0,
            r.connect_timeout == 0,
            r.cbinfo.user_value == 0,
            r.cbinfo.download_path is None,
    {
        HttpReq {
            method: get_method_exec(),
            headers: None,
            local_address: None,
            body: None,
            body_file_on_send: None,
            basic_auth: None,
            allow_invalid_certs: false,
            max_redirections: 0,
            timeout: 0,
            connect_timeout: 0,
            cbinfo: CallbackInfo { user_value: 0, forward: None, download_path: None },
        }
    }

    /// The method a request is sent with: the plugin's text where it makes
    /// a method, else the one set before.
    pub open spec fn method_for_send(old_method: Seq<u8>, method: Option<Seq<u8>>) -> Seq<u8> {
        match method {
            Some(m) => match spec_strxx(m, true, 0) {
                Some(x) => if method_ok(x) { x } else { old_method },
                None => old_method,
            },
            None => old_method,
        }
    }

    /// Takes the request to send (`YEET`): the method is set from the
    /// plugin's text where it makes one, and the plugin's value and
    /// callback are recorded; the handle is left emptied.
    pub fn take_for_send(&mut self, value: i32, forward: Option<usize>, method: Option<&[u8]>) -> (r: HttpReq)
        ensures
            r.method@ == Self::method_for_send(old(self).method@, match method { Some(m) => Some(m@), None => None }),
            r.headers == old(self).headers,
            r.local_address == old(self).local_address,
            r.body == old(self).body,
            r.body_file_on_send == old(self).body_file_on_send,
            r.basic_auth == old(self).basic_auth,
            r.allow_invalid_certs == old(self).allow_invalid_certs,
            r.max_redirections == old(self).max_redirections,
            r.timeout == old(self).timeout,
            r.connect_timeout == old(self).connect_timeout,
            r.cbinfo.user_value == value,
            r.cbinfo.forward == forward,
            r.cbinfo.download_path == old(self).cbinfo.download_path,
            final(self).method@ == get_method(),
            final(self).headers is None,
            final(self).local_address is None,
            final(self).body is None,
            final(self).body_file_on_send is None,
            final(self).basic_auth is None,
            !final(self).allow_invalid_certs,
            final(self).max_redirections == 0,
            final(self).timeout == 0,
            final(self).connect_timeout == 0,
            final(self).cbinfo.user_value == 0,
            final(self).cbinfo.forward is None,
            final(self).cbinfo.download_path is None,
    {
        match method {
            Some(m) => {
                let _ = self.rust_SRCWRHTTPReq_method(m);
            },
            None => {},
        }
        self.cbinfo.user_value = value;
        self.cbinfo.forward = forward;
        let mut out = HttpReq::emptied();
        std::mem::swap(&mut out, self);
        out
    }

    /// Sets the method from the plugin's text (read as `strxx` reads it,
    /// UTF-8 not required) when its bytes make a method; else nothing changes.
    pub fn rust_SRCWRHTTPReq_method(&mut self, method: &[u8]) -> (r: Option<u32>)
        ensures
            match spec_strxx(method@, true, 0) {
                Some(m) => if method_ok(m) {
                    r == Some(1u32) && final(self).method@ == m
                } else {
                    r is None && final(self).method == old(self).method
                },
                None => r is None && final(self).method == old(self).method,
            },
            final(self).headers == old(self).headers,
            final(self).local_address == old(self).local_address,
            final(self).body == old(self).body,
            final(self).body_file_on_send == old(self).body_file_on_send,
            final(self).basic_auth == old(self).basic_auth,
            final(self).allow_invalid_certs == old(self).allow_invalid_certs,
            final(self).max_redirections == old(self).max_redirections,
            final(self).timeout == old(self).timeout,
            final(self).connect_timeout == old(self).connect_timeout,
            final(self).cbinfo == old(self).cbinfo,
    {
        let m = match strxx(method, true, 0) {
            Some(m) => m,
            None => { return None; },
        };
        if method_valid(m.as_slice()) {
            self.method = m;
            Some(1)
        } else {
            None
        }
    }

    /// Sets a header: `None` when the key or value is empty or not UTF-8,
    /// or the value is no header value; a name that is no header name stops
    /// the native; else the value replaces that of a name taken as the key
    /// (equal up to ASCII case) where it stands, or the pair is added.
    pub fn rust_SRCWRHTTPReq_header(&mut self, key: &[u8], value: &[u8]) -> (r: Result<Option<u32>, BadHeaderName>)
        ensures
            match header_pair_result(key@, value@) {
                Ok(Some((k, v))) => r == Ok::<Option<u32>, BadHeaderName>(Some(1u32))
                    && final(self).headers is Some
                    && headers_view(final(self).headers) == headers_put(headers_view(old(self).headers), k, v),
                Ok(None) => r == Ok::<Option<u32>, BadHeaderName>(None) && final(self).headers == old(self).headers,
                Err(_) => r is Err && final(self).headers == old(self).headers,
            },
            final(self).method == old(self).method,
            final(self).local_address == old(self).local_address,
            final(self).body == old(self).body,
            final(self).cbinfo == old(self).cbinfo,
    {
        let (k, v) = match header_pair(key, value) {
            Ok(Some(p)) => p,
            Ok(None) => { return Ok(None); },
            Err(e) => { return Err(e); },
        };
        let mut hs: Vec<(Vec<u8>, Vec<u8>)> = match self.headers.take() {
            Some(h) => h,
            None => Vec::new(),
        };
        let ghost hv = pairs_view(hs@);
        assert(hv == headers_view(old(self).headers));
        let mut i: usize = hs.len();
        let mut found: Option<usize> = None;
        while i > 0
            invariant_except_break
                i <= hs@.len(),
                hv == pairs_view(hs@),
                found is None,
                forall|j: int| i <= j < hv.len() ==> !same_header_name(#[trigger] hv[j].0, k@),
            ensures
                hv == pairs_view(hs@),
                found matches Some(f) ==> f < hs@.len() && header_index(hv, k@) == Some(f as int),
                found is None ==> forall|j: int| 0 <= j < hv.len() ==> !same_header_name(#[trigger] hv[j].0, k@),
            decreases i,
        {
            i -= 1;
            if same_header_name_exec(hs[i].0.as_slice(), k.as_slice()) {
                proof {
                    assert(hv[i as int].0 == hs@[i as int].0@);
                    lemma_header_index_prefix(hv, k@, i + 1);
                    assert(hv.take(i + 1).last() == hv[i as int]);
                }
                found = Some(i);
                break;
            }
            assert(hv[i as int].0 == hs@[i as int].0@);
        }
        proof {
            if found is None {
                lemma_header_index_prefix(hv, k@, 0);
                assert(hv.take(0).len() == 0);
                assert(header_index(hv, k@) is None);
            }
        }
        match found {
            Some(f) => {
                let name = crate::json::value::bytes_copy(hs[f].0.as_slice());
                hs.set(f, (name, v));
                proof {
                    assert(pairs_view(hs@) =~= hv.update(f as int, (hv[f as int].0, v@)));
                }
            },
            None => {
                hs.push((k, v));
                proof {
                    assert(pairs_view(hs@) =~= hv.push((k@, v@)));
                }
            },
        }
        self.headers = Some(hs);
        Ok(Some(1))
    }

    /// Sets the local address the request is sent from (as the embedding
    /// code read it from the plugin's text).
    pub fn rust_SRCWRHTTPReq_local_address(&mut self, addr: IpAddress) -> (r: Option<u32>)
        ensures
            r == Some(1u32),
            final(self).local_address == Some(addr),
            final(self).method == old(self).method,
            final(self).headers == old(self).headers,
            final(self).body == old(self).body,
            final(self).cbinfo == old(self).cbinfo,
    {
        self.local_address = Some(addr);
        Some(1)
    }

    /// Sets the file to download to (its name read
    /// as `strxx` reads it), before the request is sent.
    pub fn set_download_path(&mut self, filename: &[u8]) -> (r: Option<u32>)
        ensures
            match spec_strxx(filename@, false, 0) {
                Some(p) => r == Some(1u32) && opt_view(final(self).cbinfo.download_path) == Some(p),
                None => r is None && final(self).cbinfo.download_path == old(self).cbinfo.download_path,
            },
            final(self).body == old(self).body,
            final(self).cbinfo.user_value == old(self).cbinfo.user_value,
    {
        match strxx(filename, false, 0) {
            Some(p) => {
                self.cbinfo.download_path = Some(p);
                Some(1)
            },
            None => None,
        }
    }

    /// Appends `end` bytes of `content` (up to
    /// its NUL when `end < 1`) to the body, starting one if there is none.
    pub fn rust_SRCWRHTTPReq_body_add(&mut self, end: i32, content: &[u8]) -> (r: Option<u32>)
        requires
            end >= 1 ==> end <= content@.len(),
        ensures
            r == Some(1u32),
            ({
                let n = if end < 1 { spec_cstr_len(content@) } else { end as int };
                let prev = match old(self).body { Some(b) => b@, None => Seq::empty() };
                opt_view(final(self).body) == Some(prev + content@.take(n))
            }),
            final(self).body_file_on_send == old(self).body_file_on_send,
    {
        let n: usize = if end < 1 { cstr_len(content) } else { end as usize };
        proof { crate::cstr::lemma_cstr_len(content@); }
        let mut b = match self.body.take() {
            Some(b) => b,
            None => Vec::new(),
        };
        let ghost prev = b@;
        let mut i: usize = 0;
        while i < n
            invariant
                i <= n <= content@.len(),
                b@ == prev + content@.take(i as int),
            decreases n - i,
        {
            b.push(content[i]);
            i += 1;
            assert(b@ =~= prev + content@.take(i as int));
        }
        self.body = Some(b);
        Some(1)
    }

    /// The body becomes `end` bytes of `content`.
    pub fn rust_SRCWRHTTPReq_body_set(&mut self, end: i32, content: &[u8]) -> (r: Option<u32>)
        requires
            end >= 1 ==> end <= content@.len(),
        ensures
            r == Some(1u32),
            ({
                let n = if end < 1 { spec_cstr_len(content@) } else { end as int };
                opt_view(final(self).body) == Some(content@.take(n))
            }),
    {
        self.body = Some(Vec::new());
        let r = self.rust_SRCWRHTTPReq_body_add(end, content);
        assert(Seq::<u8>::empty() + content@.take(if end < 1 { spec_cstr_len(content@) } else { end as int })
            =~= content@.take(if end < 1 { spec_cstr_len(content@) } else { end as int }));
        r
    }

    /// Sets a file whose contents are
    /// sent after the body.
    pub fn rust_SRCWRHTTPReq_body_add_file_on_send(&mut self, path: &[u8]) -> (r: Option<u32>)
        ensures
            match spec_strxx(path@, false, 0) {
                Some(p) => r == Some(1u32) && opt_view(final(self).body_file_on_send) == Some(p),
                None => r is None && final(self).body_file_on_send == old(self).body_file_on_send,
            },
            final(self).body == old(self).body,
    {
        match strxx(path, false, 0) {
            Some(p) => {
                self.body_file_on_send = Some(p);
                Some(1)
            },
            None => None,
        }
    }

    /// Sets a user name (required) and a password
    /// (left out when empty or not UTF-8).
    pub fn rust_SRCWRHTTPReq_basic_auth(&mut self, username: &[u8], password: &[u8]) -> (r: Option<u32>)
        ensures
            match spec_strxx(username@, false, 0) {
                Some(u) => r == Some(1u32) && (final(self).basic_auth matches Some((x, y))
                    && x@ == u && opt_view(y) == spec_strxx(password@, false, 0)),
                None => r is None && final(self).basic_auth == old(self).basic_auth,
            },
    {
        let u = match strxx(username, false, 0) {
            Some(u) => u,
            None => { return None; },
        };
        let p = strxx(password, false, 0);
        self.basic_auth = Some((u, p));
        Some(1)
    }

    /// Allows invalid certificates.
    pub fn rust_SRCWRHTTPReq_allow_invalid_certs(&mut self)
        ensures
            final(self).allow_invalid_certs,
            final(self).max_redirections == old(self).max_redirections,
    {
        self.allow_invalid_certs = true;
    }

    pub fn rust_SRCWRHTTPReq_max_redirections_get(&self) -> (r: u32) ensures r == self.max_redirections { self.max_redirections }
    pub fn rust_SRCWRHTTPReq_timeout_get(&self) -> (r: u32) ensures r == self.timeout { self.timeout }
    pub fn rust_SRCWRHTTPReq_connect_timeout_get(&self) -> (r: u32) ensures r == self.connect_timeout { self.connect_timeout }

    pub fn rust_SRCWRHTTPReq_max_redirections_set(&mut self, value: u32)
        ensures final(self).max_redirections == value, final(self).timeout == old(self).timeout,
            final(self).connect_timeout == old(self).connect_timeout,
    {
        self.max_redirections = value;
    }

    pub fn rust_SRCWRHTTPReq_timeout_set(&mut self, value: u32)
        ensures final(self).timeout == value, final(self).max_redirections == old(self).max_redirections,
            final(self).connect_timeout == old(self).connect_timeout,
    {
        self.timeout = value;
    }

    pub fn rust_SRCWRHTTPReq_connect_timeout_set(&mut self, value: u32)
        ensures final(self).connect_timeout == value, final(self).max_redirections == old(self).max_redirections,
            final(self).timeout == old(self).timeout,
    {
        self.connect_timeout = value;
    }
}

/// The bytes a request handle is counted at: its own `unit`, its headers'
/// names and values, the URL's bytes (given), and the bytes of its body,
/// file name, user name, password and download path.
pub open spec fn req_size(req: &HttpReq, unit: int, url_len: int) -> int {
    unit + headers_size(headers_view(req.headers)) + opt_len(req.body) + opt_len(req.body_file_on_send)
        + match req.basic_auth {
            Some((u, p)) => u@.len() + opt_len(p),
            None => 0,
        }
        + opt_len(req.cbinfo.download_path) + url_len
}

/// The bytes of a request's headers.
fn headers_size_exec(req: &HttpReq, bound: usize) -> (r: usize)
    requires
        headers_size(headers_view(req.headers)) <= bound,
    ensures
        r as int == headers_size(headers_view(req.headers)),
{
    match &req.headers {
        None => 0,
        Some(hs) => {
            let ghost hv = pairs_view(hs@);
            let mut s: usize = 0;
            let mut i: usize = 0;
            while i < hs.len()
                invariant
                    i <= hs@.len(),
                    hv == pairs_view(hs@),
                    hv == headers_view(req.headers),
                    headers_size(hv) <= bound,
                    s as int == headers_size(hv.take(i as int)),
                decreases hs.len() - i,
            {
                proof {
                    lemma_headers_size_prefix(hv, i + 1);
                    assert(hv.take(i + 1).drop_last() =~= hv.take(i as int));
                    assert(hv.take(i + 1).last() == hv[i as int]);
                    lemma_headers_size_nonneg(hv.take(i as int));
                }
                s = s + hs[i].0.len() + hs[i].1.len();
                i += 1;
            }
            proof { assert(hv.take(i as int) =~= hv); }
            s
        },
    }
}

/// `req_size`, cut to 32 bits.
pub fn rust_handle_size_SRCWRHTTPReq(req: &HttpReq, unit: usize, url_len: usize, size: &mut u32) -> (r: bool)
    requires
        req_size(req, unit as int, url_len as int) <= usize::MAX,
    ensures
        r,
        *final(size) == (req_size(req, unit as int, url_len as int) as usize) as u32,
{
    proof { lemma_headers_size_nonneg(headers_view(req.headers)); }
    let h = headers_size_exec(req, usize::MAX);
    let mut s = unit + h;
    s = s + opt_len_exec(&req.body);
    s = s + opt_len_exec(&req.body_file_on_send);
    match &req.basic_auth {
        Some((u, p)) => {
            s = s + u.len();
            s = s + opt_len_exec(p);
        },
        None => {},
    }
    s = s + opt_len_exec(&req.cbinfo.download_path);
    s = s + url_len;
    *size = s as u32;
    true
}

/// How a request's body is sent (`handle_req`): nothing, the body, the
/// file's contents, or the body followed by the file's contents.
#[derive(Debug)]
pub enum BodyPlan {
    NoBody,
    Bytes(Vec<u8>),
    File(Vec<u8>),
    BytesThenFile(Vec<u8>, Vec<u8>),
}

/// The body plan of a request being sent.
pub fn body_plan(body: Option<Vec<u8>>, file: Option<Vec<u8>>) -> (r: BodyPlan)
    ensures
        match (body, file) {
            (None, None) => r is NoBody,
            (Some(b), None) => r matches BodyPlan::Bytes(x) && x@ == b@,
            (None, Some(f)) => r matches BodyPlan::File(x) && x@ == f@,
            (Some(b), Some(f)) => r matches BodyPlan::BytesThenFile(x, y) && x@ == b@ && y@ == f@,
        },
{
    match (body, file) {
        (None, None) => BodyPlan::NoBody,
        (Some(b), None) => BodyPlan::Bytes(b),
        (None, Some(f)) => BodyPlan::File(f),
        (Some(b), Some(f)) => BodyPlan::BytesThenFile(b, f),
    }
}

/// The response a failed request is answered with: status 0, no body,
/// the error's text.
pub fn failed_response(cbinfo: CallbackInfo, e: Vec<u8>) -> (r: HttpResp)
    ensures
        r.status == 0,
        r.text is None,
        r.bytes@.len() == 0,
        opt_view(r.e) == Some(e@),
        r.cbinfo.user_value == cbinfo.user_value,
        r.cbinfo.forward == cbinfo.forward,
        opt_view(r.cbinfo.download_path) == opt_view(cbinfo.download_path),
{
    HttpResp { status: 0, text: None, bytes: Vec::new(), cbinfo, e: Some(e) }
}

/// The bytes of a value handed to the plugin as a C string.
pub open spec fn nul_terminated(s: Seq<u8>) -> Seq<u8> {
    s + seq![0u8]
}

/// `do_forward`: the error text for the plugin's callback (empty when the
/// request did not fail) and the download path, each NUL-terminated; the
/// download path is taken out of the response.
pub fn forward_texts(resp: &mut HttpResp) -> (r: (Vec<u8>, Option<Vec<u8>>))
    ensures
        r.0@ == nul_terminated(match opt_view(old(resp).e) { Some(e) => e, None => Seq::empty() }),
        opt_view(r.1) == match opt_view(old(resp).cbinfo.download_path) { Some(p) => Some(nul_terminated(p)), None => None },
        final(resp).cbinfo.download_path is None,
        final(resp).status == old(resp).status,
        final(resp).bytes@ == old(resp).bytes@,
{
    let e = match &resp.e {
        Some(e) => {
            let mut t = crate::json::value::bytes_copy(e.as_slice());
            t.push(0);
            t
        },
        None => {
            let mut t: Vec<u8> = Vec::new();
            t.push(0);
            assert(t@ =~= nul_terminated(Seq::empty()));
            t
        },
    };
    let d = match resp.cbinfo.download_path.take() {
        Some(mut p) => {
            p.push(0);
            Some(p)
        },
        None => None,
    };
    (e, d)
}

impl HttpResp {
    /// Copies the body (with `H_AS_BYTES`, bit 0
    /// of `flags`) or its text into the plugin's buffer, truncated so a NUL
    /// fits; a buffer of fewer than 2 bytes is refused.
    pub fn rust_SRCWRHTTPResp_get(&self, buffer: &mut Vec<u8>, flags: u32) -> (r: Option<usize>)
        requires
            flags & 1 == 0 ==> self.text is Some,
        ensures
            ({
                let s = if flags & 1 != 0 { self.bytes@ } else { self.text->0@ };
                if old(buffer)@.len() < 2 {
                    r is None && final(buffer)@ == old(buffer)@
                } else {
                    &&& final(buffer)@ == spec_sp_buf_written(s, old(buffer)@)
                    &&& r == if spec_sp_buf_count(s, old(buffer)@.len() as int) == 0 {
                        None::<usize>
                    } else {
                        Some(spec_sp_buf_count(s, old(buffer)@.len() as int) as usize)
                    }
                }
            }),
    {
        if buffer.len() < 2 {
            return None;
        }
        if flags & 1 != 0 {
            write_to_sp_buf(self.bytes.as_slice(), buffer)
        } else {
            match &self.text {
                Some(t) => write_to_sp_buf(t.as_slice(), buffer),
                None => None,
            }
        }
    }

    /// The stored value.
    pub fn rust_SRCWRHTTPResp_status_get(&self) -> (r: i32)
        ensures
            r == self.status,
    {
        self.status
    }

    /// The length of the decoded text.
    pub fn rust_SRCWRHTTPResp_text_length_get(&self) -> (r: usize)
        requires
            self.text is Some,
        ensures
            r == self.text->0@.len(),
    {
        match &self.text {
            Some(t) => t.len(),
            None => 0,
        }
    }

    /// The stored value.
    pub fn rust_SRCWRHTTPResp_byte_length_get(&self) -> (r: usize)
        ensures
            r == self.bytes@.len(),
    {
        self.bytes.len()
    }
}

/// Copies the value of the header `name`
/// (read as `strxx` reads it; `lookup` is that header's value as the
/// response holds it, if any) into the plugin's buffer of `maxlength`
/// bytes, truncated so a NUL fits; hands back how many bytes were copied.
pub fn rust_SRCWRHTTPResp_header(name: &[u8], lookup: Option<&[u8]>, buffer: &mut Vec<u8>, maxlength: i32) -> (r: Option<u32>)
    requires
        maxlength >= 2 ==> old(buffer)@.len() == maxlength,
    ensures
        maxlength < 2 ==> r is None && final(buffer)@ == old(buffer)@,
        maxlength >= 2 ==> match (spec_strxx(name@, false, 0), lookup) {
            (Some(_), Some(v)) => {
                &&& final(buffer)@ == spec_sp_buf_written(v@, old(buffer)@)
                &&& r == if spec_sp_buf_count(v@, maxlength as int) == 0 {
                    None::<u32>
                } else {
                    Some(spec_sp_buf_count(v@, maxlength as int) as u32)
                }
            },
            _ => r is None && final(buffer)@ == old(buffer)@,
        },
{
    if maxlength < 2 {
        return None;
    }
    if strxx(name, false, 0).is_none() {
        return None;
    }
    let v = match lookup {
        Some(v) => v,
        None => { return None; },
    };
    match write_to_sp_buf(v, buffer) {
        Some(n) => Some(n as u32),
        None => None,
    }
}

/// The size of a response handle: its own `unit` bytes plus
/// the headers' bytes (given), its text, error text, download path and body.
pub open spec fn resp_size(resp: &HttpResp, unit: int, header_bytes: int) -> int {
    unit + header_bytes + opt_len(resp.text) + opt_len(resp.e) + opt_len(resp.cbinfo.download_path) + resp.bytes@.len()
}

pub fn rust_handle_size_SRCWRHTTPResp(resp: &HttpResp, unit: usize, header_bytes: usize, size: &mut u32) -> (r: bool)
    requires
        resp_size(resp, unit as int, header_bytes as int) <= usize::MAX,
    ensures
        r,
        *final(size) == (resp_size(resp, unit as int, header_bytes as int) as usize) as u32,
{
    let mut s = unit + header_bytes;
    s = s + opt_len_exec(&resp.text);
    s = s + opt_len_exec(&resp.e);
    s = s + opt_len_exec(&resp.cbinfo.download_path);
    s = s + resp.bytes.len();
    *size = s as u32;
    true
}

/// Copies the message's text into the
/// plugin's buffer, truncated so a NUL fits; a buffer of fewer than 2 bytes
/// is refused.
pub fn rust_SRCWRWebsocketMsg_get(msg: &WsMsg, buffer: &mut Vec<u8>) -> (r: Option<usize>)
    ensures
        old(buffer)@.len() < 2 ==> r is None && final(buffer)@ == old(buffer)@,
        old(buffer)@.len() >= 2 ==> {
            &&& final(buffer)@ == spec_sp_buf_written(msg.text@, old(buffer)@)
            &&& r == if spec_sp_buf_count(msg.text@, old(buffer)@.len() as int) == 0 {
                None::<usize>
            } else {
                Some(spec_sp_buf_count(msg.text@, old(buffer)@.len() as int) as usize)
            }
        },
{
    if buffer.len() < 2 {
        return None;
    }
    write_to_sp_buf(msg.text.as_slice(), buffer)
}

/// The stored value.
pub fn rust_SRCWRWebsocketMsg_length_get(msg: &WsMsg) -> (r: usize)
    ensures
        r == msg.text@.len(),
{
    msg.text.len()
}

/// `http::HeaderValue::to_str` succeeds: every byte is a tab or visible ASCII.
pub open spec fn header_is_text(v: Seq<u8>) -> bool {
    forall|i: int| 0 <= i < v.len() ==> v[i] == 9 || (32 <= #[trigger] v[i] && v[i] < 127)
}

fn header_text(v: &[u8]) -> (r: bool)
    ensures
        r == header_is_text(v@),
{
    let mut i: usize = 0;
    while i < v.len()
        invariant
            i <= v@.len(),
            forall|k: int| 0 <= k < i ==> v@[k] == 9 || (32 <= #[trigger] v@[k] && v@[k] < 127),
        decreases v.len() - i,
    {
        let b = v[i];
        if !(b == 9 || (32 <= b && b < 127)) {
            return false;
        }
        i += 1;
    }
    true
}

proof fn lemma_ascii_is_utf8(v: Seq<u8>)
    requires
        forall|i: int| 0 <= i < v.len() ==> #[trigger] v[i] <= 0x7f,
    ensures
        valid_utf8(v),
{
    assert(v.subrange(0, 0) =~= Seq::<u8>::empty());
    assert(partial_valid_utf8(v, 0));
    assert forall|i: int| 0 <= 0 <= i < v.len() <= v.len() implies #[trigger] is_leading_byte_width_1(v[i]) by {
        assert(v[i] <= 0x7f);
    }
    partial_valid_utf8_extend_ascii_block(v, 0, v.len() as int);
    assert(v.subrange(0, v.len() as int) =~= v);
}

/// The `charset` parameter of a media type, where the text parses as one and has it.
pub uninterp spec fn charset_param(content_type: Seq<char>) -> Option<Seq<u8>>;

/// Parses the text as a `mime::Mime` and reads its `charset` parameter.
/// Trusted: the result is `charset_param` of the text (a function of the
/// text alone); nothing more is said of which texts parse.
#[verifier::external_body]
fn mime_charset(content_type: &str) -> (r: Option<Vec<u8>>)
    ensures
        opt_view(r) == charset_param(content_type@),
{
    let m: mime::Mime = content_type.parse().ok()?;
    m.get_param("charset").map(|c| c.as_str().as_bytes().to_vec())
}

/// The text that bytes decode to in the encoding a label names (with a
/// leading byte order mark choosing the encoding), where the label names one.
pub uninterp spec fn label_decoded(label: Seq<u8>, bytes: Seq<u8>) -> Option<Seq<u8>>;

/// `encoding_rs::Encoding::for_label`, then `Encoding::decode`. Trusted: the
/// result is `label_decoded` of the label and the bytes (a function of
/// them alone); `utf-8` is a label (the crate's documented example); the
/// text is a Rust string, so valid UTF-8.
#[verifier::external_body]
fn decode_by_label(label: &[u8], bytes: &[u8]) -> (r: Option<Vec<u8>>)
    ensures
        opt_view(r) == label_decoded(label@, bytes@),
        label@ == "utf-8".spec_bytes() ==> r is Some,
        r matches Some(t) ==> valid_utf8(t@),
{
    match encoding_rs::Encoding::for_label(label) {
        Some(e) => Some(e.decode(bytes).0.into_owned().into_bytes()),
        None => None,
    }
}

/// The label a response body is decoded by: the content type's charset
/// where the header is text and has one, else `utf-8`.
pub open spec fn resp_charset(content_type: Option<Seq<u8>>) -> Seq<u8> {
    match content_type {
        Some(v) => if header_is_text(v) {
            match charset_param(decode_utf8(v)) {
                Some(c) => c,
                None => "utf-8".spec_bytes(),
            }
        } else {
            "utf-8".spec_bytes()
        },
        None => "utf-8".spec_bytes(),
    }
}

/// A response body's text: decoded by its charset's label, or as UTF-8
/// where that label names no encoding.
pub open spec fn resp_text_s(content_type: Option<Seq<u8>>, bytes: Seq<u8>) -> Seq<u8> {
    match label_decoded(resp_charset(content_type), bytes) {
        Some(t) => t,
        None => label_decoded("utf-8".spec_bytes(), bytes)->0,
    }
}

/// The optional slice's view.
pub open spec fn opt_slice_view(x: Option<&[u8]>) -> Option<Seq<u8>> {
    match x {
        Some(v) => Some(v@),
        None => None,
    }
}

/// A response body's text (`yeah`), from its `Content-Type` header's value, if any.
pub fn yeah(content_type: Option<&[u8]>, bytes: &[u8]) -> (r: Vec<u8>)
    ensures
        r@ == resp_text_s(opt_slice_view(content_type), bytes@),
        valid_utf8(r@),
{
    let utf8 = crate::cstr::text_bytes("utf-8");
    let label: Vec<u8> = match content_type {
        Some(v) => {
            if header_text(v) {
                proof {
                    lemma_ascii_is_utf8(v@);
                }
                match crate::string_block::utf8_to_string(v) {
                    Some(s) => match mime_charset(s.as_str()) {
                        Some(c) => c,
                        None => crate::cstr::text_bytes("utf-8"),
                    },
                    None => crate::cstr::text_bytes("utf-8"),
                }
            } else {
                crate::cstr::text_bytes("utf-8")
            }
        },
        None => crate::cstr::text_bytes("utf-8"),
    };
    match decode_by_label(label.as_slice(), bytes) {
        Some(t) => t,
        None => match decode_by_label(utf8.as_slice(), bytes) {
            Some(t) => t,
            None => Vec::new(),
        },
    }
}

impl HttpResp {
    /// The body's text is worked out once, when first asked for
    /// (`resp_resolve_text`).
    pub fn resp_resolve_text(&mut self, content_type: Option<&[u8]>)
        ensures
            opt_view(final(self).text) == match opt_view(old(self).text) {
                Some(t) => Some(t),
                None => Some(resp_text_s(opt_slice_view(content_type), old(self).bytes@)),
            },
            final(self).text is Some,
            final(self).bytes@ == old(self).bytes@,
            final(self).status == old(self).status,
            opt_view(final(self).e) == opt_view(old(self).e),
            opt_view(final(self).cbinfo.download_path) == opt_view(old(self).cbinfo.download_path),
    {
        if self.text.is_none() {
            self.text = Some(yeah(content_type, self.bytes.as_slice()));
        }
    }
}

} // verus!
