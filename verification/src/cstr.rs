//! C-string helpers shared by the natives: turning a NUL-terminated or
//! length-delimited byte buffer into text, and copying text into a
//! plugin-provided buffer with truncation and a terminating NUL.

use vstd::prelude::*;
use vstd::utf8::*;
use vstd::string::*;

verus! {

/// Index of the first NUL byte in `s`, or `s.len()` when there is none.
pub open spec fn spec_cstr_len(s: Seq<u8>) -> int
    decreases s.len(),
{
    if s.len() == 0 {
        0
    } else if s[0] == 0 {
        0
    } else {
        1 + spec_cstr_len(s.drop_first())
    }
}

/// The bytes of `s` before its first NUL.
pub open spec fn spec_cstr(s: Seq<u8>) -> Seq<u8> {
    s.take(spec_cstr_len(s))
}

pub proof fn lemma_cstr_len(s: Seq<u8>)
    ensures
        0 <= spec_cstr_len(s) <= s.len(),
        forall|i: int| 0 <= i < spec_cstr_len(s) ==> s[i] != 0,
        spec_cstr_len(s) < s.len() ==> s[spec_cstr_len(s)] == 0,
    decreases s.len(),
{
    if s.len() > 0 && s[0] != 0 {
        lemma_cstr_len(s.drop_first());
        assert forall|i: int| 0 <= i < spec_cstr_len(s) implies s[i] != 0 by {
            if i > 0 {
                assert(s[i] == s.drop_first()[i - 1]);
            }
        }
    }
}

/// Characterizes `spec_cstr_len` by the position of the first NUL.
pub proof fn lemma_cstr_len_unique(s: Seq<u8>, k: int)
    requires
        0 <= k <= s.len(),
        forall|i: int| 0 <= i < k ==> s[i] != 0,
        k < s.len() ==> s[k] == 0,
    ensures
        spec_cstr_len(s) == k,
    decreases s.len(),
{
    if s.len() > 0 && k > 0 {
        assert forall|i: int| 0 <= i < k - 1 implies s.drop_first()[i] != 0 by {
            assert(s.drop_first()[i] == s[i + 1]);
        }
        if k - 1 < s.drop_first().len() {
            assert(s.drop_first()[k - 1] == s[k]);
        }
        lemma_cstr_len_unique(s.drop_first(), k - 1);
    }
}

/// The prefix of valid UTF-8 up to its first NUL byte is itself valid UTF-8:
/// a NUL byte never continues a multi-byte encoding.
pub proof fn lemma_cstr_valid_utf8(s: Seq<u8>)
    requires
        valid_utf8(s),
    ensures
        valid_utf8(spec_cstr(s)),
{
    lemma_cstr_len(s);
    let k = spec_cstr_len(s);
    if k < s.len() {
        assert(!is_continuation_byte(s[k]));
        is_char_boundary_iff_not_is_continuation_byte(s, k);
    } else {
        is_char_boundary_start_end_of_seq(s);
    }
    valid_utf8_split(s, k);
    assert(s.subrange(0, k) =~= spec_cstr(s));
}

/// The length that `strxx` gives a string: the explicit `end` when it is
/// positive, else the distance to the first NUL.
pub open spec fn spec_strxx_len(s: Seq<u8>, end: i32) -> int {
    if end < 1 {
        spec_cstr_len(s)
    } else {
        end as int
    }
}

/// What `strxx` yields: `None` for an empty string, for invalid UTF-8 unless
/// that is allowed, and otherwise the bytes of the string.
pub open spec fn spec_strxx(s: Seq<u8>, allow_invalid_utf8: bool, end: i32) -> Option<Seq<u8>> {
    let len = spec_strxx_len(s, end);
    if len == 0 {
        None
    } else if allow_invalid_utf8 || valid_utf8(s.take(len)) {
        Some(s.take(len))
    } else {
        None
    }
}

/// Validates UTF-8 with `simdutf8::basic::from_utf8`.
/// Trusted: the result is `true` exactly when the bytes are valid UTF-8,
/// which is what the function's documentation promises
/// (it is an analogue of `std::str::from_utf8`).
#[verifier::external_body]
fn simd_is_valid_utf8(bytes: &[u8]) -> (r: bool)
    ensures
        r == valid_utf8(bytes@),
{
    simdutf8::basic::from_utf8(bytes).is_ok()
}

/// Whether the bytes are valid UTF-8.
pub fn is_valid_utf8(bytes: &[u8]) -> (r: bool)
    ensures
        r == valid_utf8(bytes@),
{
    simd_is_valid_utf8(bytes)
}

/// Index of the first NUL byte of `s`, or its length.
pub fn cstr_len(s: &[u8]) -> (r: usize)
    ensures
        r == spec_cstr_len(s@),
{
    let mut i: usize = 0;
    while i < s.len() && s[i] != 0
        invariant
            i <= s.len(),
            forall|j: int| 0 <= j < i ==> s@[j] != 0,
        decreases s.len() - i,
    {
        i += 1;
    }
    proof {
        lemma_cstr_len_unique(s@, i as int);
    }
    i
}

/// Copies the first `n` bytes of `s`.
pub fn copy_prefix(s: &[u8], n: usize) -> (r: Vec<u8>)
    requires
        n <= s.len(),
    ensures
        r@ == s@.take(n as int),
{
    let mut out: Vec<u8> = Vec::with_capacity(n);
    let mut i: usize = 0;
    while i < n
        invariant
            i <= n <= s.len(),
            out@ == s@.take(i as int),
        decreases n - i,
    {
        out.push(s[i]);
        i += 1;
        assert(out@ =~= s@.take(i as int));
    }
    out
}

/// Turns the memory behind a plugin string into its bytes.
///
/// `s` is the memory starting at the string. When `end < 1` the string ends
/// at its first NUL, otherwise it is `end` bytes long. An empty string gives
/// `None`; so does invalid UTF-8 unless `allow_invalid_utf8` is set.
pub fn strxx(s: &[u8], allow_invalid_utf8: bool, end: i32) -> (r: Option<Vec<u8>>)
    requires
        end >= 1 ==> end <= s.len(),
    ensures
        r matches Some(v) ==> spec_strxx(s@, allow_invalid_utf8, end) == Some(v@),
        r is None ==> spec_strxx(s@, allow_invalid_utf8, end) is None,
        r matches Some(v) ==> v@.len() >= 1,
{
    let len: usize = if end < 1 {
        cstr_len(s)
    } else {
        end as usize
    };
    proof {
        lemma_cstr_len(s@);
    }
    if len == 0 {
        return None;
    }
    let bytes = copy_prefix(s, len);
    if allow_invalid_utf8 {
        Some(bytes)
    } else if simd_is_valid_utf8(bytes.as_slice()) {
        Some(bytes)
    } else {
        None
    }
}

/// The buffer after `write_to_sp_buf` copied `s` into `buf`: as much of `s`
/// as fits before the last byte, then a NUL, the rest of `buf` untouched.
pub open spec fn spec_sp_buf_written(s: Seq<u8>, buf: Seq<u8>) -> Seq<u8> {
    let sz = spec_sp_buf_count(s, buf.len() as int);
    s.take(sz) + seq![0u8] + buf.skip(sz + 1)
}

/// How many bytes of `s` fit into a buffer of `maxlength` bytes that must
/// keep room for a NUL terminator.
pub open spec fn spec_sp_buf_count(s: Seq<u8>, maxlength: int) -> int {
    if maxlength - 1 < s.len() {
        maxlength - 1
    } else {
        s.len() as int
    }
}

/// Copies `s` into a plugin buffer, truncating so that a NUL terminator fits,
/// and returns how many bytes of `s` were copied (a count of zero is reported
/// as `None`, as the native's non-zero return type does).
pub fn write_to_sp_buf(s: &[u8], buffer: &mut Vec<u8>) -> (r: Option<usize>)
    requires
        old(buffer).len() >= 1,
    ensures
        final(buffer)@ == spec_sp_buf_written(s@, old(buffer)@),
        r == (if spec_sp_buf_count(s@, old(buffer)@.len() as int) == 0 {
            None::<usize>
        } else {
            Some(spec_sp_buf_count(s@, old(buffer)@.len() as int) as usize)
        }),
{
    let sz: usize = if buffer.len() - 1 < s.len() {
        buffer.len() - 1
    } else {
        s.len()
    };
    let ghost old_buf = buffer@;
    let mut i: usize = 0;
    while i < sz
        invariant
            sz <= s.len(),
            sz < buffer.len(),
            buffer.len() == old_buf.len(),
            i <= sz,
            buffer@ == s@.take(i as int) + old_buf.skip(i as int),
        decreases sz - i,
    {
        buffer.set(i, s[i]);
        i += 1;
        assert(buffer@ =~= s@.take(i as int) + old_buf.skip(i as int));
    }
    buffer.set(sz, 0u8);
    assert(buffer@ =~= s@.take(sz as int) + seq![0u8] + old_buf.skip(sz + 1));
    if sz == 0 {
        None
    } else {
        Some(sz)
    }
}

/// The bytes of a string.
pub fn text_bytes(s: &str) -> (r: Vec<u8>)
    ensures
        r@ == s.spec_bytes(),
{
    crate::json::value::bytes_copy(s.as_bytes())
}

/// `a` followed by the bytes of `b`.
pub fn concat_text(a: &[u8], b: &str) -> (r: Vec<u8>)
    ensures
        r@ == a@ + b.spec_bytes(),
{
    let mut out = crate::json::value::bytes_copy(a);
    let mut t = text_bytes(b);
    out.append(&mut t);
    out
}

} // verus!
