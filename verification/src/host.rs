//! What the extensions share about their host: file handles it lends them,
//! how a seek is passed to it, and the byte buffers in which it takes paths
//! and error messages.

#![allow(non_camel_case_types)]

use vstd::prelude::*;
use vstd::utf8::*;
use crate::cstr::{spec_cstr, spec_cstr_len, cstr_len, copy_prefix, lemma_cstr_len};

verus! {

/// Where a path the host builds is relative to.
#[derive(Clone, Copy, Debug, PartialEq, Eq, Structural)]
pub enum PathType {
    Path_None,
    Path_Game,
    Path_SM,
    Path_SM_Rel,
}

/// A file handle of the host (its function table).
#[derive(Clone, Copy, Debug, PartialEq, Eq, Structural)]
pub struct IFileObject {
    pub vtable: usize,
}

/// A file of the game's file system (its function table).
#[derive(Clone, Copy, Debug, PartialEq, Eq, Structural)]
pub struct valvefs {
    pub vtable: usize,
}

/// Where a seek counts from, and by how much.
#[derive(Clone, Copy, Debug, PartialEq, Eq, Structural)]
pub enum SeekOrigin {
    Start(u64),
    Current(i64),
    End(i64),
}

/// The host's seek arguments: the offset cut to 32 bits, and `0`, `1` or
/// `2` for the start, the current position or the end.
pub fn seek_args(pos: SeekOrigin) -> (r: (i32, i32))
    ensures
        r == match pos {
            SeekOrigin::Start(x) => (x as i32, 0i32),
            SeekOrigin::Current(x) => (x as i32, 1i32),
            SeekOrigin::End(x) => (x as i32, 2i32),
        },
{
    match pos {
        SeekOrigin::Start(x) => (x as i32, 0),
        SeekOrigin::Current(x) => (x as i32, 1),
        SeekOrigin::End(x) => (x as i32, 2),
    }
}

/// The path the host wrote into a buffer: the text before its NUL, which
/// must be there and be UTF-8 (the host's contract).
pub fn build_path_text(buf: &[u8]) -> (r: Vec<u8>)
    requires
        spec_cstr_len(buf@) < buf@.len(),
        valid_utf8(spec_cstr(buf@)),
    ensures
        r@ == spec_cstr(buf@),
{
    let n = cstr_len(buf);
    copy_prefix(buf, n)
}

/// `text` written into a buffer of `size` bytes through a writer that stops
/// when the buffer is full, then the last byte set to NUL: as much of the
/// text as fits in `size - 1` bytes, zeros after it (the buffer starts zeroed).
pub open spec fn truncated_message(text: Seq<u8>, size: int) -> Seq<u8> {
    let n = if text.len() < size - 1 { text.len() as int } else { size - 1 };
    text.take(n) + Seq::new((size - n) as nat, |i: int| 0u8)
}

/// `report_error`: the message the host is handed, in a zeroed buffer of
/// 1024 bytes of which the last stays NUL.
pub fn report_error_buffer(text: &[u8]) -> (r: Vec<u8>)
    ensures
        r@ == truncated_message(text@, 1024),
{
    let n: usize = if text.len() < 1023 { text.len() } else { 1023 };
    let mut out: Vec<u8> = Vec::new();
    let mut i: usize = 0;
    while i < n
        invariant
            i <= n <= text.len(),
            n <= 1023,
            out@ == text@.take(i as int),
        decreases n - i,
    {
        out.push(text[i]);
        i += 1;
        assert(out@ =~= text@.take(i as int));
    }
    while i < 1024
        invariant
            n <= i <= 1024,
            n <= text.len(),
            out@ == text@.take(n as int) + Seq::new((i - n) as nat, |j: int| 0u8),
        decreases 1024 - i,
    {
        out.push(0u8);
        i += 1;
        assert(out@ =~= text@.take(n as int) + Seq::new((i - n) as nat, |j: int| 0u8));
    }
    out
}

/// The error a failed load reports, in the host's buffer: the message and
/// a NUL, as much as fits in all but the last byte, and the last byte NUL.
pub open spec fn load_error_written(text: Seq<u8>, buf: Seq<u8>) -> Seq<u8> {
    let full = text + seq![0u8];
    let n = if full.len() < buf.len() - 1 { full.len() as int } else { buf.len() - 1 };
    full.take(n) + buf.subrange(n, buf.len() - 1) + seq![0u8]
}

/// `rust_sdk_on_load_wrapper` on a failed load: the error goes into the
/// host's buffer; the load is reported failed.
pub fn load_error_into(text: &[u8], buffer: &mut Vec<u8>) -> (r: bool)
    requires
        old(buffer)@.len() >= 1,
    ensures
        !r,
        final(buffer)@ == load_error_written(text@, old(buffer)@),
{
    let len = buffer.len();
    let room = len - 1;
    let n = if text.len() < room { text.len() + 1 } else { room };
    let ghost full = text@ + seq![0u8];
    let ghost ob = buffer@;
    let mut i: usize = 0;
    while i < n
        invariant
            i <= n <= room,
            room + 1 == len == ob.len(),
            n <= full.len(),
            full == text@ + seq![0u8],
            buffer@.len() == len,
            buffer@ == full.take(i as int) + ob.skip(i as int),
        decreases n - i,
    {
        let b = if i < text.len() { text[i] } else { 0u8 };
        assert(b == full[i as int]);
        buffer.set(i, b);
        i += 1;
        assert(buffer@ =~= full.take(i as int) + ob.skip(i as int));
    }
    buffer.set(room, 0);
    assert(buffer@ =~= full.take(n as int) + ob.subrange(n as int, room as int) + seq![0u8]);
    false
}

} // verus!
