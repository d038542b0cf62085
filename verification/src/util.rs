//! The utility extension: SHA-1 of a file's contents as hex for the
//! plugin, and its (empty) string list handle.

#![allow(non_snake_case)]

use vstd::prelude::*;

verus! {

/// The SHA-1 digest of some bytes.
pub uninterp spec fn sha1(data: Seq<u8>) -> Seq<u8>;

/// `sha1::Sha1::digest`: the digest of `data`. Trusted: the result is the
/// SHA-1 of `data` (named `sha1`, a function of the bytes alone) and has
/// the hash's output size, 20 bytes.
#[verifier::external_body]
fn sha1_digest(data: &[u8]) -> (r: Vec<u8>)
    ensures
        r@ == sha1(data@),
        r@.len() == 20,
{
    <sha1::Sha1 as sha1::Digest>::digest(data).to_vec()
}

/// A lowercase hexadecimal digit.
pub open spec fn hex_digit(v: int) -> u8 {
    if v < 10 { (48 + v) as u8 } else { (87 + v) as u8 }
}

/// Each byte as two lowercase hexadecimal digits, high nibble first.
pub open spec fn hex_lower(s: Seq<u8>) -> Seq<u8> {
    Seq::new(2 * s.len(), |i: int| hex_digit(if i % 2 == 0 { (s[i / 2] / 16) as int } else { (s[i / 2] % 16) as int }))
}

/// `hex::encode_to_slice`. Trusted: with an output of twice the input's
/// length it succeeds and writes each input byte as two lowercase hex
/// digits, high nibble first (the crate's documented encoding).
#[verifier::external_body]
fn hex_encode_to_slice(input: &[u8], output: &mut Vec<u8>) -> (r: bool)
    requires
        old(output)@.len() == 2 * input@.len(),
    ensures
        r,
        final(output)@ == hex_lower(input@),
{
    hex::encode_to_slice(input, output.as_mut_slice()).is_ok()
}

/// Once a file was read: the
/// 40 hex digits of the SHA-1 of its contents go into the plugin's buffer,
/// and the number of bytes read is handed back (cut to 32 bits; zero is
/// reported as nothing).
pub fn sha1_hex_into(data: &[u8], buffer: &mut Vec<u8>) -> (r: Option<u32>)
    requires
        old(buffer)@.len() == 40,
    ensures
        final(buffer)@ == hex_lower(sha1(data@)),
        r == if (data@.len() as u32) == 0 { None } else { Some(data@.len() as u32) },
{
    let digest = sha1_digest(data);
    let _ = hex_encode_to_slice(digest.as_slice(), buffer);
    let n = data.len() as u32;
    if n == 0 { None } else { Some(n) }
}

/// The utility extension's string list handle (it holds nothing).
pub struct SmolStringList;

impl SmolStringList {
    /// No size is reported.
    pub fn rust_handle_size_SmolStringList(&mut self, size: &mut u32) -> (r: bool)
        ensures
            !r,
            *final(size) == *old(size),
    {
        false
    }
}

/// Why an extension failed to load.
#[derive(Debug)]
pub struct LoadError {
    pub message: Vec<u8>,
}

/// Loading the utility extension: nothing to set up.
pub fn rust_sdk_on_load(late: bool) -> (r: Result<(), LoadError>)
    ensures
        r is Ok,
{
    Ok(())
}

} // verus!
