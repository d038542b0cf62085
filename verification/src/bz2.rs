//! The bzip2 extension: (de)compressing a file on a worker thread and
//! reporting to the plugin how it went.

#![allow(non_snake_case)]

use vstd::prelude::*;
use crate::cstr::{spec_strxx, strxx};

verus! {

/// What the plugin's callback is told.
#[derive(Clone, Copy, Debug, PartialEq, Eq, Structural)]
#[allow(non_camel_case_types)]
pub enum BzError {
    BZ_OK,
    BZ_IO_ERROR,
    BZ_IO_ERROR_INPUT,
    BZ_IO_ERROR_OUTPUT,
}

/// A job: the paths as the plugin names them (handed back to it), the full
/// paths to work on, the plugin's value, and the compression level
/// (`None` to decompress).
#[derive(Debug)]
pub struct Bz2Info {
    pub infile: Vec<u8>,
    pub outfile: Vec<u8>,
    pub infilefull: Vec<u8>,
    pub outfilefull: Vec<u8>,
    pub data: i32,
    pub compression_level: Option<i32>,
    pub error: BzError,
}

/// The job for the worker thread, when all four
/// paths are non-empty UTF-8 strings; a negative level means decompress.
pub fn rust_BZ2_XompressFile(infile: &[u8], outfile: &[u8], infilefull: &[u8], outfilefull: &[u8], compression_level: i32, data: i32) -> (r: Option<Bz2Info>)
    ensures
        ({
            let a = spec_strxx(infile@, false, 0);
            let b = spec_strxx(outfile@, false, 0);
            let c = spec_strxx(infilefull@, false, 0);
            let d = spec_strxx(outfilefull@, false, 0);
            if a is Some && b is Some && c is Some && d is Some {
                r matches Some(info) && info.infile@ == a->0 && info.outfile@ == b->0
                    && info.infilefull@ == c->0 && info.outfilefull@ == d->0 && info.data == data
                    && info.compression_level == (if compression_level < 0 { None } else { Some(compression_level) })
                    && info.error == BzError::BZ_OK
            } else {
                r is None
            }
        }),
{
    let a = match strxx(infile, false, 0) { Some(x) => x, None => { return None; } };
    let b = match strxx(outfile, false, 0) { Some(x) => x, None => { return None; } };
    let c = match strxx(infilefull, false, 0) { Some(x) => x, None => { return None; } };
    let d = match strxx(outfilefull, false, 0) { Some(x) => x, None => { return None; } };
    Some(Bz2Info {
        infile: a,
        outfile: b,
        infilefull: c,
        outfilefull: d,
        data,
        compression_level: if compression_level < 0 { None } else { Some(compression_level) },
        error: BzError::BZ_OK,
    })
}

/// `bzip2::Compression::try_new`. Trusted: it accepts exactly the levels
/// 1 to 9 (its documentation and source).
#[verifier::external_body]
fn compression_level_ok(level: u32) -> (r: bool)
    ensures
        r == (1 <= level <= 9),
{
    bzip2::Compression::try_new(level).is_some()
}

/// How far the worker got (`worker_internal`).
pub enum Bz2Stage {
    /// The input file could not be opened.
    InputNotOpened,
    /// The output file could not be created.
    OutputNotCreated,
    /// Both files were open; whether copying through the (de)compressor
    /// worked, and whether flushing the output did.
    Copied { copy_ok: bool, flush_ok: bool },
}

/// What the worker reports for how far it got.
pub fn worker_result(stage: Bz2Stage) -> (r: BzError)
    ensures
        r == match stage {
            Bz2Stage::InputNotOpened => BzError::BZ_IO_ERROR_INPUT,
            Bz2Stage::OutputNotCreated => BzError::BZ_IO_ERROR_OUTPUT,
            Bz2Stage::Copied { copy_ok, flush_ok } => if copy_ok && flush_ok { BzError::BZ_OK } else { BzError::BZ_IO_ERROR },
        },
{
    match stage {
        Bz2Stage::InputNotOpened => BzError::BZ_IO_ERROR_INPUT,
        Bz2Stage::OutputNotCreated => BzError::BZ_IO_ERROR_OUTPUT,
        Bz2Stage::Copied { copy_ok, flush_ok } => if copy_ok && flush_ok { BzError::BZ_OK } else { BzError::BZ_IO_ERROR },
    }
}

/// Whether the worker, once both files are open, can go on: decompressing
/// always can; compressing only at a level of 1 to 9 (at any other the
/// compressor's constructor panics and the worker thread dies without a
/// report).
pub fn level_usable(level: Option<i32>) -> (r: bool)
    ensures
        r == match level {
            Some(l) => 1 <= l <= 9,
            None => true,
        },
{
    match level {
        Some(l) => compression_level_ok(l as u32) && l >= 0,
        None => true,
    }
}

} // verus!
