//! Verified core of the srcwrtimer SourceMod extensions: C-string handling,
//! the packed string list, the JSON value model with its pointer navigation,
//! IPv4 address classification and the pure decisions of the HTTP and
//! websocket natives.

pub mod cstr;
pub mod host;
pub mod string_block;
pub mod json;
pub mod net;
pub mod ws;
pub mod http;
pub mod util;
pub mod bz2;
pub mod build_plan;
pub mod syncer;
