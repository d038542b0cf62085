//! The JSON value model behind the SRCWRJSON natives, with the pointer
//! navigation (`/a/0/b`, with creation of missing parents on request) and
//! the operations the natives perform at the place a key leads to.

pub mod value;
pub mod pointer;
pub mod walk;
pub mod natives;
pub mod laws;
pub mod sorted;
pub mod structs;
