//! Scripts of zipper operations: how they are decoded from bytes, carried out, and told as text.

pub mod dec;
pub mod header;
pub mod op;
pub mod reply;
pub mod script;
pub mod server;
pub mod session;
pub mod show;
pub mod trace;
