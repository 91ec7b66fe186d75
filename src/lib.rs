//! Recovery of string identifiers of the form `Global.Text.<n>` from their
//! lookup2 digests.
pub mod digits;
pub mod lookup2;
pub mod search;
pub mod loader;
