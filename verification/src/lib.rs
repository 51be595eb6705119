//! An in-memory key/value store speaking a line-oriented, length-prefixed
//! wire protocol: the frame codec, the typed shared store with lazy
//! expiration, the command layer, and the per-connection step that ties
//! them together. The surrounding socket loops live in the server binary.

pub mod commands;
pub mod conn;
pub mod db;
pub mod laws;
pub mod num;
pub mod resp;
pub mod resp_laws;
