//! A small key-value server that speaks part of the Redis protocol (RESP):
//! PING, SET, GET, DEL and SAVE over a store of keys holding lists of tagged
//! elements, kept on disk as JSON.
//!
//! - `resp`: reading received buffers into frames of elements, and writing
//!   elements back as protocol text;
//! - `store`: the key-value store;
//! - `commands`: the commands and the choice of a command for a buffer;
//! - `json`: the JSON text of the store on disk;
//! - `laws`: properties that relate the commands to one another;
//! - `text`: character-level helpers.

pub mod text;
pub mod resp;
pub mod store;
pub mod json;
pub mod commands;
pub mod laws;
