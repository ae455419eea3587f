//! An in-memory key-value store that speaks the Redis wire protocol:
//! binary-safe strings, a glob matcher, the protocol codec, the typed
//! keyspace with expiry, and the command dispatcher with its handlers.

pub mod byte_glob;
pub mod byte_string;
pub mod commands;
pub mod db;
pub mod decimal;
pub mod errors;
pub mod protocol;
pub mod request;
pub mod response;
pub mod response_ext;
pub mod server;
