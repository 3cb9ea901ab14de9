//! An in-memory key-value store that speaks the RESP wire format: the value
//! model, the codec, the keyspace with its records, the pub/sub registry and
//! the per-connection command state machine.

pub mod client_handler;
pub mod clock;
pub mod codec_laws;
pub mod commands;
pub mod db;
pub mod decimal;
pub mod laws;
pub mod list;
pub mod list_commands;
pub mod mailbox;
pub mod parser;
pub mod registry;
pub mod stream;
pub mod stream_commands;
pub mod text;
pub mod values;
