//! An in-memory key–value cache: the wire-protocol frame codec, the keyspace
//! engine with lazy expiry, the binary snapshot codec and the command
//! dispatcher, each with its contract.
use vstd::prelude::*;

pub mod codec_laws;
pub mod config;
pub mod connection;
pub mod frame;
pub mod server;
pub mod snapshot;
pub mod snapshot_laws;
pub mod storage;
pub mod text;
pub mod words;

pub use config::Config;
pub use connection::FrameReader;
pub use frame::{parse_message, RespError, RespParser, Value};
pub use server::handle_command;
pub use snapshot::parse_snapshot_bytes;
pub use storage::{Item, Storage};

verus! {

} // verus!
