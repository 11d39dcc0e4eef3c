//! Papyrite storage engine: an append-only document store with a binary value
//! codec, a record log, dotted-path document edits and a small query language.

pub mod abi;
pub mod bytes;
pub mod codec;
pub mod command;
pub mod codec_laws;
pub mod db;
pub mod db_laws;
pub mod error;
pub mod json;
pub mod paths;
pub mod query;
pub mod record;
pub mod types;

pub use db::Database;
pub use error::DbError;
pub use paths::{set_path, unset_path};
pub use query::UpdateRequest;
pub use types::Value;
