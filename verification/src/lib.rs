//! A minimal key-value service core: the value and command data model, an
//! in-memory storage backend behind an abstract storage contract, the
//! dispatcher that turns commands into storage calls and uniform responses,
//! and a length-prefixed wire codec for requests and responses.

pub mod codec;
pub mod command;
pub mod laws;
pub mod lex;
pub mod memtable;
pub mod storage;
pub mod errors;
pub mod response;
pub mod service;
pub mod value;

pub use command::CommandRequest;
pub use errors::KvError;
pub use memtable::MemTable;
pub use storage::Storage;
pub use response::CommandResponse;
pub use value::{Kvpair, Value};
