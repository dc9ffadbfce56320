//! The command model: the closed set of client commands, and the constructor
//! helpers that are the client-facing surface for building them.

use vstd::prelude::*;
use vstd::string::StringExecFns;
use crate::value::{Kvpair, KvpairV, Value, ValueV};

verus! {

/// A client command: a request to read, write or probe one or more keys of
/// one named table. Batch commands process their list in the given order and
/// their results stay positionally aligned with it.
#[derive(Clone, Debug, PartialEq)]
pub enum CommandRequest {
    Hget { table: String, key: String },
    Hgetall { table: String },
    Hmget { table: String, keys: Vec<String> },
    Hset { table: String, pair: Kvpair },
    Hmset { table: String, pairs: Vec<Kvpair> },
    Hdel { table: String, key: String },
    Hmdel { table: String, keys: Vec<String> },
    Hexist { table: String, key: String },
    Hmexist { table: String, keys: Vec<String> },
}

/// The mathematical model of a `CommandRequest`.
pub enum ReqV {
    Hget { table: Seq<char>, key: Seq<char> },
    Hgetall { table: Seq<char> },
    Hmget { table: Seq<char>, keys: Seq<Seq<char>> },
    Hset { table: Seq<char>, pair: KvpairV },
    Hmset { table: Seq<char>, pairs: Seq<KvpairV> },
    Hdel { table: Seq<char>, key: Seq<char> },
    Hmdel { table: Seq<char>, keys: Seq<Seq<char>> },
    Hexist { table: Seq<char>, key: Seq<char> },
    Hmexist { table: Seq<char>, keys: Seq<Seq<char>> },
}

/// The models of a list of keys.
pub open spec fn keys_view(keys: Seq<String>) -> Seq<Seq<char>> {
    keys.map_values(|s: String| s@)
}

/// The models of a list of pairs.
pub open spec fn pairs_view(pairs: Seq<Kvpair>) -> Seq<KvpairV> {
    pairs.map_values(|p: Kvpair| p@)
}

impl View for CommandRequest {
    type V = ReqV;

    open spec fn view(&self) -> ReqV {
        match self {
            CommandRequest::Hget { table, key } => ReqV::Hget { table: table@, key: key@ },
            CommandRequest::Hgetall { table } => ReqV::Hgetall { table: table@ },
            CommandRequest::Hmget { table, keys } => (ReqV::Hmget {
                table: table@,
                keys: keys_view(keys@),
            }),
            CommandRequest::Hset { table, pair } => ReqV::Hset { table: table@, pair: pair@ },
            CommandRequest::Hmset { table, pairs } => (ReqV::Hmset {
                table: table@,
                pairs: pairs_view(pairs@),
            }),
            CommandRequest::Hdel { table, key } => ReqV::Hdel { table: table@, key: key@ },
            CommandRequest::Hmdel { table, keys } => (ReqV::Hmdel {
                table: table@,
                keys: keys_view(keys@),
            }),
            CommandRequest::Hexist { table, key } => ReqV::Hexist { table: table@, key: key@ },
            CommandRequest::Hmexist { table, keys } => (ReqV::Hmexist {
                table: table@,
                keys: keys_view(keys@),
            }),
        }
    }
}

impl CommandRequest {
    /// Build a single-key read.
    pub fn new_hget(table: &str, key: &str) -> (r: CommandRequest)
        ensures
            r@ == (ReqV::Hget { table: table@, key: key@ }),
    {
        CommandRequest::Hget { table: String::from_str(table), key: String::from_str(key) }
    }

    /// Build a whole-table enumeration.
    pub fn new_hgetall(table: &str) -> (r: CommandRequest)
        ensures
            r@ == (ReqV::Hgetall { table: table@ }),
    {
        CommandRequest::Hgetall { table: String::from_str(table) }
    }

    /// Build a batch read.
    pub fn new_hmget(table: &str, keys: Vec<String>) -> (r: CommandRequest)
        ensures
            r@ == (ReqV::Hmget { table: table@, keys: keys_view(keys@) }),
    {
        CommandRequest::Hmget { table: String::from_str(table), keys }
    }

    /// Build a single-key write.
    pub fn new_hset(table: &str, key: &str, value: Value) -> (r: CommandRequest)
        ensures
            r@ == (ReqV::Hset {
                table: table@,
                pair: KvpairV { key: key@, value: value@ },
            }),
    {
        CommandRequest::Hset { table: String::from_str(table), pair: Kvpair::new(key, value) }
    }

    /// Build a batch write.
    pub fn new_hmset(table: &str, pairs: Vec<Kvpair>) -> (r: CommandRequest)
        ensures
            r@ == (ReqV::Hmset { table: table@, pairs: pairs_view(pairs@) }),
    {
        CommandRequest::Hmset { table: String::from_str(table), pairs }
    }

    /// Build a single-key removal.
    pub fn new_hdel(table: &str, key: &str) -> (r: CommandRequest)
        ensures
            r@ == (ReqV::Hdel { table: table@, key: key@ }),
    {
        CommandRequest::Hdel { table: String::from_str(table), key: String::from_str(key) }
    }

    /// Build a batch removal.
    pub fn new_hmdel(table: &str, keys: Vec<String>) -> (r: CommandRequest)
        ensures
            r@ == (ReqV::Hmdel { table: table@, keys: keys_view(keys@) }),
    {
        CommandRequest::Hmdel { table: String::from_str(table), keys }
    }

    /// Build a single-key existence probe.
    pub fn new_hexist(table: &str, key: &str) -> (r: CommandRequest)
        ensures
            r@ == (ReqV::Hexist { table: table@, key: key@ }),
    {
        CommandRequest::Hexist { table: String::from_str(table), key: String::from_str(key) }
    }

    /// Build a batch existence probe.
    pub fn new_hmexist(table: &str, keys: Vec<String>) -> (r: CommandRequest)
        ensures
            r@ == (ReqV::Hmexist { table: table@, keys: keys_view(keys@) }),
    {
        CommandRequest::Hmexist { table: String::from_str(table), keys }
    }
}

} // verus!
