//! The response model: the uniform envelope every command execution returns,
//! successful or not.

use vstd::prelude::*;
use crate::errors::{KvError, KvErrorV};
use crate::value::{Kvpair, KvpairV, Value, ValueV};
use crate::command::pairs_view;

verus! {

/// The status code of a successful response.
pub open spec fn status_ok() -> u32 {
    200u32
}

/// A uniform response envelope. Exactly one of `values` / `pairs` is
/// populated for any given command family; single-value results populate
/// `values` with one element. `status` 200 signals success; any other status
/// signals an error described by `message`.
#[derive(Clone, Debug, PartialEq)]
pub struct CommandResponse {
    pub status: u32,
    pub message: String,
    pub values: Vec<Value>,
    pub pairs: Vec<Kvpair>,
}

/// The mathematical model of a `CommandResponse`.
pub struct RespV {
    pub status: u32,
    pub message: Seq<char>,
    pub values: Seq<ValueV>,
    pub pairs: Seq<KvpairV>,
}

impl View for CommandResponse {
    type V = RespV;

    open spec fn view(&self) -> RespV {
        RespV {
            status: self.status,
            message: self.message@,
            values: self.values@.map_values(|v: Value| v@),
            pairs: pairs_view(self.pairs@),
        }
    }
}

/// The model of a successful response carrying one value.
pub open spec fn value_resp(v: ValueV) -> RespV {
    RespV { status: status_ok(), message: Seq::empty(), values: seq![v], pairs: Seq::empty() }
}

/// The model of a successful response carrying a list of values.
pub open spec fn values_resp(vs: Seq<ValueV>) -> RespV {
    RespV { status: status_ok(), message: Seq::empty(), values: vs, pairs: Seq::empty() }
}

/// The model of an error response.
pub open spec fn error_resp(e: KvErrorV) -> RespV {
    RespV { status: e.status(), message: e.message(), values: Seq::empty(), pairs: Seq::empty() }
}

impl CommandResponse {
    /// A successful response carrying one value.
    pub fn ok_value(v: Value) -> (r: CommandResponse)
        ensures
            r@ == value_resp(v@),
    {
        let values = vec![v];
        let r = CommandResponse { status: 200, message: String::new(), values, pairs: Vec::new() };
        proof {
            assert(r@.values =~= seq![v@]);
            assert(r@.pairs =~= Seq::<KvpairV>::empty());
            assert(r@ == value_resp(v@));
        }
        r
    }

    /// A successful response carrying a list of values.
    pub fn ok_values(values: Vec<Value>) -> (r: CommandResponse)
        ensures
            r@ == values_resp(values@.map_values(|v: Value| v@)),
    {
        let r = CommandResponse { status: 200, message: String::new(), values, pairs: Vec::new() };
        proof {
            assert(r@.pairs =~= Seq::<KvpairV>::empty());
            assert(r@ == values_resp(r.values@.map_values(|v: Value| v@)));
        }
        r
    }

    /// A successful response carrying a list of pairs.
    pub fn ok_pairs(pairs: Vec<Kvpair>) -> (r: CommandResponse)
        ensures
            r@.status == status_ok(),
            r@.message == Seq::<char>::empty(),
            r@.values == Seq::<ValueV>::empty(),
            r@.pairs == pairs_view(pairs@),
    {
        let r = CommandResponse { status: 200, message: String::new(), values: Vec::new(), pairs };
        proof {
            assert(r@.values =~= Seq::<ValueV>::empty());
        }
        r
    }

    /// An error response for a dispatcher-level error.
    pub fn from_error(e: &KvError) -> (r: CommandResponse)
        ensures
            r@ == error_resp(e@),
    {
        let r = CommandResponse {
            status: e.status(),
            message: e.message(),
            values: Vec::new(),
            pairs: Vec::new(),
        };
        proof {
            assert(r@.values =~= Seq::<ValueV>::empty());
            assert(r@.pairs =~= Seq::<KvpairV>::empty());
        }
        r
    }
}

} // verus!
