//! The value model: the tagged payloads a table can store, and the owned
//! key/value pair used to transport enumeration results.

use vstd::prelude::*;
use vstd::string::StringExecFns;

verus! {

/// A stored payload. `Unit` is the canonical absent-value marker, returned
/// whenever an operation has nothing meaningful to report.
///
/// A floating-point payload is carried as the raw 64 bits of its IEEE-754
/// representation; interpreting those bits is left to callers, so equality on
/// `Float` is bitwise.
#[derive(Clone, Debug, PartialEq)]
pub enum Value {
    Unit,
    Bool(bool),
    Integer(i64),
    Float(u64),
    Str(String),
    Bytes(Vec<u8>),
}

/// The mathematical model of a `Value`: strings become character sequences,
/// byte payloads become byte sequences.
pub enum ValueV {
    Unit,
    Bool(bool),
    Integer(i64),
    Float(u64),
    Str(Seq<char>),
    Bytes(Seq<u8>),
}

impl View for Value {
    type V = ValueV;

    open spec fn view(&self) -> ValueV {
        match self {
            Value::Unit => ValueV::Unit,
            Value::Bool(b) => ValueV::Bool(*b),
            Value::Integer(i) => ValueV::Integer(*i),
            Value::Float(bits) => ValueV::Float(*bits),
            Value::Str(s) => ValueV::Str(s@),
            Value::Bytes(b) => ValueV::Bytes(b@),
        }
    }
}

impl Value {
    /// An exact copy; unlike the derived `Clone`, its contract is visible to
    /// the verifier.
    pub fn dup(&self) -> (r: Value)
        ensures
            r@ == self@,
    {
        match self {
            Value::Unit => Value::Unit,
            Value::Bool(b) => Value::Bool(*b),
            Value::Integer(i) => Value::Integer(*i),
            Value::Float(bits) => Value::Float(*bits),
            Value::Str(s) => Value::Str(s.clone()),
            Value::Bytes(b) => {
                let mut out: Vec<u8> = Vec::new();
                let mut i: usize = 0;
                while i < b.len()
                    invariant
                        i <= b.len(),
                        out@ == b@.subrange(0, i as int),
                    decreases b.len() - i,
                {
                    out.push(b[i]);
                    i = i + 1;
                }
                proof {
                    assert(out@ =~= b@);
                }
                Value::Bytes(out)
            },
        }
    }
}

impl Default for Value {
    /// The absent-value marker.
    fn default() -> (r: Value)
        ensures
            r@ == ValueV::Unit,
    {
        Value::Unit
    }
}

impl From<bool> for Value {
    fn from(b: bool) -> (r: Value) {
        Value::Bool(b)
    }
}

impl vstd::std_specs::convert::FromSpecImpl<bool> for Value {
    open spec fn obeys_from_spec() -> bool {
        true
    }

    open spec fn from_spec(b: bool) -> Value {
        Value::Bool(b)
    }
}

impl From<i64> for Value {
    fn from(i: i64) -> (r: Value) {
        Value::Integer(i)
    }
}

impl vstd::std_specs::convert::FromSpecImpl<i64> for Value {
    open spec fn obeys_from_spec() -> bool {
        true
    }

    open spec fn from_spec(i: i64) -> Value {
        Value::Integer(i)
    }
}

impl From<String> for Value {
    fn from(s: String) -> (r: Value) {
        Value::Str(s)
    }
}

impl vstd::std_specs::convert::FromSpecImpl<String> for Value {
    open spec fn obeys_from_spec() -> bool {
        true
    }

    open spec fn from_spec(s: String) -> Value {
        Value::Str(s)
    }
}

/// A spec-level `Value` cannot hold a freshly allocated `String`, so this
/// conversion promises nothing; callers that need the contract build
/// `Value::Str` themselves.
impl From<&str> for Value {
    fn from(s: &str) -> (r: Value) {
        Value::Str(String::from_str(s))
    }
}

impl vstd::std_specs::convert::FromSpecImpl<&str> for Value {
    open spec fn obeys_from_spec() -> bool {
        false
    }

    open spec fn from_spec(s: &str) -> Value {
        Value::Unit
    }
}

/// An owned (key, value) pair, used to carry enumeration results.
#[derive(Clone, Debug, PartialEq)]
pub struct Kvpair {
    pub key: String,
    pub value: Value,
}

/// The mathematical model of a `Kvpair`.
pub struct KvpairV {
    pub key: Seq<char>,
    pub value: ValueV,
}

impl View for Kvpair {
    type V = KvpairV;

    open spec fn view(&self) -> KvpairV {
        KvpairV { key: self.key@, value: self.value@ }
    }
}

impl Kvpair {
    pub fn new(key: &str, value: Value) -> (r: Kvpair)
        ensures
            r@ == (KvpairV { key: key@, value: value@ }),
    {
        Kvpair { key: String::from_str(key), value }
    }

    /// An exact copy with a contract the verifier can use.
    pub fn dup(&self) -> (r: Kvpair)
        ensures
            r@ == self@,
    {
        Kvpair { key: self.key.clone(), value: self.value.dup() }
    }
}

} // verus!
