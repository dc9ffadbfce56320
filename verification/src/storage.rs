//! The storage contract: the abstract state of a backend, the per-call
//! behaviour any backend must provide, and the spec-level operations the
//! dispatcher's contracts are stated over.

use vstd::prelude::*;
use crate::errors::KvError;
use crate::lex::lex_lt;
use crate::value::{Kvpair, KvpairV, Value, ValueV};

verus! {

/// The abstract state of a storage backend: a mapping from table name to a
/// mapping from key to stored value.
pub type StoreV = Map<Seq<char>, Map<Seq<char>, ValueV>>;

/// The keyspace of one table; an absent table behaves as an empty one.
pub open spec fn table_of(st: StoreV, t: Seq<char>) -> Map<Seq<char>, ValueV> {
    if st.contains_key(t) {
        st[t]
    } else {
        Map::empty()
    }
}

/// The value a table currently holds under a key, if any.
pub open spec fn st_get(st: StoreV, t: Seq<char>, k: Seq<char>) -> Option<ValueV> {
    if table_of(st, t).contains_key(k) {
        Some(table_of(st, t)[k])
    } else {
        None
    }
}

/// The state after storing `v` under key `k` of table `t`; the first write
/// to an absent table creates it.
pub open spec fn st_set(st: StoreV, t: Seq<char>, k: Seq<char>, v: ValueV) -> StoreV {
    st.insert(t, table_of(st, t).insert(k, v))
}

/// The state after removing key `k` from table `t`; removing from an absent
/// table changes nothing.
pub open spec fn st_del(st: StoreV, t: Seq<char>, k: Seq<char>) -> StoreV {
    if st.contains_key(t) {
        st.insert(t, st[t].remove(k))
    } else {
        st
    }
}

/// Pairs in strictly ascending key order (so keys are unique).
pub open spec fn sorted_pairs(ps: Seq<KvpairV>) -> bool {
    forall|i: int, j: int| 0 <= i < j < ps.len() ==> lex_lt(ps[i].key, ps[j].key)
}

/// `ps` is the full enumeration of table `t`: ascending by key, no
/// duplicates, and carrying exactly the table's live pairs.
pub open spec fn pairs_match_table(st: StoreV, t: Seq<char>, ps: Seq<KvpairV>) -> bool {
    &&& sorted_pairs(ps)
    &&& forall|i: int|
        0 <= i < ps.len() ==> table_of(st, t).contains_key(#[trigger] ps[i].key) && table_of(
            st,
            t,
        )[ps[i].key] == ps[i].value
    &&& forall|k: Seq<char>|
        table_of(st, t).contains_key(k) ==> exists|i: int| 0 <= i < ps.len() && #[trigger] ps[
            i
        ].key == k
}

/// The capability set required of a storage backend.
///
/// Each call is atomic with respect to the touched table: it either performs
/// its whole effect and returns `Ok`, or leaves the state unchanged and
/// returns a backend error. An absent table reads as empty and is created by
/// the first write.
pub trait Storage: Sized {
    /// The abstract state of the backend.
    spec fn st(&self) -> StoreV;

    /// The internal well-formedness the backend maintains.
    spec fn inv(&self) -> bool;

    /// Whether this backend never reports a backend error. A backend for
    /// which this holds promises `Ok` from every call, and callers can then
    /// rule the error arms out; the in-memory backend is such a one.
    spec fn infallible(&self) -> bool;

    /// Read the value under one key.
    fn get(&self, table: &str, key: &str) -> (r: Result<Option<Value>, KvError>)
        requires
            self.inv(),
        ensures
            match r {
                Ok(Some(v)) => st_get(self.st(), table@, key@) == Some(v@),
                Ok(None) => st_get(self.st(), table@, key@) is None,
                Err(e) => e is BackendError,
            },
            self.infallible() ==> r is Ok,
    ;

    /// Store a value under one key, returning the value it overwrote, if any.
    fn set(&mut self, table: &str, key: &str, value: Value) -> (r: Result<
        Option<Value>,
        KvError,
    >)
        requires
            old(self).inv(),
        ensures
            final(self).inv(),
            match r {
                Ok(prev) => {
                    &&& final(self).st() == st_set(old(self).st(), table@, key@, value@)
                    &&& match prev {
                        Some(v) => st_get(old(self).st(), table@, key@) == Some(v@),
                        None => st_get(old(self).st(), table@, key@) is None,
                    }
                },
                Err(e) => final(self).st() == old(self).st() && e is BackendError,
            },
            final(self).infallible() == old(self).infallible(),
            old(self).infallible() ==> r is Ok,
    ;

    /// Remove one key, returning the value it held, if any.
    fn del(&mut self, table: &str, key: &str) -> (r: Result<Option<Value>, KvError>)
        requires
            old(self).inv(),
        ensures
            final(self).inv(),
            match r {
                Ok(Some(v)) => st_get(old(self).st(), table@, key@) == Some(v@) && final(self).st()
                    == st_del(old(self).st(), table@, key@),
                Ok(None) => st_get(old(self).st(), table@, key@) is None && final(self).st() == old(
                    self,
                ).st(),
                Err(e) => final(self).st() == old(self).st() && e is BackendError,
            },
            final(self).infallible() == old(self).infallible(),
            old(self).infallible() ==> r is Ok,
    ;

    /// Whether one key currently holds a value.
    fn contains(&self, table: &str, key: &str) -> (r: Result<bool, KvError>)
        requires
            self.inv(),
        ensures
            match r {
                Ok(b) => b == (st_get(self.st(), table@, key@) is Some),
                Err(e) => e is BackendError,
            },
            self.infallible() ==> r is Ok,
    ;

    /// Enumerate a whole table in ascending key order.
    fn get_all(&self, table: &str) -> (r: Result<Vec<Kvpair>, KvError>)
        requires
            self.inv(),
        ensures
            match r {
                Ok(v) => pairs_match_table(
                    self.st(),
                    table@,
                    v@.map_values(|p: Kvpair| p@),
                ),
                Err(e) => e is BackendError,
            },
            self.infallible() ==> r is Ok,
    ;
}

} // verus!
