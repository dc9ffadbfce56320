//! The laws the service obeys, stated over the spec-level model and proved
//! once and for all: round trips, removal, enumeration freshness, and the
//! meaning of existence probes.

use vstd::prelude::*;
use crate::errors::KvErrorV;
use crate::response::{error_resp, value_resp};
use crate::service::{get_or_unit, step_del, step_get, step_set};
use crate::storage::{pairs_match_table, sorted_pairs, st_del, st_get, st_set, StoreV};
use crate::value::{KvpairV, ValueV};

verus! {

/// The state of a backend that holds nothing yet.
pub open spec fn empty_store() -> StoreV {
    Map::empty()
}

/// Setting a key and then reading it back yields exactly the value stored.
pub proof fn lemma_set_get_round_trip(st: StoreV, t: Seq<char>, k: Seq<char>, v: ValueV)
    ensures
        step_get(step_set(st, t, k, v).0, t, k) == value_resp(v),
{
}

/// After deleting an existing key, reading it yields a not-found error.
pub proof fn lemma_delete_removes(st: StoreV, t: Seq<char>, k: Seq<char>)
    requires
        st_get(st, t, k) is Some,
    ensures
        step_get(step_del(st, t, k).0, t, k) == error_resp(KvErrorV::NotFound(t, k)),
{
}

/// A write's response carries the previous value of the key, or the absent
/// marker when the write created it.
pub proof fn lemma_set_returns_previous(st: StoreV, t: Seq<char>, k: Seq<char>, v: ValueV)
    ensures
        step_set(st, t, k, v).1 == value_resp(get_or_unit(st, t, k)),
{
}

/// One write in a history: storing a value under a key, or removing a key.
pub enum WriteOp {
    Put(Seq<char>, ValueV),
    Remove(Seq<char>),
}

/// The key a write touches.
pub open spec fn op_key(op: WriteOp) -> Seq<char> {
    match op {
        WriteOp::Put(k, _) => k,
        WriteOp::Remove(k) => k,
    }
}

/// The state after one write against table `t`.
pub open spec fn apply_op(st: StoreV, t: Seq<char>, op: WriteOp) -> StoreV {
    match op {
        WriteOp::Put(k, v) => st_set(st, t, k, v),
        WriteOp::Remove(k) => st_del(st, t, k),
    }
}

/// The state after a history of writes against table `t`, applied in order.
pub open spec fn apply_ops(st: StoreV, t: Seq<char>, ops: Seq<WriteOp>) -> StoreV
    decreases ops.len(),
{
    if ops.len() == 0 {
        st
    } else {
        apply_op(apply_ops(st, t, ops.drop_last()), t, ops.last())
    }
}

/// What a history decides about one key: `None` when the history never
/// touches it, otherwise what the latest touching write left behind.
pub open spec fn hist_effect(ops: Seq<WriteOp>, k: Seq<char>) -> Option<Option<ValueV>>
    decreases ops.len(),
{
    if ops.len() == 0 {
        None
    } else if op_key(ops.last()) == k {
        match ops.last() {
            WriteOp::Put(_, v) => Some(Some(v)),
            WriteOp::Remove(_) => Some(None),
        }
    } else {
        hist_effect(ops.drop_last(), k)
    }
}

/// After a history of writes, each key holds exactly what the latest write
/// touching it left behind; untouched keys keep their old value. In
/// particular an enumeration reports the latest value per key.
pub proof fn lemma_history_effect(st: StoreV, t: Seq<char>, ops: Seq<WriteOp>, k: Seq<char>)
    ensures
        st_get(apply_ops(st, t, ops), t, k) == (match hist_effect(ops, k) {
            Some(ov) => ov,
            None => st_get(st, t, k),
        }),
    decreases ops.len(),
{
    if ops.len() > 0 {
        lemma_history_effect(st, t, ops.drop_last(), k);
    }
}

/// After any history of puts into a table starting from nothing, a full
/// enumeration of that table is in strictly ascending key order, and it
/// carries exactly the keys put, each with the latest value put for it.
pub proof fn lemma_getall_ordering(t: Seq<char>, ops: Seq<WriteOp>, ps: Seq<KvpairV>)
    requires
        forall|i: int| 0 <= i < ops.len() ==> (#[trigger] ops[i]) is Put,
        pairs_match_table(apply_ops(empty_store(), t, ops), t, ps),
    ensures
        sorted_pairs(ps),
        forall|i: int|
            0 <= i < ps.len() ==> hist_effect(ops, (#[trigger] ps[i]).key) == Some(
                Some(ps[i].value),
            ),
        forall|k: Seq<char>|
            #[trigger] hist_effect(ops, k) matches Some(Some(v)) ==> exists|i: int|
                0 <= i < ps.len() && (#[trigger] ps[i]).key == k && ps[i].value == v,
{
    let st = apply_ops(empty_store(), t, ops);
    assert forall|i: int| 0 <= i < ps.len() implies hist_effect(ops, (#[trigger] ps[i]).key)
        == Some(Some(ps[i].value)) by {
        lemma_history_effect(empty_store(), t, ops, ps[i].key);
        assert(st_get(st, t, ps[i].key) == Some(ps[i].value));
    }
    assert forall|k: Seq<char>| (#[trigger] hist_effect(ops, k)) matches Some(Some(v)) implies
        exists|i: int|
            0 <= i < ps.len() && (#[trigger] ps[i]).key == k && ps[i].value == hist_effect(
                ops,
                k,
            )->Some_0->Some_0 by {
        lemma_history_effect(empty_store(), t, ops, k);
        assert(st_get(st, t, k) is Some);
        let w = choose|i: int| 0 <= i < ps.len() && (#[trigger] ps[i]).key == k;
        assert(ps[w].value == hist_effect(ops, k)->Some_0->Some_0);
    }
}

/// Whether position `i` of a history is a put of key `k` that no later
/// removal of `k` reverses.
pub open spec fn unreversed_put_at(ops: Seq<WriteOp>, k: Seq<char>, i: int) -> bool {
    &&& 0 <= i < ops.len()
    &&& ops[i] matches WriteOp::Put(pk, _) && pk == k
    &&& forall|j: int|
        i < j < ops.len() ==> !((#[trigger] ops[j]) matches WriteOp::Remove(dk) && dk == k)
}

/// Starting from nothing, a key exists exactly when the history holds a put
/// of it that no later removal reversed.
pub proof fn lemma_exists_iff_unreversed_put(t: Seq<char>, ops: Seq<WriteOp>, k: Seq<char>)
    ensures
        (st_get(apply_ops(empty_store(), t, ops), t, k) is Some) <==> exists|i: int|
            #[trigger] unreversed_put_at(ops, k, i),
    decreases ops.len(),
{
    lemma_history_effect(empty_store(), t, ops, k);
    if ops.len() == 0 {
        assert(forall|i: int| !unreversed_put_at(ops, k, i));
    } else {
        let pre = ops.drop_last();
        let last = ops.len() - 1;
        lemma_exists_iff_unreversed_put(t, pre, k);
        lemma_history_effect(empty_store(), t, pre, k);
        if op_key(ops.last()) == k {
            match ops.last() {
                WriteOp::Put(_, _) => {
                    assert(unreversed_put_at(ops, k, last));
                },
                WriteOp::Remove(_) => {
                    assert forall|i: int| !unreversed_put_at(ops, k, i) by {
                        if 0 <= i < ops.len() && (ops[i] matches WriteOp::Put(pk, _) && pk == k) {
                            assert(i < last);
                            assert(ops[last] matches WriteOp::Remove(dk) && dk == k);
                        }
                    }
                },
            }
        } else {
            assert forall|i: int| unreversed_put_at(pre, k, i) implies unreversed_put_at(
                ops,
                k,
                i,
            ) by {
                assert(ops[i] == pre[i]);
                assert(forall|j: int| i < j < pre.len() ==> ops[j] == pre[j]);
                assert(!(ops[last] matches WriteOp::Remove(dk) && dk == k));
            }
            assert forall|i: int| unreversed_put_at(ops, k, i) implies unreversed_put_at(
                pre,
                k,
                i,
            ) by {
                assert(!(ops[i] matches WriteOp::Put(pk, _) && pk == k && i == last));
                assert(i < last);
                assert(ops[i] == pre[i]);
                assert(forall|j: int| i < j < pre.len() ==> ops[j] == pre[j]);
            }
            if st_get(apply_ops(empty_store(), t, ops), t, k) is Some {
                let w = choose|i: int| unreversed_put_at(pre, k, i);
                assert(unreversed_put_at(ops, k, w));
            }
            if exists|i: int| #[trigger] unreversed_put_at(ops, k, i) {
                let w = choose|i: int| unreversed_put_at(ops, k, i);
                assert(unreversed_put_at(pre, k, w));
            }
        }
    }
}

} // verus!
