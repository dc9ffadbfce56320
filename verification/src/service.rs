//! The dispatcher: maps each command to exactly the storage calls it
//! implies and normalizes the outcome into a uniform response, together with
//! the spec-level model of each command and the laws the service obeys.

use vstd::prelude::*;
use vstd::string::StringExecFns;
use crate::command::{keys_view, pairs_view, CommandRequest, ReqV};
use crate::errors::{KvError, KvErrorV};
use crate::response::{error_resp, status_ok, value_resp, values_resp, CommandResponse, RespV};
use crate::storage::{pairs_match_table, st_del, st_get, st_set, Storage, StoreV};
use crate::value::{Kvpair, KvpairV, Value, ValueV};

verus! {

/// The value a read of one key reports inside a batch: the stored value, or
/// the absent-value marker.
pub open spec fn get_or_unit(st: StoreV, t: Seq<char>, k: Seq<char>) -> ValueV {
    match st_get(st, t, k) {
        Some(v) => v,
        None => ValueV::Unit,
    }
}

/// The response of a single-key read.
pub open spec fn step_get(st: StoreV, t: Seq<char>, k: Seq<char>) -> RespV {
    match st_get(st, t, k) {
        Some(v) => value_resp(v),
        None => error_resp(KvErrorV::NotFound(t, k)),
    }
}

/// The state and response of a single-key write: the new state stores the
/// value, the response carries the previous value or the absent marker.
pub open spec fn step_set(st: StoreV, t: Seq<char>, k: Seq<char>, v: ValueV) -> (StoreV, RespV) {
    (st_set(st, t, k, v), value_resp(get_or_unit(st, t, k)))
}

/// The state and response of a single-key removal.
pub open spec fn step_del(st: StoreV, t: Seq<char>, k: Seq<char>) -> (StoreV, RespV) {
    match st_get(st, t, k) {
        Some(v) => (st_del(st, t, k), value_resp(v)),
        None => (st, error_resp(KvErrorV::NotFound(t, k))),
    }
}

/// The response of a single-key existence probe.
pub open spec fn step_exist(st: StoreV, t: Seq<char>, k: Seq<char>) -> RespV {
    value_resp(ValueV::Bool(st_get(st, t, k) is Some))
}

/// A response that reports a backend failure: the error response built from
/// the backend error's description, so a 500 status, the description as the
/// message, and no payload. Which description the backend chose is not
/// fixed by the storage contract.
pub open spec fn backend_err_resp(r: RespV) -> bool {
    exists|m: Seq<char>| r == #[trigger] error_resp(KvErrorV::BackendError(m))
}

/// The per-position results of a batch read none of whose positions failed.
pub open spec fn mget_values(st: StoreV, t: Seq<char>, keys: Seq<Seq<char>>) -> Seq<ValueV> {
    Seq::new(keys.len(), |i: int| get_or_unit(st, t, keys[i]))
}

/// The per-position results of a batch existence probe none of whose
/// positions failed.
pub open spec fn mexist_values(st: StoreV, t: Seq<char>, keys: Seq<Seq<char>>) -> Seq<ValueV> {
    Seq::new(keys.len(), |i: int| ValueV::Bool(st_get(st, t, keys[i]) is Some))
}

/// The failure pattern of a batch no position of which failed.
pub open spec fn no_failures(n: nat) -> Seq<bool> {
    Seq::new(n, |i: int| false)
}

/// The state and per-position results of a batch write, given which
/// positions the backend failed on (`errs`): a failed position leaves the
/// state alone and reports the absent marker; the batch never aborts.
pub open spec fn run_mset(st: StoreV, t: Seq<char>, ps: Seq<KvpairV>, errs: Seq<bool>) -> (
    StoreV,
    Seq<ValueV>,
)
    decreases ps.len(),
{
    if ps.len() == 0 {
        (st, Seq::empty())
    } else {
        let prefix = run_mset(st, t, ps.drop_last(), errs.drop_last());
        let p = ps.last();
        if errs.last() {
            (prefix.0, prefix.1.push(ValueV::Unit))
        } else {
            (st_set(prefix.0, t, p.key, p.value), prefix.1.push(get_or_unit(prefix.0, t, p.key)))
        }
    }
}

/// The state and per-position results of a batch removal, given which
/// positions the backend failed on.
pub open spec fn run_mdel(st: StoreV, t: Seq<char>, ks: Seq<Seq<char>>, errs: Seq<bool>) -> (
    StoreV,
    Seq<ValueV>,
)
    decreases ks.len(),
{
    if ks.len() == 0 {
        (st, Seq::empty())
    } else {
        let prefix = run_mdel(st, t, ks.drop_last(), errs.drop_last());
        let k = ks.last();
        if errs.last() {
            (prefix.0, prefix.1.push(ValueV::Unit))
        } else {
            (st_del(prefix.0, t, k), prefix.1.push(get_or_unit(prefix.0, t, k)))
        }
    }
}

/// The batch-write guarantee: for some pattern of per-position backend
/// failures, the final state and the result list are exactly what `run_mset`
/// gives for it.
pub open spec fn hmset_post(
    st0: StoreV,
    t: Seq<char>,
    ps: Seq<KvpairV>,
    st1: StoreV,
    vs: Seq<ValueV>,
) -> bool {
    exists|errs: Seq<bool>|
        {
            &&& errs.len() == ps.len()
            &&& st1 == (#[trigger] run_mset(st0, t, ps, errs)).0
            &&& vs == run_mset(st0, t, ps, errs).1
        }
}

/// The batch-removal guarantee, as `hmset_post` is for batch writes.
pub open spec fn hmdel_post(
    st0: StoreV,
    t: Seq<char>,
    ks: Seq<Seq<char>>,
    st1: StoreV,
    vs: Seq<ValueV>,
) -> bool {
    exists|errs: Seq<bool>|
        {
            &&& errs.len() == ks.len()
            &&& st1 == (#[trigger] run_mdel(st0, t, ks, errs)).0
            &&& vs == run_mdel(st0, t, ks, errs).1
        }
}

/// What `dispatch` guarantees, per command: exactly the storage calls the
/// command implies, with single-key errors surfaced as error responses and
/// batch per-position failures degraded to neutral values.
pub open spec fn dispatch_post(c: ReqV, st0: StoreV, st1: StoreV, r: RespV) -> bool {
    match c {
        ReqV::Hget { table, key } => st1 == st0 && (r == step_get(st0, table, key)
            || backend_err_resp(r)),
        ReqV::Hgetall { table } => st1 == st0 && ((r.status == status_ok() && r.message
            == Seq::<char>::empty() && r.values == Seq::<ValueV>::empty() && pairs_match_table(
            st0,
            table,
            r.pairs,
        )) || backend_err_resp(r)),
        ReqV::Hset { table, pair } => (st1 == step_set(st0, table, pair.key, pair.value).0 && r
            == step_set(st0, table, pair.key, pair.value).1) || (st1 == st0 && backend_err_resp(
            r,
        )),
        ReqV::Hdel { table, key } => (st1 == step_del(st0, table, key).0 && r == step_del(
            st0,
            table,
            key,
        ).1) || (st1 == st0 && backend_err_resp(r)),
        ReqV::Hexist { table, key } => st1 == st0 && (r == step_exist(st0, table, key)
            || backend_err_resp(r)),
        ReqV::Hmget { table, keys } => st1 == st0 && r.status == status_ok() && r.message
            == Seq::<char>::empty() && r.pairs == Seq::<KvpairV>::empty() && r.values.len()
            == keys.len() && (forall|i: int|
            0 <= i < keys.len() ==> #[trigger] r.values[i] == get_or_unit(st0, table, keys[i])
                || r.values[i] == ValueV::Unit),
        ReqV::Hmexist { table, keys } => st1 == st0 && r.status == status_ok() && r.message
            == Seq::<char>::empty() && r.pairs == Seq::<KvpairV>::empty() && r.values.len()
            == keys.len() && (forall|i: int|
            0 <= i < keys.len() ==> #[trigger] r.values[i] == ValueV::Bool(
                st_get(st0, table, keys[i]) is Some,
            ) || r.values[i] == ValueV::Bool(false)),
        ReqV::Hmset { table, pairs } => r.status == status_ok() && r.message
            == Seq::<char>::empty() && r.pairs == Seq::<KvpairV>::empty() && hmset_post(
            st0,
            table,
            pairs,
            st1,
            r.values,
        ),
        ReqV::Hmdel { table, keys } => r.status == status_ok() && r.message
            == Seq::<char>::empty() && r.pairs == Seq::<KvpairV>::empty() && hmdel_post(
            st0,
            table,
            keys,
            st1,
            r.values,
        ),
    }
}

/// What `dispatch` guarantees against a backend that never fails
/// (`Storage::infallible`): the exact state and response of every command,
/// with no error arm left open.
pub open spec fn dispatch_post_ok(c: ReqV, st0: StoreV, st1: StoreV, r: RespV) -> bool {
    match c {
        ReqV::Hget { table, key } => st1 == st0 && r == step_get(st0, table, key),
        ReqV::Hgetall { table } => st1 == st0 && r.status == status_ok() && r.message
            == Seq::<char>::empty() && r.values == Seq::<ValueV>::empty() && pairs_match_table(
            st0,
            table,
            r.pairs,
        ),
        ReqV::Hset { table, pair } => st1 == step_set(st0, table, pair.key, pair.value).0 && r
            == step_set(st0, table, pair.key, pair.value).1,
        ReqV::Hdel { table, key } => st1 == step_del(st0, table, key).0 && r == step_del(
            st0,
            table,
            key,
        ).1,
        ReqV::Hexist { table, key } => st1 == st0 && r == step_exist(st0, table, key),
        ReqV::Hmget { table, keys } => st1 == st0 && r == values_resp(mget_values(st0, table, keys)),
        ReqV::Hmexist { table, keys } => st1 == st0 && r == values_resp(
            mexist_values(st0, table, keys),
        ),
        ReqV::Hmset { table, pairs } => st1 == run_mset(
            st0,
            table,
            pairs,
            no_failures(pairs.len()),
        ).0 && r == values_resp(run_mset(st0, table, pairs, no_failures(pairs.len())).1),
        ReqV::Hmdel { table, keys } => st1 == run_mdel(st0, table, keys, no_failures(keys.len())).0
            && r == values_resp(run_mdel(st0, table, keys, no_failures(keys.len())).1),
    }
}

/// Execute a single-key read: one `get`.
pub fn execute_hget<S: Storage>(table: &str, key: &str, store: &S) -> (r: CommandResponse)
    requires
        store.inv(),
    ensures
        r@ == step_get(store.st(), table@, key@) || backend_err_resp(r@),
        store.infallible() ==> r@ == step_get(store.st(), table@, key@),
{
    match store.get(table, key) {
        Ok(Some(v)) => CommandResponse::ok_value(v),
        Ok(None) => CommandResponse::from_error(
            &KvError::NotFound(String::from_str(table), String::from_str(key)),
        ),
        Err(e) => {
            let r = CommandResponse::from_error(&e);
            proof {
                assert(r@ == error_resp(KvErrorV::BackendError(e@->BackendError_0)));
            }
            r
        },
    }
}

/// Execute a whole-table enumeration: one `get_all`.
pub fn execute_hgetall<S: Storage>(table: &str, store: &S) -> (r: CommandResponse)
    requires
        store.inv(),
    ensures
        (r@.status == status_ok() && r@.message == Seq::<char>::empty() && r@.values
            == Seq::<ValueV>::empty() && pairs_match_table(store.st(), table@, r@.pairs))
            || backend_err_resp(r@),
        store.infallible() ==> (r@.status == status_ok() && r@.message == Seq::<char>::empty()
            && r@.values == Seq::<ValueV>::empty() && pairs_match_table(
            store.st(),
            table@,
            r@.pairs,
        )),
{
    match store.get_all(table) {
        Ok(v) => CommandResponse::ok_pairs(v),
        Err(e) => {
            let r = CommandResponse::from_error(&e);
            proof {
                assert(r@ == error_resp(KvErrorV::BackendError(e@->BackendError_0)));
            }
            r
        },
    }
}

/// Execute a single-key write: one `set`; the response carries the previous
/// value, or the absent marker when the write created the key.
pub fn execute_hset<S: Storage>(table: &str, pair: Kvpair, store: &mut S) -> (r: CommandResponse)
    requires
        old(store).inv(),
    ensures
        final(store).inv(),
        (final(store).st() == step_set(old(store).st(), table@, pair@.key, pair@.value).0 && r@
            == step_set(old(store).st(), table@, pair@.key, pair@.value).1) || (final(store).st()
            == old(store).st() && backend_err_resp(r@)),
        final(store).infallible() == old(store).infallible(),
        old(store).infallible() ==> (final(store).st() == step_set(
            old(store).st(),
            table@,
            pair@.key,
            pair@.value,
        ).0 && r@ == step_set(old(store).st(), table@, pair@.key, pair@.value).1),
{
    let Kvpair { key, value } = pair;
    match store.set(table, key.as_str(), value) {
        Ok(Some(v)) => CommandResponse::ok_value(v),
        Ok(None) => CommandResponse::ok_value(Value::Unit),
        Err(e) => {
            let r = CommandResponse::from_error(&e);
            proof {
                assert(r@ == error_resp(KvErrorV::BackendError(e@->BackendError_0)));
            }
            r
        },
    }
}

/// Execute a single-key removal: one `del`; removing an absent key is a
/// not-found error.
pub fn execute_hdel<S: Storage>(table: &str, key: &str, store: &mut S) -> (r: CommandResponse)
    requires
        old(store).inv(),
    ensures
        final(store).inv(),
        (final(store).st() == step_del(old(store).st(), table@, key@).0 && r@ == step_del(
            old(store).st(),
            table@,
            key@,
        ).1) || (final(store).st() == old(store).st() && backend_err_resp(r@)),
        final(store).infallible() == old(store).infallible(),
        old(store).infallible() ==> (final(store).st() == step_del(
            old(store).st(),
            table@,
            key@,
        ).0 && r@ == step_del(old(store).st(), table@, key@).1),
{
    match store.del(table, key) {
        Ok(Some(v)) => CommandResponse::ok_value(v),
        Ok(None) => CommandResponse::from_error(
            &KvError::NotFound(String::from_str(table), String::from_str(key)),
        ),
        Err(e) => {
            let r = CommandResponse::from_error(&e);
            proof {
                assert(r@ == error_resp(KvErrorV::BackendError(e@->BackendError_0)));
            }
            r
        },
    }
}

/// Execute a single-key existence probe: one `contains`.
pub fn execute_hexist<S: Storage>(table: &str, key: &str, store: &S) -> (r: CommandResponse)
    requires
        store.inv(),
    ensures
        r@ == step_exist(store.st(), table@, key@) || backend_err_resp(r@),
        store.infallible() ==> r@ == step_exist(store.st(), table@, key@),
{
    match store.contains(table, key) {
        Ok(b) => CommandResponse::ok_value(Value::Bool(b)),
        Err(e) => {
            let r = CommandResponse::from_error(&e);
            proof {
                assert(r@ == error_resp(KvErrorV::BackendError(e@->BackendError_0)));
            }
            r
        },
    }
}

/// Execute a batch read: one `get` per key in order; a missing key or a
/// failed position reports the absent marker, never shifting later
/// positions.
pub fn execute_hmget<S: Storage>(table: &str, keys: &Vec<String>, store: &S) -> (r:
    CommandResponse)
    requires
        store.inv(),
    ensures
        r@.status == status_ok(),
        r@.message == Seq::<char>::empty(),
        r@.pairs == Seq::<KvpairV>::empty(),
        r@.values.len() == keys@.len(),
        forall|i: int|
            0 <= i < keys@.len() ==> #[trigger] r@.values[i] == get_or_unit(
                store.st(),
                table@,
                keys_view(keys@)[i],
            ) || r@.values[i] == ValueV::Unit,
        store.infallible() ==> r@.values == mget_values(store.st(), table@, keys_view(keys@)),
{
    let mut values: Vec<Value> = Vec::new();
    let mut i: usize = 0;
    while i < keys.len()
        invariant
            store.inv(),
            i <= keys@.len(),
            values@.len() == i,
            forall|p: int|
                0 <= p < i ==> #[trigger] values@[p]@ == get_or_unit(
                    store.st(),
                    table@,
                    keys_view(keys@)[p],
                ) || values@[p]@ == ValueV::Unit,
            store.infallible() ==> forall|p: int|
                0 <= p < i ==> #[trigger] values@[p]@ == get_or_unit(
                    store.st(),
                    table@,
                    keys_view(keys@)[p],
                ),
        decreases keys@.len() - i,
    {
        let v = match store.get(table, keys[i].as_str()) {
            Ok(Some(v)) => v,
            Ok(None) => Value::Unit,
            Err(_) => Value::Unit,
        };
        values.push(v);
        i = i + 1;
    }
    let r = CommandResponse::ok_values(values);
    proof {
        if store.infallible() {
            assert(r@.values =~= mget_values(store.st(), table@, keys_view(keys@)));
        }
    }
    r
}

/// Execute a batch existence probe: one `contains` per key in order; a
/// failed position degrades to `false`.
pub fn execute_hmexist<S: Storage>(table: &str, keys: &Vec<String>, store: &S) -> (r:
    CommandResponse)
    requires
        store.inv(),
    ensures
        r@.status == status_ok(),
        r@.message == Seq::<char>::empty(),
        r@.pairs == Seq::<KvpairV>::empty(),
        r@.values.len() == keys@.len(),
        forall|i: int|
            0 <= i < keys@.len() ==> #[trigger] r@.values[i] == ValueV::Bool(
                st_get(store.st(), table@, keys_view(keys@)[i]) is Some,
            ) || r@.values[i] == ValueV::Bool(false),
        store.infallible() ==> r@.values == mexist_values(store.st(), table@, keys_view(keys@)),
{
    let mut values: Vec<Value> = Vec::new();
    let mut i: usize = 0;
    while i < keys.len()
        invariant
            store.inv(),
            i <= keys@.len(),
            values@.len() == i,
            forall|p: int|
                0 <= p < i ==> #[trigger] values@[p]@ == ValueV::Bool(
                    st_get(store.st(), table@, keys_view(keys@)[p]) is Some,
                ) || values@[p]@ == ValueV::Bool(false),
            store.infallible() ==> forall|p: int|
                0 <= p < i ==> #[trigger] values@[p]@ == ValueV::Bool(
                    st_get(store.st(), table@, keys_view(keys@)[p]) is Some,
                ),
        decreases keys@.len() - i,
    {
        let v = match store.contains(table, keys[i].as_str()) {
            Ok(b) => Value::Bool(b),
            Err(_) => Value::Bool(false),
        };
        values.push(v);
        i = i + 1;
    }
    let r = CommandResponse::ok_values(values);
    proof {
        if store.infallible() {
            assert(r@.values =~= mexist_values(store.st(), table@, keys_view(keys@)));
        }
    }
    r
}

/// Execute a batch write: one `set` per pair in input order; a failed
/// position is swallowed and reports the absent marker, so the batch never
/// aborts and the result list stays aligned with the input.
pub fn execute_hmset<S: Storage>(table: &str, pairs: &Vec<Kvpair>, store: &mut S) -> (r:
    CommandResponse)
    requires
        old(store).inv(),
    ensures
        final(store).inv(),
        r@.status == status_ok(),
        r@.message == Seq::<char>::empty(),
        r@.pairs == Seq::<KvpairV>::empty(),
        r@.values.len() == pairs@.len(),
        hmset_post(old(store).st(), table@, pairs_view(pairs@), final(store).st(), r@.values),
        final(store).infallible() == old(store).infallible(),
        old(store).infallible() ==> (final(store).st() == run_mset(
            old(store).st(),
            table@,
            pairs_view(pairs@),
            no_failures(pairs@.len()),
        ).0 && r@.values == run_mset(
            old(store).st(),
            table@,
            pairs_view(pairs@),
            no_failures(pairs@.len()),
        ).1),
{
    let ghost st0 = store.st();
    let ghost pv = pairs_view(pairs@);
    let ghost mut errs: Seq<bool> = Seq::empty();
    let mut values: Vec<Value> = Vec::new();
    let mut i: usize = 0;
    while i < pairs.len()
        invariant
            store.inv(),
            i <= pairs@.len(),
            values@.len() == i,
            errs.len() == i,
            pv == pairs_view(pairs@),
            store.st() == run_mset(st0, table@, pv.take(i as int), errs).0,
            values@.map_values(|v: Value| v@) == run_mset(st0, table@, pv.take(i as int), errs).1,
            store.infallible() == old(store).infallible(),
            old(store).infallible() ==> errs =~= no_failures(i as nat),
        decreases pairs@.len() - i,
    {
        let ghost prefix_st = store.st();
        let ghost errs0 = errs;
        let p = &pairs[i];
        let v: Value;
        match store.set(table, p.key.as_str(), p.value.dup()) {
            Ok(Some(prev)) => {
                v = prev;
                proof {
                    errs = errs.push(false);
                }
            },
            Ok(None) => {
                v = Value::Unit;
                proof {
                    errs = errs.push(false);
                }
            },
            Err(_) => {
                v = Value::Unit;
                proof {
                    errs = errs.push(true);
                }
            },
        }
        values.push(v);
        proof {
            assert(pv.take(i + 1).drop_last() =~= pv.take(i as int));
            assert(errs.drop_last() =~= errs0);
            assert(pv.take(i + 1).last() == pv[i as int]);
            assert(values@.map_values(|v: Value| v@) =~= run_mset(
                st0,
                table@,
                pv.take(i + 1),
                errs,
            ).1);
            if old(store).infallible() {
                assert(errs =~= no_failures((i + 1) as nat));
            }
        }
        i = i + 1;
    }
    let r = CommandResponse::ok_values(values);
    proof {
        assert(pv.take(pairs@.len() as int) =~= pv);
        assert(errs.len() == pairs@.len());
        assert(store.st() == run_mset(st0, table@, pv, errs).0);
        assert(r@.values == run_mset(st0, table@, pv, errs).1);
        assert(hmset_post(st0, table@, pv, store.st(), r@.values));
        if old(store).infallible() {
            assert(errs =~= no_failures(pairs@.len()));
        }
    }
    r
}

/// Execute a batch removal: one `del` per key in input order; an absent key
/// or a failed position reports the absent marker.
pub fn execute_hmdel<S: Storage>(table: &str, keys: &Vec<String>, store: &mut S) -> (r:
    CommandResponse)
    requires
        old(store).inv(),
    ensures
        final(store).inv(),
        r@.status == status_ok(),
        r@.message == Seq::<char>::empty(),
        r@.pairs == Seq::<KvpairV>::empty(),
        r@.values.len() == keys@.len(),
        hmdel_post(old(store).st(), table@, keys_view(keys@), final(store).st(), r@.values),
        final(store).infallible() == old(store).infallible(),
        old(store).infallible() ==> (final(store).st() == run_mdel(
            old(store).st(),
            table@,
            keys_view(keys@),
            no_failures(keys@.len()),
        ).0 && r@.values == run_mdel(
            old(store).st(),
            table@,
            keys_view(keys@),
            no_failures(keys@.len()),
        ).1),
{
    let ghost st0 = store.st();
    let ghost kv = keys_view(keys@);
    let ghost mut errs: Seq<bool> = Seq::empty();
    let mut values: Vec<Value> = Vec::new();
    let mut i: usize = 0;
    while i < keys.len()
        invariant
            store.inv(),
            i <= keys@.len(),
            values@.len() == i,
            errs.len() == i,
            kv == keys_view(keys@),
            store.st() == run_mdel(st0, table@, kv.take(i as int), errs).0,
            values@.map_values(|v: Value| v@) == run_mdel(st0, table@, kv.take(i as int), errs).1,
            store.infallible() == old(store).infallible(),
            old(store).infallible() ==> errs =~= no_failures(i as nat),
        decreases keys@.len() - i,
    {
        let ghost errs0 = errs;
        let v: Value;
        match store.del(table, keys[i].as_str()) {
            Ok(Some(prev)) => {
                v = prev;
                proof {
                    errs = errs.push(false);
                }
            },
            Ok(None) => {
                v = Value::Unit;
                proof {
                    errs = errs.push(false);
                    let stc = store.st();
                    let kk = kv[i as int];
                    if stc.contains_key(table@) {
                        assert(stc[table@].remove(kk) =~= stc[table@]);
                        assert(st_del(stc, table@, kk) =~= stc);
                    }
                }
            },
            Err(_) => {
                v = Value::Unit;
                proof {
                    errs = errs.push(true);
                }
            },
        }
        values.push(v);
        proof {
            assert(kv.take(i + 1).drop_last() =~= kv.take(i as int));
            assert(errs.drop_last() =~= errs0);
            assert(kv.take(i + 1).last() == kv[i as int]);
            assert(values@.map_values(|v: Value| v@) =~= run_mdel(
                st0,
                table@,
                kv.take(i + 1),
                errs,
            ).1);
            if old(store).infallible() {
                assert(errs =~= no_failures((i + 1) as nat));
            }
        }
        i = i + 1;
    }
    let r = CommandResponse::ok_values(values);
    proof {
        assert(kv.take(keys@.len() as int) =~= kv);
        assert(errs.len() == keys@.len());
        assert(store.st() == run_mdel(st0, table@, kv, errs).0);
        assert(r@.values == run_mdel(st0, table@, kv, errs).1);
        assert(hmdel_post(st0, table@, kv, store.st(), r@.values));
        if old(store).infallible() {
            assert(errs =~= no_failures(keys@.len()));
        }
    }
    r
}

/// Execute one command against a storage backend, returning a uniform
/// response; the dispatcher is total and never panics or throws.
#[verifier::rlimit(100)]
#[verifier::spinoff_prover]
pub fn dispatch<S: Storage>(cmd: CommandRequest, store: &mut S) -> (r: CommandResponse)
    requires
        old(store).inv(),
    ensures
        final(store).inv(),
        dispatch_post(cmd@, old(store).st(), final(store).st(), r@),
        final(store).infallible() == old(store).infallible(),
        old(store).infallible() ==> dispatch_post_ok(
            cmd@,
            old(store).st(),
            final(store).st(),
            r@,
        ),
{
    let ghost c = cmd@;
    let ghost st0 = store.st();
    match cmd {
        CommandRequest::Hget { table, key } => {
            let r = execute_hget(table.as_str(), key.as_str(), store);
            proof {
                assert(dispatch_post(c, st0, store.st(), r@));
                if old(store).infallible() {
                    assert(dispatch_post_ok(c, st0, store.st(), r@));
                }
            }
            r
        },
        CommandRequest::Hgetall { table } => {
            let r = execute_hgetall(table.as_str(), store);
            proof {
                assert(dispatch_post(c, st0, store.st(), r@));
                if old(store).infallible() {
                    assert(dispatch_post_ok(c, st0, store.st(), r@));
                }
            }
            r
        },
        CommandRequest::Hmget { table, keys } => {
            let r = execute_hmget(table.as_str(), &keys, store);
            proof {
                assert(dispatch_post(c, st0, store.st(), r@));
                if old(store).infallible() {
                    assert(dispatch_post_ok(c, st0, store.st(), r@));
                }
            }
            r
        },
        CommandRequest::Hset { table, pair } => {
            let r = execute_hset(table.as_str(), pair, store);
            proof {
                assert(dispatch_post(c, st0, store.st(), r@));
                if old(store).infallible() {
                    assert(dispatch_post_ok(c, st0, store.st(), r@));
                }
            }
            r
        },
        CommandRequest::Hmset { table, pairs } => {
            let r = execute_hmset(table.as_str(), &pairs, store);
            proof {
                assert(c == (ReqV::Hmset { table: table@, pairs: pairs_view(pairs@) }));
                assert(dispatch_post(c, st0, store.st(), r@));
                if old(store).infallible() {
                    assert(dispatch_post_ok(c, st0, store.st(), r@));
                }
            }
            r
        },
        CommandRequest::Hdel { table, key } => {
            let r = execute_hdel(table.as_str(), key.as_str(), store);
            proof {
                assert(dispatch_post(c, st0, store.st(), r@));
                if old(store).infallible() {
                    assert(dispatch_post_ok(c, st0, store.st(), r@));
                }
            }
            r
        },
        CommandRequest::Hmdel { table, keys } => {
            let r = execute_hmdel(table.as_str(), &keys, store);
            proof {
                assert(c == (ReqV::Hmdel { table: table@, keys: keys_view(keys@) }));
                assert(dispatch_post(c, st0, store.st(), r@));
                if old(store).infallible() {
                    assert(dispatch_post_ok(c, st0, store.st(), r@));
                }
            }
            r
        },
        CommandRequest::Hexist { table, key } => {
            let r = execute_hexist(table.as_str(), key.as_str(), store);
            proof {
                assert(dispatch_post(c, st0, store.st(), r@));
                if old(store).infallible() {
                    assert(dispatch_post_ok(c, st0, store.st(), r@));
                }
            }
            r
        },
        CommandRequest::Hmexist { table, keys } => {
            let r = execute_hmexist(table.as_str(), &keys, store);
            proof {
                assert(dispatch_post(c, st0, store.st(), r@));
                if old(store).infallible() {
                    assert(dispatch_post_ok(c, st0, store.st(), r@));
                }
            }
            r
        },
    }
}

} // verus!
