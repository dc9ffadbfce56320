use kvcore::memtable::MemTable;
use kvcore::service::dispatch;
use kvcore::{CommandRequest, Kvpair, Value};

#[test]
fn set_then_get_returns_the_value_just_stored() {
    let mut store = MemTable::new();
    dispatch(CommandRequest::new_hset("t", "k", "payload".into()), &mut store);
    let res = dispatch(CommandRequest::new_hget("t", "k"), &mut store);
    assert_eq!(res.status, 200);
    assert_eq!(res.values, vec![Value::Str("payload".to_string())]);
}

#[test]
fn delete_then_get_is_not_found_with_exact_message() {
    let mut store = MemTable::new();
    dispatch(CommandRequest::new_hset("score", "u1", 10i64.into()), &mut store);
    dispatch(CommandRequest::new_hdel("score", "u1"), &mut store);
    let res = dispatch(CommandRequest::new_hget("score", "u1"), &mut store);
    assert_eq!(res.status, 404);
    assert_eq!(res.message, "Not found for table: score, key: u1");
    assert!(res.values.is_empty());
    assert!(res.pairs.is_empty());
}

#[test]
fn getall_sorts_keys_inserted_out_of_order() {
    let mut store = MemTable::new();
    dispatch(CommandRequest::new_hset("t", "u3", 3i64.into()), &mut store);
    dispatch(CommandRequest::new_hset("t", "u1", 1i64.into()), &mut store);
    dispatch(CommandRequest::new_hset("t", "u2", 2i64.into()), &mut store);
    let res = dispatch(CommandRequest::new_hgetall("t"), &mut store);
    assert_eq!(
        res.pairs,
        vec![
            Kvpair::new("u1", 1i64.into()),
            Kvpair::new("u2", 2i64.into()),
            Kvpair::new("u3", 3i64.into()),
        ]
    );
}

#[test]
fn getall_on_an_absent_table_is_empty() {
    let mut store = MemTable::new();
    let res = dispatch(CommandRequest::new_hgetall("nothing"), &mut store);
    assert_eq!(res.status, 200);
    assert!(res.values.is_empty());
    assert!(res.pairs.is_empty());
}

#[test]
fn mget_keeps_positions_for_missing_keys() {
    let mut store = MemTable::new();
    dispatch(CommandRequest::new_hset("t", "k1", 1i64.into()), &mut store);
    dispatch(CommandRequest::new_hset("t", "k3", 3i64.into()), &mut store);
    let res = dispatch(
        CommandRequest::new_hmget("t", vec!["k1".into(), "k2".into(), "k3".into()]),
        &mut store,
    );
    assert_eq!(
        res.values,
        vec![Value::Integer(1), Value::Unit, Value::Integer(3)]
    );
}

#[test]
fn second_set_returns_previous_value() {
    let mut store = MemTable::new();
    let first = dispatch(CommandRequest::new_hset("t", "hello", "world".into()), &mut store);
    assert_eq!(first.values, vec![Value::Unit]);
    let second = dispatch(CommandRequest::new_hset("t", "hello", "there".into()), &mut store);
    assert_eq!(second.values, vec![Value::Str("world".to_string())]);
}

#[test]
fn exists_tracks_set_and_delete_history() {
    let mut store = MemTable::new();
    let res = dispatch(CommandRequest::new_hexist("t", "k"), &mut store);
    assert_eq!(res.values, vec![Value::Bool(false)]);

    dispatch(CommandRequest::new_hset("t", "k", 1i64.into()), &mut store);
    let res = dispatch(CommandRequest::new_hexist("t", "k"), &mut store);
    assert_eq!(res.values, vec![Value::Bool(true)]);

    dispatch(CommandRequest::new_hdel("t", "k"), &mut store);
    let res = dispatch(CommandRequest::new_hexist("t", "k"), &mut store);
    assert_eq!(res.values, vec![Value::Bool(false)]);

    dispatch(CommandRequest::new_hset("t", "k", 2i64.into()), &mut store);
    let res = dispatch(CommandRequest::new_hexist("t", "k"), &mut store);
    assert_eq!(res.values, vec![Value::Bool(true)]);
}

#[test]
fn mdel_reports_absent_keys_as_unit() {
    let mut store = MemTable::new();
    dispatch(CommandRequest::new_hset("t", "a", 1i64.into()), &mut store);
    let res = dispatch(
        CommandRequest::new_hmdel("t", vec!["a".into(), "missing".into()]),
        &mut store,
    );
    assert_eq!(res.values, vec![Value::Integer(1), Value::Unit]);
}

#[test]
fn delete_on_absent_key_is_not_found() {
    let mut store = MemTable::new();
    let res = dispatch(CommandRequest::new_hdel("t", "ghost"), &mut store);
    assert_eq!(res.status, 404);
    assert_eq!(res.message, "Not found for table: t, key: ghost");
}

#[test]
fn tables_are_independent_keyspaces() {
    let mut store = MemTable::new();
    dispatch(CommandRequest::new_hset("t1", "k", 1i64.into()), &mut store);
    dispatch(CommandRequest::new_hset("t2", "k", 2i64.into()), &mut store);
    let r1 = dispatch(CommandRequest::new_hget("t1", "k"), &mut store);
    let r2 = dispatch(CommandRequest::new_hget("t2", "k"), &mut store);
    assert_eq!(r1.values, vec![Value::Integer(1)]);
    assert_eq!(r2.values, vec![Value::Integer(2)]);
    dispatch(CommandRequest::new_hdel("t1", "k"), &mut store);
    let r2 = dispatch(CommandRequest::new_hget("t2", "k"), &mut store);
    assert_eq!(r2.values, vec![Value::Integer(2)]);
}

#[test]
fn set_with_unit_value_stores_the_absent_marker() {
    let mut store = MemTable::new();
    dispatch(CommandRequest::new_hset("t", "k", Value::Unit), &mut store);
    let res = dispatch(CommandRequest::new_hexist("t", "k"), &mut store);
    assert_eq!(res.values, vec![Value::Bool(true)]);
    let res = dispatch(CommandRequest::new_hget("t", "k"), &mut store);
    assert_eq!(res.values, vec![Value::Unit]);
}

#[test]
fn empty_batches_return_empty_value_lists() {
    let mut store = MemTable::new();
    let res = dispatch(CommandRequest::new_hmget("t", vec![]), &mut store);
    assert_eq!(res.status, 200);
    assert!(res.values.is_empty());
    let res = dispatch(CommandRequest::new_hmset("t", vec![]), &mut store);
    assert_eq!(res.status, 200);
    assert!(res.values.is_empty());
}

#[test]
fn float_payloads_travel_as_their_bits() {
    let mut store = MemTable::new();
    let x = 3.141592653589793f64;
    dispatch(
        CommandRequest::new_hset("t", "pi", Value::Float(x.to_bits())),
        &mut store,
    );
    let res = dispatch(CommandRequest::new_hget("t", "pi"), &mut store);
    match &res.values[0] {
        Value::Float(bits) => assert_eq!(f64::from_bits(*bits), x),
        other => panic!("expected a float payload, got {:?}", other),
    }
}

#[test]
fn bytes_payloads_round_trip_through_storage() {
    let mut store = MemTable::new();
    let blob = vec![0u8, 255, 7, 42];
    dispatch(
        CommandRequest::new_hset("t", "blob", Value::Bytes(blob.clone())),
        &mut store,
    );
    let res = dispatch(CommandRequest::new_hget("t", "blob"), &mut store);
    assert_eq!(res.values, vec![Value::Bytes(blob)]);
}
