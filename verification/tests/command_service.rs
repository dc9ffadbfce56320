use kvcore::memtable::MemTable;
use kvcore::service::dispatch;
use kvcore::{CommandRequest, CommandResponse, Kvpair, Value};

fn assert_res_ok(res: CommandResponse, values: &[Value], pairs: &[Kvpair]) {
    assert_eq!(res.status, 200);
    assert_eq!(res.message, "");
    assert_eq!(res.values, values.to_vec());
    assert_eq!(res.pairs, pairs.to_vec());
}

fn assert_res_error(res: CommandResponse, code: u32, msg: &str) {
    assert_eq!(res.status, code);
    assert!(res.message.contains(msg));
    assert!(res.values.is_empty());
    assert!(res.pairs.is_empty());
}

#[test]
fn hset_should_work() {
    let mut store = MemTable::new();
    let cmd = CommandRequest::new_hset("t1", "hello", "world".into());
    let res = dispatch(cmd.clone(), &mut store);
    assert_res_ok(res, &[Value::default()], &[]);

    let res = dispatch(cmd, &mut store);
    assert_res_ok(res, &["world".into()], &[]);
}

#[test]
fn hget_should_work() {
    let mut store = MemTable::new();
    let cmd = CommandRequest::new_hset("score", "u1", 10i64.into());
    dispatch(cmd, &mut store);
    let cmd = CommandRequest::new_hget("score", "u1");
    let res = dispatch(cmd, &mut store);
    assert_res_ok(res, &[10i64.into()], &[]);
}

#[test]
fn hget_with_non_exist_key_should_return_404() {
    let mut store = MemTable::new();
    let cmd = CommandRequest::new_hget("score", "u1");
    let res = dispatch(cmd, &mut store);
    assert_res_error(res, 404, "Not found");
}

#[test]
fn hgetall_should_work() {
    let mut store = MemTable::new();
    let cmds = vec![
        CommandRequest::new_hset("score", "u1", 10i64.into()),
        CommandRequest::new_hset("score", "u2", 8i64.into()),
        CommandRequest::new_hset("score", "u3", 11i64.into()),
        CommandRequest::new_hset("score", "u1", 6i64.into()),
    ];
    for cmd in cmds {
        dispatch(cmd, &mut store);
    }

    let cmd = CommandRequest::new_hgetall("score");
    let res = dispatch(cmd, &mut store);
    let pairs = &[
        Kvpair::new("u1", 6i64.into()),
        Kvpair::new("u2", 8i64.into()),
        Kvpair::new("u3", 11i64.into()),
    ];
    assert_res_ok(res, &[], pairs);
}

#[test]
fn hmset_should_work() {
    let mut store = MemTable::new();
    let pairs = &[
        Kvpair::new("u1", 6i64.into()),
        Kvpair::new("u2", 8i64.into()),
        Kvpair::new("u3", 11i64.into()),
    ];
    let cmd = CommandRequest::new_hmset("score", pairs.into());

    let res = dispatch(cmd, &mut store);

    assert_res_ok(
        res,
        &[Value::default(), Value::default(), Value::default()],
        &[],
    );

    let cmd = CommandRequest::new_hgetall("score");
    let res = dispatch(cmd, &mut store);
    println!("{:?}", res)
}

#[test]
fn hmget_should_work() {
    let mut store = MemTable::new();
    let pairs = &[
        Kvpair::new("u1", 6i64.into()),
        Kvpair::new("u2", 8i64.into()),
        Kvpair::new("u3", 11i64.into()),
    ];
    dispatch(CommandRequest::new_hmset("score", pairs.into()), &mut store);

    let cmd = CommandRequest::new_hmget(
        "score",
        vec!["u1".into(), "u2".into(), "u3".into()],
    );
    let res = dispatch(cmd, &mut store);
    assert_res_ok(res, &[6i64.into(), 8i64.into(), 11i64.into()], &[]);
}

#[test]
fn hdel_should_work() {
    let mut store = MemTable::new();
    let cmd = CommandRequest::new_hset("score", "u1", 10i64.into());
    dispatch(cmd, &mut store);

    let cmd = CommandRequest::new_hdel("score", "u1");
    let res = dispatch(cmd, &mut store);
    println!("11: {:?}", res.clone());
    assert_res_ok(res, &[10i64.into()], &[]);

    let cmd = CommandRequest::new_hget("score", "u1");
    let res = dispatch(cmd, &mut store);
    println!("22: {:?}", res.clone());
    assert_res_error(res, 404, "Not found");
}

#[test]
fn hmdel_should_work() {
    let mut store = MemTable::new();
    let cmds = vec![
        CommandRequest::new_hset("score", "u1", 10i64.into()),
        CommandRequest::new_hset("score", "u2", 8i64.into()),
        CommandRequest::new_hset("score", "u3", 11i64.into()),
    ];
    for cmd in cmds {
        dispatch(cmd, &mut store);
    }

    let cmd = CommandRequest::new_hmdel("score", vec!["u1".into(), "u2".into()]);
    let res = dispatch(cmd, &mut store);
    assert_res_ok(res, &[10i64.into(), 8i64.into()], &[]);

    let cmd = CommandRequest::new_hget("score", "u1");
    let res = dispatch(cmd, &mut store);
    assert_res_error(res, 404, "Not found");

    let cmd = CommandRequest::new_hget("score", "u2");
    let res = dispatch(cmd, &mut store);
    assert_res_error(res, 404, "Not found");

    let cmd = CommandRequest::new_hget("score", "u3");
    let res = dispatch(cmd, &mut store);
    assert_res_ok(res, &[11i64.into()], &[]);
}

#[test]
fn hexist_should_work() {
    let mut store = MemTable::new();
    let cmd = CommandRequest::new_hset("score", "u1", 10i64.into());
    dispatch(cmd, &mut store);

    let cmd = CommandRequest::new_hexist("score", "u1");
    let res = dispatch(cmd, &mut store);
    assert_res_ok(res, &[true.into()], &[]);

    let cmd = CommandRequest::new_hexist("score", "u2");
    let res = dispatch(cmd, &mut store);
    assert_res_ok(res, &[false.into()], &[]);
}

#[test]
fn hmexist_should_work() {
    let mut store = MemTable::new();
    let cmds = vec![
        CommandRequest::new_hset("score", "u1", 10i64.into()),
        CommandRequest::new_hset("score", "u2", 8i64.into()),
    ];
    for cmd in cmds {
        dispatch(cmd, &mut store);
    }

    let cmd = CommandRequest::new_hmexist(
        "score",
        vec!["u1".into(), "u2".into(), "u3".into()],
    );
    let res = dispatch(cmd, &mut store);
    assert_res_ok(res, &[true.into(), true.into(), false.into()], &[]);
}
