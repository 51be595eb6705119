use redis_lite::commands::Command;
use redis_lite::db::Db;
use redis_lite::resp::RespValue;

fn make_resp_command(args: Vec<&str>) -> RespValue {
    let items = args
        .into_iter()
        .map(|s| RespValue::BulkString(s.as_bytes().to_vec()))
        .collect();
    RespValue::Array(items)
}

fn expect_err(value: RespValue) -> String {
    match Command::from_resp(value) {
        Err(e) => String::from_utf8(e).unwrap(),
        Ok(_) => panic!("expected a validation error"),
    }
}

#[test]
fn test_parse_ping() {
    let input = make_resp_command(vec!["PING"]);
    let cmd = Command::from_resp(input).unwrap();
    match cmd {
        Command::Ping => {}
        _ => panic!("Expected Command::Ping"),
    }
}

#[test]
fn test_parse_set_standard() {
    let input = make_resp_command(vec!["SET", "mykey", "myval"]);
    let cmd = Command::from_resp(input).unwrap();

    match cmd {
        Command::SetCmd(k, v, None) => {
            assert_eq!(k, b"mykey".to_vec());
            assert_eq!(v, b"myval".to_vec());
        }
        _ => panic!("Expected Command::Set with no expiry"),
    }
}

#[test]
fn test_parse_set_with_px() {
    let input = make_resp_command(vec!["SET", "mykey", "myval", "PX", "100"]);
    let cmd = Command::from_resp(input).unwrap();

    match cmd {
        Command::SetCmd(k, v, Some(d)) => {
            assert_eq!(k, b"mykey".to_vec());
            assert_eq!(v, b"myval".to_vec());
            assert_eq!(d, 100);
        }
        _ => panic!("Expected Command::Set with expiry"),
    }
}

#[test]
fn test_execute_set_get() {
    let mut db = Db::new();
    let set_cmd = Command::SetCmd(b"key".to_vec(), b"val".to_vec(), None);
    let resp = set_cmd.execute(&mut db, 0);
    assert_eq!(resp, RespValue::SimpleString(b"OK".to_vec()));

    let get_cmd = Command::Get(b"key".to_vec());
    let resp = get_cmd.execute(&mut db, 0);
    assert_eq!(resp, RespValue::BulkString(b"val".to_vec()));
}

#[test]
fn test_execute_rpush_wrong_type() {
    let mut db = Db::new();
    let set_cmd = Command::SetCmd(b"mykey".to_vec(), b"hello".to_vec(), None);
    set_cmd.execute(&mut db, 0);

    let rpush_cmd = Command::RPush(b"mykey".to_vec(), vec![b"hello".to_vec()]);
    let resp = rpush_cmd.execute(&mut db, 0);

    match resp {
        RespValue::SimpleError(msg) => {
            assert!(String::from_utf8(msg).unwrap().contains("WRONGTYPE"))
        }
        _ => panic!("Expected SimpleError for WRONGTYPE"),
    }
}

#[test]
fn test_parse_command_name_lowercase() {
    let input = make_resp_command(vec!["ping"]);
    match Command::from_resp(input).unwrap() {
        Command::Ping => {}
        _ => panic!("lowercase name should select the same command"),
    }
}

#[test]
fn test_parse_simple_string_command_name() {
    let input = RespValue::Array(vec![RespValue::SimpleString(b"PING".to_vec())]);
    match Command::from_resp(input).unwrap() {
        Command::Ping => {}
        _ => panic!("a simple-string name should be accepted"),
    }
}

#[test]
fn test_parse_unknown_command() {
    let e = expect_err(make_resp_command(vec!["NOSUCH"]));
    assert_eq!(e, "Unknown command: NOSUCH");
}

#[test]
fn test_parse_not_an_array() {
    let e = expect_err(RespValue::SimpleString(b"PING".to_vec()));
    assert_eq!(e, "Command must be an Array");
}

#[test]
fn test_parse_empty_command() {
    let e = expect_err(RespValue::Array(vec![]));
    assert_eq!(e, "Command cannot be empty");
}

#[test]
fn test_parse_name_not_a_string() {
    let e = expect_err(RespValue::Array(vec![RespValue::Integer(1)]));
    assert_eq!(e, "Command name must be a string");
}

#[test]
fn test_parse_echo_wrong_arity() {
    let e = expect_err(make_resp_command(vec!["ECHO"]));
    assert_eq!(e, "ERR wrong number of arguments for 'echo' command");
}

#[test]
fn test_parse_set_wrong_arity() {
    let e = expect_err(make_resp_command(vec!["SET", "k"]));
    assert_eq!(e, "ERR wrong number of arguments for 'set' command");
}

#[test]
fn test_parse_set_bad_option() {
    let e = expect_err(make_resp_command(vec!["SET", "k", "v", "EX", "10"]));
    assert_eq!(e, "ERR syntax error");
}

#[test]
fn test_parse_set_px_missing_value() {
    let e = expect_err(make_resp_command(vec!["SET", "k", "v", "PX"]));
    assert_eq!(e, "ERR syntax error");
}

#[test]
fn test_parse_set_bad_ttl() {
    let e = expect_err(make_resp_command(vec!["SET", "k", "v", "PX", "abc"]));
    assert_eq!(e, "ERR value is not an integer");
}

#[test]
fn test_parse_set_px_case_insensitive() {
    let input = make_resp_command(vec!["SET", "k", "v", "px", "10"]);
    match Command::from_resp(input).unwrap() {
        Command::SetCmd(_, _, Some(d)) => assert_eq!(d, 10),
        _ => panic!("lowercase px should be accepted"),
    }
}

#[test]
fn test_parse_rpush_wrong_arity() {
    let e = expect_err(make_resp_command(vec!["RPUSH", "k"]));
    assert_eq!(e, "ERR wrong number of arguments for 'rpush' command");
}

#[test]
fn test_parse_lpush_wrong_arity() {
    let e = expect_err(make_resp_command(vec!["LPUSH", "k"]));
    assert_eq!(e, "ERR wrong number of arguments for 'lpush' command");
}

#[test]
fn test_parse_lrange_wrong_arity() {
    let e = expect_err(make_resp_command(vec!["LRANGE", "k", "0"]));
    assert_eq!(e, "ERR wrong number of arguments for 'lrange' command");
}

#[test]
fn test_parse_lrange_bad_index() {
    let e = expect_err(make_resp_command(vec!["LRANGE", "k", "x", "1"]));
    assert_eq!(e, "ERR value is not an integer");
}

#[test]
fn test_parse_llen_wrong_arity() {
    let e = expect_err(make_resp_command(vec!["LLEN"]));
    assert_eq!(e, "ERR wrong number of arguments for 'llen' command");
}

#[test]
fn test_parse_get_value_not_bulk() {
    let e = expect_err(RespValue::Array(vec![
        RespValue::BulkString(b"GET".to_vec()),
        RespValue::Integer(3),
    ]));
    assert_eq!(e, "ERR value must be bulk string");
}

#[test]
fn test_parse_lrange_key_not_bulk() {
    let e = expect_err(RespValue::Array(vec![
        RespValue::BulkString(b"LRANGE".to_vec()),
        RespValue::Integer(3),
        RespValue::BulkString(b"0".to_vec()),
        RespValue::BulkString(b"1".to_vec()),
    ]));
    assert_eq!(e, "ERR key must be a bulk string");
}

#[test]
fn test_execute_multi_value_rpush() {
    let mut db = Db::new();
    let cmd = Command::RPush(
        b"L".to_vec(),
        vec![b"a".to_vec(), b"b".to_vec(), b"c".to_vec()],
    );
    assert_eq!(cmd.execute(&mut db, 0), RespValue::Integer(3));

    let cmd = Command::LLen(b"L".to_vec());
    assert_eq!(cmd.execute(&mut db, 0), RespValue::Integer(3));
}
