//! End-to-end scenarios: bytes in, bytes out, through the per-connection
//! step that the I/O loop drives.

use redis_lite::conn::{handle_frame, StepResult};
use redis_lite::db::Db;

fn step(db: &mut Db, bytes: &[u8], now: u64) -> (Vec<u8>, usize) {
    match handle_frame(&bytes.to_vec(), db, now) {
        StepResult::Reply(r, used) => (r, used),
        StepResult::NeedMore => panic!("unexpected NeedMore"),
        StepResult::Malformed => panic!("unexpected Malformed"),
    }
}

fn reply(db: &mut Db, bytes: &[u8], now: u64) -> Vec<u8> {
    let (r, used) = step(db, bytes, now);
    assert_eq!(used, bytes.len());
    r
}

#[test]
fn test_scenario_ping() {
    let mut db = Db::new();
    assert_eq!(reply(&mut db, b"*1\r\n$4\r\nPING\r\n", 0), b"+PONG\r\n".to_vec());
}

#[test]
fn test_scenario_echo() {
    let mut db = Db::new();
    assert_eq!(
        reply(&mut db, b"*2\r\n$4\r\nECHO\r\n$3\r\nhey\r\n", 0),
        b"$3\r\nhey\r\n".to_vec()
    );
}

#[test]
fn test_scenario_set_get() {
    let mut db = Db::new();
    assert_eq!(
        reply(&mut db, b"*3\r\n$3\r\nSET\r\n$3\r\nfoo\r\n$3\r\nbar\r\n", 0),
        b"+OK\r\n".to_vec()
    );
    assert_eq!(
        reply(&mut db, b"*2\r\n$3\r\nGET\r\n$3\r\nfoo\r\n", 0),
        b"$3\r\nbar\r\n".to_vec()
    );
}

#[test]
fn test_scenario_set_px_expiry() {
    let mut db = Db::new();
    assert_eq!(
        reply(
            &mut db,
            b"*5\r\n$3\r\nSET\r\n$1\r\nk\r\n$1\r\nv\r\n$2\r\nPX\r\n$2\r\n50\r\n",
            0
        ),
        b"+OK\r\n".to_vec()
    );
    // Immediately: the value.
    assert_eq!(
        reply(&mut db, b"*2\r\n$3\r\nGET\r\n$1\r\nk\r\n", 0),
        b"$1\r\nv\r\n".to_vec()
    );
    // Sixty milliseconds later: the nil marker.
    assert_eq!(
        reply(&mut db, b"*2\r\n$3\r\nGET\r\n$1\r\nk\r\n", 60),
        b"$-1\r\n".to_vec()
    );
}

#[test]
fn test_scenario_list_push_range() {
    let mut db = Db::new();
    assert_eq!(
        reply(
            &mut db,
            b"*5\r\n$5\r\nRPUSH\r\n$1\r\nL\r\n$1\r\na\r\n$1\r\nb\r\n$1\r\nc\r\n",
            0
        ),
        b":3\r\n".to_vec()
    );
    assert_eq!(
        reply(&mut db, b"*3\r\n$5\r\nLPUSH\r\n$1\r\nL\r\n$1\r\nz\r\n", 0),
        b":4\r\n".to_vec()
    );
    assert_eq!(
        reply(
            &mut db,
            b"*4\r\n$6\r\nLRANGE\r\n$1\r\nL\r\n$1\r\n0\r\n$2\r\n-1\r\n",
            0
        ),
        b"*4\r\n$1\r\nz\r\n$1\r\na\r\n$1\r\nb\r\n$1\r\nc\r\n".to_vec()
    );
}

#[test]
fn test_scenario_wrong_type() {
    let mut db = Db::new();
    assert_eq!(
        reply(&mut db, b"*3\r\n$3\r\nSET\r\n$1\r\ns\r\n$5\r\nhello\r\n", 0),
        b"+OK\r\n".to_vec()
    );
    assert_eq!(
        reply(&mut db, b"*3\r\n$5\r\nRPUSH\r\n$1\r\ns\r\n$1\r\nx\r\n", 0),
        b"-WRONGTYPE Operation against a key holding the wrong kind of value\r\n".to_vec()
    );
    // The entry is untouched: a later GET still reads the string.
    assert_eq!(
        reply(&mut db, b"*2\r\n$3\r\nGET\r\n$1\r\ns\r\n", 0),
        b"$5\r\nhello\r\n".to_vec()
    );
}

#[test]
fn test_scenario_unknown_command_reply() {
    let mut db = Db::new();
    assert_eq!(
        reply(&mut db, b"*1\r\n$6\r\nNOSUCH\r\n", 0),
        b"-Unknown command: NOSUCH\r\n".to_vec()
    );
}

#[test]
fn test_pipelined_requests() {
    // Two requests in one buffer: each step consumes exactly one frame and
    // the replies come in order.
    let mut db = Db::new();
    let mut buf = b"*1\r\n$4\r\nPING\r\n".to_vec();
    buf.extend_from_slice(b"*2\r\n$4\r\nECHO\r\n$2\r\nhi\r\n");
    let (first, used) = step(&mut db, &buf, 0);
    assert_eq!(first, b"+PONG\r\n".to_vec());
    let rest = buf[used..].to_vec();
    let (second, used2) = step(&mut db, &rest, 0);
    assert_eq!(second, b"$2\r\nhi\r\n".to_vec());
    assert_eq!(used2, rest.len());
}

#[test]
fn test_incremental_feed() {
    // A partial request asks for more bytes and leaves the store alone;
    // the completed request then succeeds.
    let mut db = Db::new();
    let full = b"*3\r\n$3\r\nSET\r\n$3\r\nfoo\r\n$3\r\nbar\r\n";
    for k in 0..full.len() {
        match handle_frame(&full[..k].to_vec(), &mut db, 0) {
            StepResult::NeedMore => {}
            _ => panic!("prefix of length {} should need more bytes", k),
        }
    }
    assert_eq!(reply(&mut db, full, 0), b"+OK\r\n".to_vec());
}

#[test]
fn test_malformed_buffer() {
    let mut db = Db::new();
    match handle_frame(&b"!x\r\n".to_vec(), &mut db, 0) {
        StepResult::Malformed => {}
        _ => panic!("a bad type byte should be a protocol error"),
    }
}

#[test]
fn test_user_error_keeps_connection_state() {
    // A user error is a reply, not a protocol error: the step consumes the
    // frame and the connection would stay open.
    let mut db = Db::new();
    let (r, used) = step(&mut db, b"*1\r\n$4\r\nECHO\r\n", 0);
    assert_eq!(
        r,
        b"-ERR wrong number of arguments for 'echo' command\r\n".to_vec()
    );
    assert_eq!(used, b"*1\r\n$4\r\nECHO\r\n".len());
}
