use std::time::Duration;

use my_redis::command::Command;
use my_redis::frame::{Frame, FrameError};
use my_redis::store::Db;

fn bulk(s: &str) -> Frame {
    Frame::Bulk(s.to_string())
}

fn cmd_array(args: &[&str]) -> Frame {
    Frame::Array(args.iter().map(|s| bulk(s)).collect())
}

fn new_store() -> Db {
    Db::new()
}

const SECOND: u64 = 1_000_000_000;

fn set_key(store: &mut Db, key: &str, value: &str) {
    Command::SetKey {
        key: key.to_string(),
        value: value.to_string(),
        expiry: None,
    }
    .execute(store, 0);
}

#[test]
fn parse_ping() {
    let cmd = Command::from_frame(cmd_array(&["PING"])).unwrap();
    assert!(matches!(cmd, Command::Ping));
}

#[test]
fn parse_ping_lowercase() {
    let cmd = Command::from_frame(cmd_array(&["ping"])).unwrap();
    assert!(matches!(cmd, Command::Ping));
}

#[test]
fn parse_echo() {
    let cmd = Command::from_frame(cmd_array(&["ECHO", "hello"])).unwrap();
    assert!(matches!(cmd, Command::Echo { message } if message == "hello"));
}

#[test]
fn parse_echo_missing_arg() {
    let result = Command::from_frame(cmd_array(&["ECHO"]));
    assert!(result.is_err());
}

#[test]
fn parse_unknown_command() {
    let result = Command::from_frame(cmd_array(&["FOOBAR"]));
    assert!(result.is_err());
}

#[test]
fn parse_non_array_frame() {
    let result = Command::from_frame(Frame::Simple("PING".to_string()));
    assert!(result.is_err());
}

#[test]
fn parse_empty_array() {
    let result = Command::from_frame(Frame::Array(vec![]));
    assert!(result.is_err());
}

#[test]
fn execute_ping() {
    let mut store = new_store();
    let response = Command::Ping.execute(&mut store, 0);
    assert!(matches!(response, Frame::Simple(s) if s == "PONG"));
}

#[test]
fn execute_echo() {
    let mut store = new_store();
    let response = Command::Echo {
        message: "hello".to_string(),
    }
    .execute(&mut store, 0);
    assert!(matches!(response, Frame::Bulk(s) if s == "hello"));
}

#[test]
fn execute_set_and_get() {
    let mut store = new_store();
    let response = Command::SetKey {
        key: "key".to_string(),
        value: "value".to_string(),
        expiry: None,
    }
    .execute(&mut store, 0);
    assert!(matches!(response, Frame::Simple(s) if s == "OK"));

    let response = Command::Get {
        key: "key".to_string(),
    }
    .execute(&mut store, 0);
    assert!(matches!(response, Frame::Bulk(s) if s == "value"));
}

#[test]
fn execute_get_missing_key() {
    let mut store = new_store();
    let response = Command::Get {
        key: "nokey".to_string(),
    }
    .execute(&mut store, 0);
    assert!(matches!(response, Frame::Null));
}

#[test]
fn execute_set_overwrites() {
    let mut store = new_store();
    Command::SetKey {
        key: "key".to_string(),
        value: "first".to_string(),
        expiry: None,
    }
    .execute(&mut store, 0);
    Command::SetKey {
        key: "key".to_string(),
        value: "second".to_string(),
        expiry: None,
    }
    .execute(&mut store, 0);

    let response = Command::Get {
        key: "key".to_string(),
    }
    .execute(&mut store, 0);
    assert!(matches!(response, Frame::Bulk(s) if s == "second"));
}

#[test]
fn execute_get_expired_key() {
    let mut store = new_store();
    // Set with 0-second expiry: expired as soon as the clock moves on
    Command::SetKey {
        key: "key".to_string(),
        value: "value".to_string(),
        expiry: Some(Duration::from_secs(0)),
    }
    .execute(&mut store, 0);

    // 10 ms later
    let response = Command::Get {
        key: "key".to_string(),
    }
    .execute(&mut store, 10_000_000);
    assert!(matches!(response, Frame::Null));
}

#[test]
fn execute_get_unexpired_key() {
    let mut store = new_store();
    Command::SetKey {
        key: "key".to_string(),
        value: "value".to_string(),
        expiry: Some(Duration::from_secs(60)),
    }
    .execute(&mut store, 0);

    let response = Command::Get {
        key: "key".to_string(),
    }
    .execute(&mut store, 0);
    assert!(matches!(response, Frame::Bulk(s) if s == "value"));
}

#[test]
fn parse_get() {
    let cmd = Command::from_frame(cmd_array(&["GET", "mykey"])).unwrap();
    assert!(matches!(cmd, Command::Get { key } if key == "mykey"));
}

#[test]
fn parse_set() {
    let cmd = Command::from_frame(cmd_array(&["SET", "mykey", "myval"])).unwrap();
    assert!(
        matches!(cmd, Command::SetKey { key, value, expiry } if key == "mykey" && value == "myval" && expiry.is_none())
    );
}

#[test]
fn parse_set_with_ex() {
    let cmd = Command::from_frame(cmd_array(&["SET", "k", "v", "EX", "10"])).unwrap();
    assert!(
        matches!(cmd, Command::SetKey { expiry: Some(d), .. } if d == Duration::from_secs(10))
    );
}

#[test]
fn parse_set_with_px() {
    let cmd = Command::from_frame(cmd_array(&["SET", "k", "v", "PX", "500"])).unwrap();
    assert!(
        matches!(cmd, Command::SetKey { expiry: Some(d), .. } if d == Duration::from_millis(500))
    );
}

#[test]
fn parse_set_with_ex_lowercase() {
    let cmd = Command::from_frame(cmd_array(&["SET", "k", "v", "ex", "10"])).unwrap();
    assert!(
        matches!(cmd, Command::SetKey { expiry: Some(d), .. } if d == Duration::from_secs(10))
    );
}

#[test]
fn parse_set_with_invalid_expiry() {
    let result = Command::from_frame(cmd_array(&["SET", "k", "v", "EX", "notanumber"]));
    assert!(result.is_err());
}

#[test]
fn parse_get_missing_arg() {
    let result = Command::from_frame(cmd_array(&["GET"]));
    assert!(result.is_err());
}

#[test]
fn parse_set_missing_val() {
    let result = Command::from_frame(cmd_array(&["SET", "key"]));
    assert!(result.is_err());
}

#[test]
fn parse_del() {
    let cmd = Command::from_frame(cmd_array(&["DEL", "a", "b", "c"])).unwrap();
    assert!(matches!(cmd, Command::Del { keys } if keys == vec!["a", "b", "c"]));
}

#[test]
fn execute_del_existing_keys() {
    let mut store = new_store();
    set_key(&mut store, "a", "1");
    set_key(&mut store, "b", "2");
    set_key(&mut store, "c", "3");

    let response = Command::Del {
        keys: vec!["a".to_string(), "c".to_string()],
    }
    .execute(&mut store, 0);
    assert!(matches!(response, Frame::Integer(2)));

    // "b" should still exist
    let response = Command::Get {
        key: "b".to_string(),
    }
    .execute(&mut store, 0);
    assert!(matches!(response, Frame::Bulk(s) if s == "2"));
}

#[test]
fn execute_del_missing_key() {
    let mut store = new_store();
    let response = Command::Del {
        keys: vec!["nope".to_string()],
    }
    .execute(&mut store, 0);
    assert!(matches!(response, Frame::Integer(0)));
}

#[test]
fn execute_del_expired_key() {
    let mut store = new_store();
    Command::SetKey {
        key: "k".to_string(),
        value: "v".to_string(),
        expiry: Some(Duration::from_secs(0)),
    }
    .execute(&mut store, 0);

    let response = Command::Del {
        keys: vec!["k".to_string()],
    }
    .execute(&mut store, 10_000_000);
    assert!(matches!(response, Frame::Integer(0)));
}

#[test]
fn parse_exists() {
    let cmd = Command::from_frame(cmd_array(&["EXISTS", "mykey"])).unwrap();
    assert!(matches!(cmd, Command::Exists { key } if key == "mykey"));
}

#[test]
fn execute_exists_present() {
    let mut store = new_store();
    set_key(&mut store, "k", "v");
    let response = Command::Exists {
        key: "k".to_string(),
    }
    .execute(&mut store, 0);
    assert!(matches!(response, Frame::Integer(1)));
}

#[test]
fn execute_exists_missing() {
    let mut store = new_store();
    let response = Command::Exists {
        key: "k".to_string(),
    }
    .execute(&mut store, 0);
    assert!(matches!(response, Frame::Integer(0)));
}

#[test]
fn execute_exists_expired() {
    let mut store = new_store();
    Command::SetKey {
        key: "k".to_string(),
        value: "v".to_string(),
        expiry: Some(Duration::from_secs(0)),
    }
    .execute(&mut store, 0);

    let response = Command::Exists {
        key: "k".to_string(),
    }
    .execute(&mut store, 10_000_000);
    assert!(matches!(response, Frame::Integer(0)));
}

#[test]
fn parse_incr() {
    let cmd = Command::from_frame(cmd_array(&["INCR", "counter"])).unwrap();
    assert!(matches!(cmd, Command::Incr { key } if key == "counter"));
}

#[test]
fn execute_incr_new_key() {
    let mut store = new_store();
    let response = Command::Incr {
        key: "counter".to_string(),
    }
    .execute(&mut store, 0);
    assert!(matches!(response, Frame::Integer(1)));
}

#[test]
fn execute_incr_existing() {
    let mut store = new_store();
    set_key(&mut store, "counter", "10");
    let response = Command::Incr {
        key: "counter".to_string(),
    }
    .execute(&mut store, 0);
    assert!(matches!(response, Frame::Integer(11)));
}

#[test]
fn execute_incr_not_integer() {
    let mut store = new_store();
    set_key(&mut store, "name", "hello");
    let response = Command::Incr {
        key: "name".to_string(),
    }
    .execute(&mut store, 0);
    assert!(matches!(response, Frame::Error(_)));
}

#[test]
fn execute_incr_expired_key() {
    let mut store = new_store();
    Command::SetKey {
        key: "k".to_string(),
        value: "100".to_string(),
        expiry: Some(Duration::from_secs(0)),
    }
    .execute(&mut store, 0);

    let response = Command::Incr {
        key: "k".to_string(),
    }
    .execute(&mut store, 10_000_000);
    assert!(matches!(response, Frame::Integer(1)));
}

#[test]
fn parse_decr() {
    let cmd = Command::from_frame(cmd_array(&["DECR", "counter"])).unwrap();
    assert!(matches!(cmd, Command::Decr { key } if key == "counter"));
}

#[test]
fn execute_decr_new_key() {
    let mut store = new_store();
    let response = Command::Decr {
        key: "counter".to_string(),
    }
    .execute(&mut store, 0);
    assert!(matches!(response, Frame::Integer(-1)));
}

#[test]
fn execute_decr_existing() {
    let mut store = new_store();
    set_key(&mut store, "counter", "10");
    let response = Command::Decr {
        key: "counter".to_string(),
    }
    .execute(&mut store, 0);
    assert!(matches!(response, Frame::Integer(9)));
}

#[test]
fn parse_mget() {
    let cmd = Command::from_frame(cmd_array(&["MGET", "a", "b"])).unwrap();
    assert!(matches!(cmd, Command::Mget { keys } if keys == vec!["a", "b"]));
}

#[test]
fn execute_mget() {
    let mut store = new_store();
    set_key(&mut store, "a", "1");
    set_key(&mut store, "b", "2");

    let response = Command::Mget {
        keys: vec!["a".to_string(), "missing".to_string(), "b".to_string()],
    }
    .execute(&mut store, 0);

    match response {
        Frame::Array(frames) => {
            assert_eq!(frames.len(), 3);
            assert!(matches!(&frames[0], Frame::Bulk(s) if s == "1"));
            assert!(matches!(&frames[1], Frame::Null));
            assert!(matches!(&frames[2], Frame::Bulk(s) if s == "2"));
        }
        _ => panic!("expected Array"),
    }
}

#[test]
fn parse_mset() {
    let cmd = Command::from_frame(cmd_array(&["MSET", "a", "1", "b", "2"])).unwrap();
    assert!(matches!(cmd, Command::Mset { pairs } if pairs == vec![
        ("a".to_string(), "1".to_string()),
        ("b".to_string(), "2".to_string()),
    ]));
}

#[test]
fn parse_mset_odd_args() {
    let result = Command::from_frame(cmd_array(&["MSET", "a", "1", "b"]));
    assert!(result.is_err());
}

#[test]
fn execute_mset() {
    let mut store = new_store();
    let response = Command::Mset {
        pairs: vec![
            ("a".to_string(), "1".to_string()),
            ("b".to_string(), "2".to_string()),
        ],
    }
    .execute(&mut store, 0);
    assert!(matches!(response, Frame::Simple(s) if s == "OK"));

    let response = Command::Get {
        key: "a".to_string(),
    }
    .execute(&mut store, 0);
    assert!(matches!(response, Frame::Bulk(s) if s == "1"));

    let response = Command::Get {
        key: "b".to_string(),
    }
    .execute(&mut store, 0);
    assert!(matches!(response, Frame::Bulk(s) if s == "2"));
}

// --- further cases ---

#[test]
fn parse_errors_are_invalid() {
    assert_eq!(
        Command::from_frame(cmd_array(&["NOPE"])).err(),
        Some(FrameError::Invalid)
    );
    assert_eq!(
        Command::from_frame(Frame::Array(vec![Frame::Integer(1)])).err(),
        Some(FrameError::Invalid)
    );
}

#[test]
fn parse_mixed_case_names() {
    assert!(matches!(
        Command::from_frame(cmd_array(&["gEt", "k"])).unwrap(),
        Command::Get { key } if key == "k"
    ));
    assert!(matches!(
        Command::from_frame(cmd_array(&["MsEt"])).unwrap(),
        Command::Mset { pairs } if pairs.is_empty()
    ));
}

#[test]
fn parse_set_options() {
    // an expiry needs both a unit and an amount
    assert!(Command::from_frame(cmd_array(&["SET", "k", "v", "EX"])).is_err());
    // unknown unit
    assert!(Command::from_frame(cmd_array(&["SET", "k", "v", "XX", "10"])).is_err());
    // the amount is read as `str::parse::<u64>` reads it
    let cmd = Command::from_frame(cmd_array(&["SET", "k", "v", "px", "+007"])).unwrap();
    assert!(matches!(cmd, Command::SetKey { expiry: Some(d), .. } if d == Duration::from_millis(7)));
    assert!(Command::from_frame(cmd_array(&["SET", "k", "v", "EX", "-1"])).is_err());
    assert!(Command::from_frame(cmd_array(&["SET", "k", "v", "EX", "18446744073709551616"])).is_err());
    // a non-bulk argument
    let frame = Frame::Array(vec![bulk("SET"), bulk("k"), Frame::Integer(1)]);
    assert!(Command::from_frame(frame).is_err());
}

#[test]
fn parse_extra_arguments_ignored() {
    assert!(matches!(
        Command::from_frame(cmd_array(&["PING", "x"])).unwrap(),
        Command::Ping
    ));
    assert!(matches!(
        Command::from_frame(cmd_array(&["GET", "a", "b"])).unwrap(),
        Command::Get { key } if key == "a"
    ));
}

#[test]
fn parse_del_non_bulk_key() {
    let frame = Frame::Array(vec![bulk("DEL"), bulk("a"), Frame::Null]);
    assert!(Command::from_frame(frame).is_err());
}

#[test]
fn parse_subscribe_and_publish() {
    let cmd = Command::from_frame(cmd_array(&["SUBSCRIBE", "news", "sport"])).unwrap();
    assert!(matches!(cmd, Command::Subscribe { channels } if channels == vec!["news", "sport"]));
    let cmd = Command::from_frame(cmd_array(&["publish", "news", "hello"])).unwrap();
    assert!(
        matches!(cmd, Command::Publish { channel, message } if channel == "news" && message == "hello")
    );
    assert!(Command::from_frame(cmd_array(&["PUBLISH", "news"])).is_err());
}

#[test]
fn set_then_get_until_time_runs_out() {
    let mut store = new_store();
    Command::SetKey {
        key: "k".to_string(),
        value: "v".to_string(),
        expiry: Some(Duration::from_secs(10)),
    }
    .execute(&mut store, 5);
    // the last instant of the entry's life
    let at_deadline = Command::Get { key: "k".to_string() }.execute(&mut store, 5 + 10 * SECOND);
    assert!(matches!(at_deadline, Frame::Bulk(s) if s == "v"));
    let after = Command::Get { key: "k".to_string() }.execute(&mut store, 6 + 10 * SECOND);
    assert!(matches!(after, Frame::Null));
    // reading an expired key dropped it
    assert_eq!(store.len(), 0);
}

#[test]
fn reads_keep_live_entries() {
    let mut store = new_store();
    set_key(&mut store, "a", "1");
    Command::SetKey {
        key: "b".to_string(),
        value: "2".to_string(),
        expiry: Some(Duration::from_millis(1)),
    }
    .execute(&mut store, 0);
    let later = 2 * 1_000_000;
    let response = Command::Mget {
        keys: vec!["b".to_string(), "a".to_string()],
    }
    .execute(&mut store, later);
    match response {
        Frame::Array(frames) => {
            assert!(matches!(&frames[0], Frame::Null));
            assert!(matches!(&frames[1], Frame::Bulk(s) if s == "1"));
        }
        _ => panic!("expected Array"),
    }
    assert_eq!(store.len(), 1);
    let exists = Command::Exists { key: "a".to_string() }.execute(&mut store, later);
    assert!(matches!(exists, Frame::Integer(1)));
}

#[test]
fn del_counts_each_live_key_once() {
    let mut store = new_store();
    set_key(&mut store, "a", "1");
    set_key(&mut store, "b", "2");
    let response = Command::Del {
        keys: vec!["a".to_string(), "a".to_string(), "zz".to_string(), "b".to_string()],
    }
    .execute(&mut store, 0);
    assert!(matches!(response, Frame::Integer(2)));
    assert_eq!(store.len(), 0);
}

#[test]
fn incr_then_decr_restores_value() {
    let mut store = new_store();
    set_key(&mut store, "n", "+41");
    let up = Command::Incr { key: "n".to_string() }.execute(&mut store, 0);
    assert!(matches!(up, Frame::Integer(42)));
    let down = Command::Decr { key: "n".to_string() }.execute(&mut store, 0);
    assert!(matches!(down, Frame::Integer(41)));
    let value = Command::Get { key: "n".to_string() }.execute(&mut store, 0);
    assert!(matches!(value, Frame::Bulk(s) if s == "41"));
}

#[test]
fn incr_stores_decimal_text_without_expiry() {
    let mut store = new_store();
    Command::SetKey {
        key: "n".to_string(),
        value: "-5".to_string(),
        expiry: Some(Duration::from_secs(1)),
    }
    .execute(&mut store, 0);
    let up = Command::Incr { key: "n".to_string() }.execute(&mut store, 0);
    assert!(matches!(up, Frame::Integer(-4)));
    let entry = store.get(&"n".to_string()).unwrap();
    assert_eq!(entry.value, "-4");
    assert_eq!(entry.expires_at, None);
}

#[test]
fn incr_out_of_range_is_error_and_keeps_value() {
    let mut store = new_store();
    set_key(&mut store, "big", "9223372036854775807");
    let response = Command::Incr { key: "big".to_string() }.execute(&mut store, 0);
    assert!(matches!(response, Frame::Error(s) if s == "ERR value is not an integer or out of range"));
    let value = Command::Get { key: "big".to_string() }.execute(&mut store, 0);
    assert!(matches!(value, Frame::Bulk(s) if s == "9223372036854775807"));

    set_key(&mut store, "small", "-9223372036854775808");
    let response = Command::Decr { key: "small".to_string() }.execute(&mut store, 0);
    assert!(matches!(response, Frame::Error(_)));
}

#[test]
fn purge_is_invisible_to_replies() {
    let mut store = new_store();
    set_key(&mut store, "a", "1");
    Command::SetKey {
        key: "b".to_string(),
        value: "2".to_string(),
        expiry: Some(Duration::from_secs(1)),
    }
    .execute(&mut store, 0);
    let now = 2 * SECOND;
    store.purge_expired(now);
    assert_eq!(store.len(), 1);
    let b = Command::Get { key: "b".to_string() }.execute(&mut store, now);
    assert!(matches!(b, Frame::Null));
    let a = Command::Get { key: "a".to_string() }.execute(&mut store, now);
    assert!(matches!(a, Frame::Bulk(s) if s == "1"));
}

#[test]
fn incr_steps_add_up() {
    let mut store = new_store();
    set_key(&mut store, "n", "10");
    let first = Command::Incr { key: "n".to_string() }.execute(&mut store, 0);
    assert!(matches!(first, Frame::Integer(11)));
    let second = Command::Incr { key: "n".to_string() }.execute(&mut store, 0);
    assert!(matches!(second, Frame::Integer(12)));
    let value = Command::Get { key: "n".to_string() }.execute(&mut store, 0);
    assert!(matches!(value, Frame::Bulk(s) if s == "12"));
}
