//! Tests for the command layer and the per-frame pipeline: dispatch,
//! error replies, and the decode/execute/encode path a connection runs.

use redis_from_scratch_rust::cmds;
use redis_from_scratch_rust::db::State;
use redis_from_scratch_rust::resp::RespValue;
use redis_from_scratch_rust::server::{
    dispatch, error_reply, extract_command, handle_frame, unpack_bulk_str, unpack_u64, CmdError,
};

fn bulk(s: &[u8]) -> RespValue {
    RespValue::BulkString(s.to_vec())
}

#[test]
fn ping_replies_pong() {
    assert_eq!(cmds::ping(), RespValue::Text(b"PONG".to_vec()));
}

#[test]
fn set_replies_ok_and_get_reads_it_back() {
    let mut s = State::new();
    let (reply, notify) = cmds::set(&mut s, b"k".to_vec(), b"v".to_vec(), None, 0);
    assert_eq!(reply, RespValue::Text(b"OK".to_vec()));
    assert!(!notify);
    assert_eq!(cmds::get(&s, b"k"), bulk(b"v"));
    assert_eq!(cmds::get(&s, b"other"), RespValue::Null);
}

#[test]
fn list_builds_bulk_string_entries() {
    let mut s = State::new();
    let _ = s.set(b"a".to_vec(), b"1".to_vec(), None, 0);
    match cmds::list(&s, None) {
        RespValue::Array(elems) => {
            assert_eq!(elems, vec![bulk(b"a: 1")]);
        }
        other => panic!("expected an array, got {:?}", other),
    }
}

#[test]
fn extract_command_lowercases_the_name_only() {
    let req = RespValue::Array(vec![bulk(b"SeT"), bulk(b"KEY"), bulk(b"Value")]);
    let (name, args) = extract_command(req).unwrap();
    assert_eq!(name, b"set".to_vec());
    assert_eq!(args, vec![bulk(b"KEY"), bulk(b"Value")]);
}

#[test]
fn extract_command_rejects_bad_requests() {
    assert_eq!(
        extract_command(RespValue::Text(b"hi".to_vec())),
        Err(CmdError::NotAnArray)
    );
    assert_eq!(
        extract_command(RespValue::Array(vec![])),
        Err(CmdError::MissingArgument)
    );
    assert_eq!(
        extract_command(RespValue::Array(vec![RespValue::Integer(1)])),
        Err(CmdError::ExpectedBulkString)
    );
}

#[test]
fn unpack_helpers_check_the_frame_kind() {
    assert_eq!(unpack_bulk_str(bulk(b"abc")), Ok(b"abc".to_vec()));
    assert_eq!(
        unpack_bulk_str(RespValue::Null),
        Err(CmdError::ExpectedBulkString)
    );
    assert_eq!(unpack_u64(bulk(b"1500")), Ok(1500));
    assert_eq!(unpack_u64(bulk(b"15x")), Err(CmdError::BadNumber));
    assert_eq!(unpack_u64(bulk(b"")), Err(CmdError::BadNumber));
    assert_eq!(
        unpack_u64(RespValue::Integer(3)),
        Err(CmdError::ExpectedBulkString)
    );
}

#[test]
fn dispatch_serves_the_command_table() {
    let mut s = State::new();
    let req = RespValue::Array(vec![bulk(b"set"), bulk(b"k"), bulk(b"v")]);
    let (reply, notify) = dispatch(&mut s, req, 0).unwrap();
    assert_eq!(reply, RespValue::Text(b"OK".to_vec()));
    assert!(!notify);

    let req = RespValue::Array(vec![bulk(b"get"), bulk(b"k")]);
    let (reply, _) = dispatch(&mut s, req, 0).unwrap();
    assert_eq!(reply, bulk(b"v"));

    let req = RespValue::Array(vec![bulk(b"echo"), RespValue::Integer(7)]);
    let (reply, _) = dispatch(&mut s, req, 0).unwrap();
    assert_eq!(reply, RespValue::Integer(7));

    let req = RespValue::Array(vec![bulk(b"PING")]);
    let (reply, _) = dispatch(&mut s, req, 0).unwrap();
    assert_eq!(reply, RespValue::Text(b"PONG".to_vec()));
}

#[test]
fn dispatch_takes_the_expiry_from_the_fourth_argument() {
    let mut s = State::new();
    let req = RespValue::Array(vec![
        bulk(b"set"),
        bulk(b"k"),
        bulk(b"v"),
        bulk(b"px"),
        bulk(b"250"),
    ]);
    let (_, notify) = dispatch(&mut s, req, 0).unwrap();
    assert!(notify);
    assert_eq!(s.next_expiration(), Some(250));
}

#[test]
fn dispatch_reports_each_request_error() {
    let mut s = State::new();
    let r = dispatch(&mut s, RespValue::Integer(1), 0);
    assert_eq!(r, Err(CmdError::NotAnArray));

    let r = dispatch(&mut s, RespValue::Array(vec![bulk(b"echo")]), 0);
    assert_eq!(r, Err(CmdError::MissingArgument));

    let r = dispatch(
        &mut s,
        RespValue::Array(vec![bulk(b"get"), RespValue::Integer(1)]),
        0,
    );
    assert_eq!(r, Err(CmdError::ExpectedBulkString));

    let r = dispatch(
        &mut s,
        RespValue::Array(vec![
            bulk(b"set"),
            bulk(b"k"),
            bulk(b"v"),
            bulk(b"px"),
            bulk(b"soon"),
        ]),
        0,
    );
    assert_eq!(r, Err(CmdError::BadNumber));

    let r = dispatch(
        &mut s,
        RespValue::Array(vec![
            bulk(b"set"),
            bulk(b"k"),
            bulk(b"v"),
            bulk(b"px"),
            bulk(b"18446744073709551615"),
        ]),
        1,
    );
    assert_eq!(r, Err(CmdError::ExpiryTooLarge));

    let r = dispatch(&mut s, RespValue::Array(vec![bulk(b"flush")]), 0);
    assert_eq!(r, Err(CmdError::UnknownCommand));
}

#[test]
fn error_replies_are_integer_frames() {
    assert_eq!(
        error_reply(&CmdError::UnknownCommand),
        RespValue::Integer(-7)
    );
    assert_eq!(error_reply(&CmdError::NotAnArray), RespValue::Integer(-2));
}

#[test]
fn handle_frame_runs_the_whole_pipeline() {
    let mut s = State::new();
    let (reply, notify, close) =
        handle_frame(&mut s, b"*3\r\n$3\r\nSET\r\n$3\r\nfoo\r\n$3\r\nbar\r\n", 0);
    assert_eq!(reply, b"+OK\r\n".to_vec());
    assert!(!notify);
    assert!(!close);

    let (reply, _, _) = handle_frame(&mut s, b"*2\r\n$3\r\nGET\r\n$3\r\nfoo\r\n", 0);
    assert_eq!(reply, b"$3\r\nbar\r\n".to_vec());

    let (reply, _, _) = handle_frame(&mut s, b"*2\r\n$3\r\nGET\r\n$4\r\nnope\r\n", 0);
    assert_eq!(reply, b"$-1\r\n".to_vec());

    let (reply, _, _) = handle_frame(&mut s, b"*1\r\n$4\r\nPiNg\r\n", 0);
    assert_eq!(reply, b"+PONG\r\n".to_vec());

    let (reply, _, _) = handle_frame(&mut s, b"*2\r\n$4\r\nECHO\r\n$2\r\nhi\r\n", 0);
    assert_eq!(reply, b"$2\r\nhi\r\n".to_vec());
}

#[test]
fn handle_frame_answers_failures_with_error_frames() {
    let mut s = State::new();
    // a malformed frame: a protocol error reply, and the connection
    // must close
    let (reply, notify, close) = handle_frame(&mut s, b"&junk\r\n", 0);
    assert_eq!(reply, b"--1\r\n".to_vec());
    assert!(!notify);
    assert!(close);

    // an unknown command: its error code, connection stays usable
    let (reply, _, close) = handle_frame(&mut s, b"*1\r\n$5\r\nflush\r\n", 0);
    assert_eq!(reply, b"--7\r\n".to_vec());
    assert!(!close);

    // a LIST reply is an array, which the response path cannot encode
    let (reply, _, _) = handle_frame(&mut s, b"*1\r\n$4\r\nLIST\r\n", 0);
    assert_eq!(reply, b"--8\r\n".to_vec());

    // after all that, the store still serves requests
    let (reply, _, _) = handle_frame(&mut s, b"*1\r\n$4\r\nping\r\n", 0);
    assert_eq!(reply, b"+PONG\r\n".to_vec());
}

#[test]
fn handle_frame_expiry_is_purged_after_its_instant() {
    let mut s = State::new();
    let (reply, notify, _) = handle_frame(
        &mut s,
        b"*5\r\n$3\r\nset\r\n$1\r\nk\r\n$1\r\nv\r\n$2\r\npx\r\n$2\r\n50\r\n",
        0,
    );
    assert_eq!(reply, b"+OK\r\n".to_vec());
    assert!(notify);

    let (reply, _, _) = handle_frame(&mut s, b"*2\r\n$3\r\nget\r\n$1\r\nk\r\n", 10);
    assert_eq!(reply, b"$1\r\nv\r\n".to_vec());

    let _ = s.purge_expired_keys(60);
    let (reply, _, _) = handle_frame(&mut s, b"*2\r\n$3\r\nget\r\n$1\r\nk\r\n", 70);
    assert_eq!(reply, b"$-1\r\n".to_vec());
}
