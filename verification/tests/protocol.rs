//! Wire-protocol scenarios: decoding, command shaping, and the
//! end-to-end request/response pairs.

use kv::config::EvictionType;
use kv::context::ConnectionState;
use kv::core_execute::execute_command_normal;
use kv::core_explain::parse_frame;
use kv::db::Db;
use kv::error::Command;
use kv::error::Frame;
use kv::error::IsAof;

fn run_wire(db: &mut Db, state: &ConnectionState, input: &[u8], now_ms: u64) -> Vec<u8> {
    let (frame, consumed) = parse_frame(input).unwrap().unwrap();
    assert_eq!(consumed, input.len());
    let command = Command::from_frame(frame).unwrap();
    let (response, _record) = execute_command_normal(db, state, &command, now_ms, IsAof::Yes);
    response.serialize()
}

#[test]
fn ping_with_argument() {
    let mut db = Db::new(&EvictionType::LRU);
    let state = ConnectionState::new_default();
    let out = run_wire(&mut db, &state, b"*2\r\n$4\r\nPING\r\n$5\r\nhello\r\n", 0);
    assert_eq!(out, b"$5\r\nhello\r\n".to_vec());
}

#[test]
fn ping_without_argument() {
    let mut db = Db::new(&EvictionType::LRU);
    let state = ConnectionState::new_default();
    let out = run_wire(&mut db, &state, b"*1\r\n$4\r\nPING\r\n", 0);
    assert_eq!(out, b"+PONG\r\n".to_vec());
}

#[test]
fn set_then_get() {
    let mut db = Db::new(&EvictionType::LRU);
    let state = ConnectionState::new_default();
    let out = run_wire(&mut db, &state, b"*3\r\n$3\r\nSET\r\n$3\r\nfoo\r\n$3\r\nbar\r\n", 0);
    assert_eq!(out, b"+OK\r\n".to_vec());
    let out = run_wire(&mut db, &state, b"*2\r\n$3\r\nGET\r\n$3\r\nfoo\r\n", 0);
    assert_eq!(out, b"$3\r\nbar\r\n".to_vec());
}

#[test]
fn integer_canonicalization() {
    let mut db = Db::new(&EvictionType::LRU);
    let state = ConnectionState::new_default();
    let out = run_wire(&mut db, &state, b"*3\r\n$3\r\nSET\r\n$1\r\nn\r\n$3\r\n042\r\n", 0);
    assert_eq!(out, b"+OK\r\n".to_vec());
    let out = run_wire(&mut db, &state, b"*2\r\n$3\r\nGET\r\n$1\r\nn\r\n", 0);
    assert_eq!(out, b"$2\r\n42\r\n".to_vec());
}

#[test]
fn ttl_expiry() {
    let mut db = Db::new(&EvictionType::LRU);
    let state = ConnectionState::new_default();
    let out = run_wire(
        &mut db,
        &state,
        b"*5\r\n$3\r\nSET\r\n$1\r\nk\r\n$1\r\nv\r\n$2\r\nPX\r\n$2\r\n50\r\n",
        0,
    );
    assert_eq!(out, b"+OK\r\n".to_vec());
    let out = run_wire(&mut db, &state, b"*2\r\n$3\r\nGET\r\n$1\r\nk\r\n", 200);
    assert_eq!(out, b"$-1\r\n".to_vec());
}

#[test]
fn unknown_command() {
    let mut db = Db::new(&EvictionType::LRU);
    let state = ConnectionState::new_default();
    let out = run_wire(&mut db, &state, b"*1\r\n$4\r\nSPAM\r\n", 0);
    assert_eq!(out, b"-ERR unknown command 'SPAM'\r\n".to_vec());
}

#[test]
fn get_missing_key_is_null() {
    let mut db = Db::new(&EvictionType::LRU);
    let state = ConnectionState::new_default();
    let out = run_wire(&mut db, &state, b"*2\r\n$3\r\nGET\r\n$4\r\nnone\r\n", 0);
    assert_eq!(out, b"$-1\r\n".to_vec());
}

#[test]
fn empty_array_is_protocol_error() {
    let (frame, consumed) = parse_frame(b"*0\r\n").unwrap().unwrap();
    assert_eq!(consumed, 4);
    assert!(Command::from_frame(frame).is_err());
}

#[test]
fn short_bulk_is_incomplete() {
    // The declared length exceeds the available bytes: the decoder asks
    // for more and consumes nothing.
    assert!(parse_frame(b"$10\r\nabc").unwrap().is_none());
    assert!(parse_frame(b"*2\r\n$4\r\nPING\r\n$5\r\nhel").unwrap().is_none());
}

#[test]
fn malformed_prefix_is_error() {
    assert!(parse_frame(b"!oops\r\n").is_err());
    assert!(parse_frame(b"$x\r\n").is_err());
}

#[test]
fn set_with_zero_expiration_is_error() {
    let (frame, _) = parse_frame(b"*5\r\n$3\r\nSET\r\n$1\r\nk\r\n$1\r\nv\r\n$2\r\nEX\r\n$1\r\n0\r\n")
        .unwrap()
        .unwrap();
    assert!(Command::from_frame(frame).is_err());
    let (frame, _) = parse_frame(b"*5\r\n$3\r\nSET\r\n$1\r\nk\r\n$1\r\nv\r\n$2\r\nPX\r\n$1\r\n0\r\n")
        .unwrap()
        .unwrap();
    assert!(Command::from_frame(frame).is_err());
}

#[test]
fn set_with_nx_and_xx_is_error() {
    let (frame, _) = parse_frame(b"*5\r\n$3\r\nSET\r\n$1\r\nk\r\n$1\r\nv\r\n$2\r\nNX\r\n$2\r\nXX\r\n")
        .unwrap()
        .unwrap();
    assert!(Command::from_frame(frame).is_err());
}

#[test]
fn set_options_parse() {
    let (frame, _) = parse_frame(
        b"*6\r\n$3\r\nSET\r\n$1\r\nk\r\n$1\r\nv\r\n$4\r\nEXAT\r\n$2\r\n10\r\n$2\r\nNX\r\n",
    )
    .unwrap()
    .unwrap();
    let command = Command::from_frame(frame).unwrap();
    match command {
        Command::SetCmd(c) => {
            assert_eq!(c.key, b"k".to_vec());
            assert_eq!(c.value, b"v".to_vec());
            assert!(matches!(c.expiration, Some(kv::error::Expiration::EXAT(10))));
            assert!(matches!(c.condition, Some(kv::error::SetCondition::NX)));
        },
        _ => panic!("expected a SET"),
    }
}

#[test]
fn command_names_are_case_insensitive() {
    let mut db = Db::new(&EvictionType::LRU);
    let state = ConnectionState::new_default();
    let out = run_wire(&mut db, &state, b"*1\r\n$4\r\nping\r\n", 0);
    assert_eq!(out, b"+PONG\r\n".to_vec());
}

#[test]
fn serialize_all_frame_kinds() {
    assert_eq!(Frame::Simple(b"OK".to_vec()).serialize(), b"+OK\r\n".to_vec());
    assert_eq!(Frame::Error(b"ERR x".to_vec()).serialize(), b"-ERR x\r\n".to_vec());
    assert_eq!(Frame::Integer(-42).serialize(), b":-42\r\n".to_vec());
    assert_eq!(Frame::Null.serialize(), b"$-1\r\n".to_vec());
    assert_eq!(Frame::Bulk(b"ab".to_vec()).serialize(), b"$2\r\nab\r\n".to_vec());
    let arr = Frame::Array(vec![Frame::Bulk(b"GET".to_vec()), Frame::Bulk(b"k".to_vec())]);
    assert_eq!(arr.serialize(), b"*2\r\n$3\r\nGET\r\n$1\r\nk\r\n".to_vec());
}

#[test]
fn decode_round_trip_of_serialized_command() {
    let arr = Frame::Array(vec![Frame::Bulk(b"PING".to_vec()), Frame::Bulk(b"x".to_vec())]);
    let mut bytes = arr.serialize();
    let expect = bytes.len();
    bytes.extend_from_slice(b"garbage after");
    let (frame, consumed) = parse_frame(&bytes).unwrap().unwrap();
    assert_eq!(consumed, expect);
    assert_eq!(frame.serialize(), arr.serialize());
}

#[test]
fn two_pipelined_commands() {
    let mut db = Db::new(&EvictionType::LRU);
    let state = ConnectionState::new_default();
    let input = b"*3\r\n$3\r\nSET\r\n$1\r\na\r\n$1\r\n1\r\n*2\r\n$3\r\nGET\r\n$1\r\na\r\n";
    let (responses, records, consumed) =
        kv::server::explain_execute_command(&mut db, &state, input, 0).unwrap();
    assert_eq!(consumed, input.len());
    assert_eq!(responses.len(), 2);
    assert_eq!(responses[0], b"+OK\r\n".to_vec());
    assert_eq!(responses[1], b"$1\r\n1\r\n".to_vec());
    assert_eq!(records.len(), 1);
}

#[test]
fn wrong_arity_is_error() {
    // GET with two arguments, PING with two arguments.
    let (frame, _) = parse_frame(b"*3\r\n$3\r\nGET\r\n$1\r\na\r\n$1\r\nb\r\n").unwrap().unwrap();
    assert!(Command::from_frame(frame).is_err());
    let (frame, _) = parse_frame(b"*3\r\n$4\r\nPING\r\n$1\r\na\r\n$1\r\nb\r\n").unwrap().unwrap();
    assert!(Command::from_frame(frame).is_err());
}

#[test]
fn eval_shape() {
    let (frame, _) = parse_frame(
        b"*5\r\n$4\r\nEVAL\r\n$8\r\nreturn 1\r\n$1\r\n2\r\n$1\r\na\r\n$1\r\nb\r\n",
    )
    .unwrap()
    .unwrap();
    match Command::from_frame(frame).unwrap() {
        Command::EvalCommand(c) => {
            assert_eq!(c.script, b"return 1".to_vec());
            assert_eq!(c.keys, vec![b"a".to_vec(), b"b".to_vec()]);
            assert!(c.args.is_empty());
        },
        _ => panic!("expected an EVAL"),
    }
    // Fewer keys than `numkeys` declares.
    let (frame, _) = parse_frame(b"*4\r\n$4\r\nEVAL\r\n$8\r\nreturn 1\r\n$1\r\n2\r\n$1\r\na\r\n")
        .unwrap()
        .unwrap();
    assert!(Command::from_frame(frame).is_err());
}

#[test]
fn nested_array_decodes_but_names_no_command() {
    let (frame, consumed) = parse_frame(b"*1\r\n*1\r\n$1\r\na\r\n").unwrap().unwrap();
    assert_eq!(consumed, 15);
    assert!(Command::from_frame(frame).is_err());
}

#[test]
fn bad_bulk_length_text_is_error() {
    assert!(parse_frame(b"$+3\r\nabc\r\n").is_err());
    assert!(parse_frame(b"*-1\r\n").is_err());
}

#[test]
fn bad_frame_after_commands_keeps_their_effects() {
    // A SET pipelined ahead of a malformed frame executes, answers,
    // and leaves its log record; the error is reported only when it
    // reaches the front of the buffer.
    let mut db = Db::new(&EvictionType::LRU);
    let state = ConnectionState::new_default();
    let set = b"*3\r\n$3\r\nSET\r\n$1\r\na\r\n$1\r\n1\r\n";
    let mut input = set.to_vec();
    input.extend_from_slice(b"!junk\r\n");
    let (responses, records, consumed) =
        kv::server::explain_execute_command(&mut db, &state, &input, 0).unwrap();
    assert_eq!(consumed, set.len());
    assert_eq!(responses, vec![b"+OK\r\n".to_vec()]);
    assert_eq!(records.len(), 1);
    // The stored value survived the bad tail.
    let out = run_wire(&mut db, &state, b"*2\r\n$3\r\nGET\r\n$1\r\na\r\n", 0);
    assert_eq!(out, b"$1\r\n1\r\n".to_vec());
    // The remainder now fails at the front, with nothing executed.
    assert!(kv::server::explain_execute_command(&mut db, &state, &input[consumed..], 0)
        .is_err());
    // An invalid command behind a valid one behaves the same way.
    let mut input = set.to_vec();
    input.extend_from_slice(b"*0\r\n");
    let (responses, _, consumed) =
        kv::server::explain_execute_command(&mut db, &state, &input, 0).unwrap();
    assert_eq!(consumed, set.len());
    assert_eq!(responses.len(), 1);
}

#[test]
fn resynchronization_helpers() {
    assert_eq!(kv::server::find_array_marker(b"xx*1\r\n", 0), Some(2));
    assert_eq!(kv::server::find_array_marker(b"xxx", 0), None);
    assert_eq!(kv::server::find_crlf_idiomatic(b"ab\r\ncd"), Some(2));
    assert_eq!(kv::server::find_crlf_idiomatic(b"abcd"), None);
}
