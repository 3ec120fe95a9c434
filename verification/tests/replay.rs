//! Append-only-log records and cold-start replay.

use kv::config::EvictionType;
use kv::context::ConnectionState;
use kv::core_aof::explain_execute_aofcommand;
use kv::core_execute::execute_command_normal;
use kv::db::Db;
use kv::error::Command;
use kv::error::Expiration;
use kv::error::GetCommand;
use kv::error::IsAof;
use kv::error::SetCommand;
use kv::error::SetCondition;

fn set_cmd(key: &[u8], value: &[u8], expiration: Option<Expiration>) -> Command {
    Command::SetCmd(SetCommand {
        key: key.to_vec(),
        value: value.to_vec(),
        expiration,
        condition: None,
    })
}

fn get_bytes(db: &mut Db, key: &[u8], now_ms: u64) -> Vec<u8> {
    let state = ConnectionState::new_default();
    let get = Command::Get(GetCommand { key: key.to_vec() });
    let (resp, _) = execute_command_normal(db, &state, &get, now_ms, IsAof::No);
    resp.serialize()
}

#[test]
fn set_record_shape_without_expiration() {
    let c = SetCommand {
        key: b"a".to_vec(),
        value: b"1".to_vec(),
        expiration: None,
        condition: None,
    };
    assert_eq!(
        c.execute_aof(5),
        b"*3\r\n$3\r\nSET\r\n$1\r\na\r\n$1\r\n1\r\n".to_vec()
    );
}

#[test]
fn set_record_rewrites_relative_expirations() {
    let c = SetCommand {
        key: b"k".to_vec(),
        value: b"v".to_vec(),
        expiration: Some(Expiration::EX(1)),
        condition: Some(SetCondition::NX),
    };
    // EX 1 at clock 100 becomes the absolute PXAT 1100; NX is kept.
    assert_eq!(
        c.execute_aof(100),
        b"*6\r\n$3\r\nSET\r\n$1\r\nk\r\n$1\r\nv\r\n$4\r\nPXAT\r\n$4\r\n1100\r\n$2\r\nNX\r\n"
            .to_vec()
    );
}

#[test]
fn set_record_keeps_client_exat() {
    let c = SetCommand {
        key: b"k".to_vec(),
        value: b"v".to_vec(),
        expiration: Some(Expiration::EXAT(33)),
        condition: None,
    };
    assert_eq!(
        c.execute_aof(100),
        b"*5\r\n$3\r\nSET\r\n$1\r\nk\r\n$1\r\nv\r\n$4\r\nEXAT\r\n$2\r\n33\r\n".to_vec()
    );
}

#[test]
fn replay_reproduces_state() {
    // Build a log the way the executor would, then replay it cold.
    let mut log: Vec<u8> = Vec::new();
    let mut db = Db::new(&EvictionType::LRU);
    let state = ConnectionState::new_default();
    let future = 1_000_000u64;
    let commands = vec![
        set_cmd(b"a", b"1", None),
        set_cmd(b"b", b"2", Some(Expiration::EXAT(future))),
        set_cmd(b"a", b"3", None),
        set_cmd(b"b", b"4", None),
    ];
    for command in &commands {
        let (resp, record) = execute_command_normal(&mut db, &state, command, 10, IsAof::Yes);
        assert_eq!(resp.serialize(), b"+OK\r\n".to_vec());
        log.extend_from_slice(&record.unwrap());
    }
    let mut fresh = Db::new(&EvictionType::LRU);
    let consumed = explain_execute_aofcommand(&mut fresh, &log, 20).unwrap();
    assert_eq!(consumed, log.len());
    assert_eq!(get_bytes(&mut fresh, b"a", 30), b"$1\r\n3\r\n".to_vec());
    assert_eq!(get_bytes(&mut fresh, b"b", 30), b"$1\r\n4\r\n".to_vec());
    // The replayed keyspace answers exactly as the original run does.
    assert_eq!(get_bytes(&mut db, b"a", 30), b"$1\r\n3\r\n".to_vec());
    assert_eq!(get_bytes(&mut db, b"b", 30), b"$1\r\n4\r\n".to_vec());
}

#[test]
fn replay_stops_at_partial_tail() {
    let mut log: Vec<u8> = Vec::new();
    let c = SetCommand {
        key: b"a".to_vec(),
        value: b"1".to_vec(),
        expiration: None,
        condition: None,
    };
    log.extend_from_slice(&c.execute_aof(0));
    let whole = log.len();
    log.extend_from_slice(b"*3\r\n$3\r\nSET\r\n$1\r\nb");
    let mut db = Db::new(&EvictionType::LRU);
    let consumed = explain_execute_aofcommand(&mut db, &log, 0).unwrap();
    assert_eq!(consumed, whole);
    assert_eq!(get_bytes(&mut db, b"a", 0), b"$1\r\n1\r\n".to_vec());
}

#[test]
fn replay_rejects_corrupt_log() {
    let mut db = Db::new(&EvictionType::LRU);
    assert!(explain_execute_aofcommand(&mut db, b"!not a frame\r\n", 0).is_err());
}

#[test]
fn replayed_expiration_is_absolute() {
    // A SET with PX 50 at clock 0 is logged as PXAT 50; replaying far
    // later still stores the original deadline, so the key reads dead.
    let mut db = Db::new(&EvictionType::LRU);
    let state = ConnectionState::new_default();
    let cmd = set_cmd(b"k", b"v", Some(Expiration::PX(50)));
    let (_, record) = execute_command_normal(&mut db, &state, &cmd, 0, IsAof::Yes);
    let log = record.unwrap();
    assert_eq!(
        log,
        b"*5\r\n$3\r\nSET\r\n$1\r\nk\r\n$1\r\nv\r\n$4\r\nPXAT\r\n$2\r\n50\r\n".to_vec()
    );
    let mut fresh = Db::new(&EvictionType::LRU);
    let _ = explain_execute_aofcommand(&mut fresh, &log, 200).unwrap();
    assert_eq!(get_bytes(&mut fresh, b"k", 200), b"$-1\r\n".to_vec());
    assert_eq!(get_bytes(&mut fresh, b"k", 40), b"$1\r\nv\r\n".to_vec());
}

#[test]
fn script_overlay_records_replay() {
    // A committed write-buffer leaves materialized SET records; replaying
    // them rebuilds the script-written state without the script runtime.
    let mut overlay = kv::db::eviction::LuaCacheNode::new(0);
    overlay.insert(
        b"s1".to_vec(),
        kv::types::ValueEntry::new(
            kv::types::Value::Simple(kv::types::Element::Str(b"v".to_vec())),
            None,
        ),
    );
    overlay.insert(
        b"s2".to_vec(),
        kv::types::ValueEntry::new(
            kv::types::Value::Simple(kv::types::Element::Int(7)),
            Some(500),
        ),
    );
    let records = overlay.aof_records(100);
    assert_eq!(records.len(), 2);
    assert_eq!(
        records[0],
        b"*3\r\n$3\r\nSET\r\n$2\r\ns1\r\n$1\r\nv\r\n".to_vec()
    );
    assert_eq!(
        records[1],
        b"*5\r\n$3\r\nSET\r\n$2\r\ns2\r\n$1\r\n7\r\n$4\r\nPXAT\r\n$3\r\n500\r\n".to_vec()
    );
    let mut log: Vec<u8> = Vec::new();
    for record in &records {
        log.extend_from_slice(record);
    }
    let mut db = Db::new(&EvictionType::LRU);
    let consumed = explain_execute_aofcommand(&mut db, &log, 200).unwrap();
    assert_eq!(consumed, log.len());
    assert_eq!(get_bytes(&mut db, b"s1", 200), b"$1\r\nv\r\n".to_vec());
    assert_eq!(get_bytes(&mut db, b"s2", 400), b"$1\r\n7\r\n".to_vec());
    assert_eq!(get_bytes(&mut db, b"s2", 600), b"$-1\r\n".to_vec());
}

#[test]
fn numeric_text_round_trips() {
    assert_eq!(kv::command_execute::parse_int_from_bytes(0), b"0".to_vec());
    assert_eq!(kv::command_execute::parse_int_from_bytes(-42), b"-42".to_vec());
    assert_eq!(
        kv::command_execute::parse_int_from_bytes(i64::MIN),
        b"-9223372036854775808".to_vec()
    );
    assert_eq!(kv::aof_exchange::parse_int_from_bytes(u64::MAX), b"18446744073709551615".to_vec());
    assert_eq!(kv::command_execute::parse_i64_text(b"-42"), Some(-42));
    assert_eq!(kv::command_execute::parse_i64_text(b"042"), Some(42));
    assert_eq!(kv::command_execute::parse_i64_text(b""), None);
    assert_eq!(kv::command_execute::parse_i64_text(b"12a"), None);
    assert_eq!(kv::command_execute::parse_i64_text(b"9223372036854775808"), None);
    assert_eq!(
        kv::command_execute::parse_i64_text(b"-9223372036854775808"),
        Some(i64::MIN)
    );
}

#[test]
fn value_transcoding_matches_parser() {
    assert_eq!(kv::command_execute::bytes_to_i64_fast(&b"042".to_vec()), Some(42));
    assert_eq!(kv::command_execute::bytes_to_i64_fast(&b"+42".to_vec()), Some(42));
    assert_eq!(kv::command_execute::bytes_to_i64_fast(&b"+".to_vec()), None);
    assert_eq!(kv::command_execute::bytes_to_i64_fast(&b"+-1".to_vec()), None);
    assert_eq!(kv::command_execute::bytes_to_i64_fast(&b"-7".to_vec()), Some(-7));
    assert_eq!(kv::command_execute::bytes_to_i64_fast(&b"12a".to_vec()), None);
    assert_eq!(
        kv::command_execute::bytes_to_i64_fast(&b"9223372036854775808".to_vec()),
        None
    );
    assert_eq!(kv::command_execute::bytes_to_i64_fast(&b"".to_vec()), None);
}
