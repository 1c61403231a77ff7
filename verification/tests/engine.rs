//! Tests of the keyspace engine: dispatch, expiry, the lazy sweep, the
//! replication introspection commands, and the frame-processing boundary.

use std::sync::Arc;

use redis_starter_rust::data_core::Command;
use redis_starter_rust::data_core::DataCore;
use redis_starter_rust::data_core::FrameOutcome;
use redis_starter_rust::data_core::process_frame;
use redis_starter_rust::data_core::ReplicationRole;
use redis_starter_rust::parser::ParserValue;
use redis_starter_rust::replication::ReplicationSettings;
use redis_starter_rust::tokenizer::serialize_tokens;

fn test_settings(role: ReplicationRole) -> ReplicationSettings {
    ReplicationSettings {
        replication_role: role,
        connected_slaves: 0,
        master_replid: "0123456789abcdefghijklmnopqrstuvwxyzABCD".to_string(),
        master_reploffset: 0,
        second_reploffset: -1,
        repl_backlog_active: 0,
        repl_backlog_size: 1048576,
        repl_backlog_first_byte_offset: 0,
        repl_backlog_histlen: 0,
        master_host: None,
        master_port: None,
    }
}

fn command_of(words: &[&str]) -> Command {
    let args: Vec<ParserValue> = words
        .iter()
        .map(|w| ParserValue::BulkString(w.to_string()))
        .collect();
    Command::new(Arc::new(args), test_settings(ReplicationRole::Master))
}

fn run_at(core: &mut DataCore, words: &[&str], now: i64) -> String {
    let response = core.process_command_at(command_of(words), now);
    serialize_tokens(&response).unwrap()
}

#[test]
fn ping_answers_pong() {
    let mut core = DataCore::new();
    assert_eq!(run_at(&mut core, &["PING"], 0), "+PONG\r\n");
}

#[test]
fn set_then_get_round_trip() {
    let mut core = DataCore::new();
    assert_eq!(run_at(&mut core, &["SET", "foo", "bar"], 0), "+OK\r\n");
    assert_eq!(run_at(&mut core, &["GET", "foo"], 1), "$3\r\nbar\r\n");
    assert_eq!(run_at(&mut core, &["GET", "missing"], 2), "$-1\r\n");
}

#[test]
fn echo_answers_each_argument() {
    let mut core = DataCore::new();
    assert_eq!(run_at(&mut core, &["ECHO", "hello"], 0), "$5\r\nhello\r\n");
    assert_eq!(
        run_at(&mut core, &["ECHO", "a", "bc"], 0),
        "$1\r\na\r\n$2\r\nbc\r\n"
    );
    // declared lengths count bytes: "h\u{e9}llo" is five characters, six bytes
    assert_eq!(
        run_at(&mut core, &["ECHO", "h\u{e9}llo"], 0),
        "$6\r\nh\u{e9}llo\r\n"
    );
}

#[test]
fn dispatch_ignores_verb_case() {
    let mut a = DataCore::new();
    let mut b = DataCore::new();
    let mut c = DataCore::new();
    let upper = run_at(&mut a, &["PING"], 0);
    let lower = run_at(&mut b, &["ping"], 0);
    let mixed = run_at(&mut c, &["PiNg"], 0);
    assert_eq!(upper, lower);
    assert_eq!(lower, mixed);
}

#[test]
fn set_with_px_zero_expires_at_once() {
    let mut core = DataCore::new();
    assert_eq!(run_at(&mut core, &["SET", "k", "v", "PX", "0"], 100), "+OK\r\n");
    // the very next instant the entry has expired
    assert_eq!(run_at(&mut core, &["GET", "k"], 101), "$-1\r\n");
}

#[test]
fn set_without_px_never_expires() {
    let mut core = DataCore::new();
    assert_eq!(run_at(&mut core, &["SET", "k", "v"], 0), "+OK\r\n");
    assert_eq!(run_at(&mut core, &["GET", "k"], i64::MAX), "$1\r\nv\r\n");
}

#[test]
fn set_px_entry_lives_until_its_instant() {
    let mut core = DataCore::new();
    // 5 ms from now = 5_000_000 ns
    assert_eq!(run_at(&mut core, &["SET", "k", "v", "PX", "5"], 0), "+OK\r\n");
    assert_eq!(run_at(&mut core, &["GET", "k"], 5_000_000), "$1\r\nv\r\n");
    assert_eq!(run_at(&mut core, &["GET", "k"], 5_000_001), "$-1\r\n");
}

#[test]
fn set_px_in_the_past_is_swept_immediately() {
    let mut core = DataCore::new();
    assert_eq!(
        run_at(&mut core, &["SET", "k", "v", "PX", "-100"], 1_000_000_000),
        "+OK\r\n"
    );
    assert_eq!(run_at(&mut core, &["GET", "k"], 1_000_000_001), "$-1\r\n");
}

#[test]
fn set_overwrites_previous_value() {
    let mut core = DataCore::new();
    assert_eq!(run_at(&mut core, &["SET", "k", "first"], 0), "+OK\r\n");
    assert_eq!(run_at(&mut core, &["SET", "k", "second"], 1), "+OK\r\n");
    assert_eq!(run_at(&mut core, &["GET", "k"], 2), "$6\r\nsecond\r\n");
}

#[test]
fn set_with_unparseable_px_count_answers_an_error() {
    let mut core = DataCore::new();
    assert_eq!(
        run_at(&mut core, &["SET", "k", "v", "PX", "soon"], 0),
        "-ERR value is not an integer or out of range\r\n"
    );
    // the failed write stored nothing
    assert_eq!(run_at(&mut core, &["GET", "k"], 1), "$-1\r\n");
}

#[test]
fn set_with_missing_arguments_answers_an_error() {
    let mut core = DataCore::new();
    assert_eq!(
        run_at(&mut core, &["SET", "k"], 0),
        "-ERR wrong number of arguments for 'set' command\r\n"
    );
    assert_eq!(
        run_at(&mut core, &["GET"], 0),
        "-ERR wrong number of arguments for 'get' command\r\n"
    );
}

#[test]
fn set_with_non_string_key_answers_null() {
    let mut core = DataCore::new();
    let args = vec![
        ParserValue::BulkString("SET".to_string()),
        ParserValue::Array(vec![]),
        ParserValue::BulkString("v".to_string()),
    ];
    let command = Command::new(Arc::new(args), test_settings(ReplicationRole::Master));
    let response = core.process_command_at(command, 0);
    assert_eq!(serialize_tokens(&response).unwrap(), "$-1\r\n");
}

#[test]
fn unknown_verb_answers_an_error_reply() {
    let mut core = DataCore::new();
    assert_eq!(
        run_at(&mut core, &["FLUSHALL"], 0),
        "-ERR unknown command\r\n"
    );
}

#[test]
fn command_answers_empty_simple_string() {
    let mut core = DataCore::new();
    assert_eq!(run_at(&mut core, &["COMMAND"], 0), "+\r\n");
}

#[test]
fn replconf_always_acknowledges() {
    let mut core = DataCore::new();
    assert_eq!(run_at(&mut core, &["REPLCONF", "capa", "psync2"], 0), "+OK\r\n");
}

#[test]
fn info_prints_the_replication_section() {
    let mut core = DataCore::new();
    let expected_body = "# Replication\nrole:master\nconnected_slaves:0\nmaster_replid:0123456789abcdefghijklmnopqrstuvwxyzABCD\nmaster_repl_offset:0\nsecond_repl_offset:-1\nrepl_backlog_active:0\nrepl_backlog_size:1048576\nrepl_backlog_first_byte_offset:0\nrepl_backlog_histen:0";
    let expected = format!("${}\r\n{}\r\n", expected_body.len(), expected_body);
    assert_eq!(run_at(&mut core, &["INFO"], 0), expected);
}

#[test]
fn psync_announces_a_full_resynchronization() {
    let mut core = DataCore::new();
    assert_eq!(
        run_at(&mut core, &["PSYNC", "?", "-1"], 0),
        "+FULLRESYNC 0123456789abcdefghijklmnopqrstuvwxyzABCD 0\r\n"
    );
}

#[test]
fn is_psync_matches_the_verb_case_insensitively() {
    assert!(command_of(&["PSYNC", "?", "-1"]).is_psync());
    assert!(command_of(&["pSyNc"]).is_psync());
    assert!(!command_of(&["PING"]).is_psync());
}

#[test]
fn rdb_bytes_frame_the_placeholder_snapshot() {
    let core = DataCore::new();
    let bytes = core.to_rdb_bytes();
    assert!(bytes.starts_with(b"$88\r\n"));
    assert_eq!(&bytes[5..14], b"REDIS0011");
    assert_eq!(bytes.len(), 5 + 88);
}

#[test]
fn data_value_expiry_saturates() {
    let mut dv = redis_starter_rust::data_core::DataValue::new(ParserValue::BulkString(
        "v".to_string(),
    ));
    dv.set_expiry_at(i64::MAX - 10, i64::MAX);
    // the expiry clipped to the end of the representable range: never reached
    assert!(!dv.has_expired_at(i64::MAX));
    let mut dv2 = redis_starter_rust::data_core::DataValue::new(ParserValue::BulkString(
        "v".to_string(),
    ));
    dv2.set_expiry_at(50, 0);
    assert!(!dv2.has_expired_at(50));
    assert!(dv2.has_expired_at(51));
}

#[test]
fn process_frame_runs_a_whole_request() {
    let mut core = DataCore::new();
    let settings = test_settings(ReplicationRole::Master);
    let outcome = process_frame(
        &mut core,
        "*3\r\n$3\r\nSET\r\n$3\r\nfoo\r\n$3\r\nbar\r\n",
        settings.clone(),
        0,
    );
    match outcome {
        FrameOutcome::Reply(s, snapshot) => {
            assert_eq!(s, "+OK\r\n");
            assert!(snapshot.is_none());
        }
        FrameOutcome::Shutdown => panic!("expected a reply"),
    }
    let outcome = process_frame(&mut core, "*2\r\n$3\r\nGET\r\n$3\r\nfoo\r\n", settings, 1);
    match outcome {
        FrameOutcome::Reply(s, _) => assert_eq!(s, "$3\r\nbar\r\n"),
        FrameOutcome::Shutdown => panic!("expected a reply"),
    }
}

#[test]
fn process_frame_shuts_down_on_non_array_request() {
    let mut core = DataCore::new();
    let settings = test_settings(ReplicationRole::Master);
    assert!(matches!(
        process_frame(&mut core, "+OK\r\n", settings.clone(), 0),
        FrameOutcome::Shutdown
    ));
    assert!(matches!(
        process_frame(&mut core, "*0\r\n", settings.clone(), 0),
        FrameOutcome::Shutdown
    ));
    assert!(matches!(
        process_frame(&mut core, "garbage", settings, 0),
        FrameOutcome::Shutdown
    ));
}

#[test]
fn process_frame_attaches_the_snapshot_to_psync() {
    let mut core = DataCore::new();
    let settings = test_settings(ReplicationRole::Master);
    let outcome = process_frame(&mut core, "*1\r\n$5\r\nPSYNC\r\n", settings, 0);
    match outcome {
        FrameOutcome::Reply(s, snapshot) => {
            assert!(s.starts_with("+FULLRESYNC "));
            assert!(snapshot.unwrap().starts_with(b"$88\r\n"));
        }
        FrameOutcome::Shutdown => panic!("expected a reply"),
    }
}

#[test]
fn role_names() {
    assert_eq!(ReplicationRole::Master.to_string(), "master");
    assert_eq!(ReplicationRole::Slave.to_string(), "slave");
}

#[test]
fn fresh_settings_carry_the_fixed_initial_counters() {
    let settings = ReplicationSettings::new(
        ReplicationRole::Slave,
        Some("localhost".to_string()),
        Some(6379),
    );
    assert_eq!(settings.master_replid.len(), 40);
    assert_eq!(settings.connected_slaves, 0);
    assert_eq!(settings.master_reploffset, 0);
    assert_eq!(settings.second_reploffset, -1);
    assert_eq!(settings.repl_backlog_size, 1048576);
    assert_eq!(settings.master_host.as_deref(), Some("localhost"));
    assert_eq!(settings.master_port, Some(6379));
    assert_eq!(settings.replication_role, ReplicationRole::Slave);
}
