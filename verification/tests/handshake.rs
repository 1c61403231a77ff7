//! Tests of the replica-side handshake engine and the numeric helpers it
//! and the command engine share.

use redis_starter_rust::numeric::i64_to_dec_string;
use redis_starter_rust::numeric::parse_i64;
use redis_starter_rust::numeric::u64_to_dec;
use redis_starter_rust::replication::handshake_advance;
use redis_starter_rust::replication::handshake_message;
use redis_starter_rust::replication::HandshakeProgress;
use redis_starter_rust::replication::HandshakeStep;

#[test]
fn handshake_messages_spell_the_negotiation() {
    assert_eq!(handshake_message(HandshakeStep::Ping, 6380), "*1\r\n+PING\r\n");
    assert_eq!(
        handshake_message(HandshakeStep::ListeningPort, 6380),
        "*3\r\n+REPLCONF\r\n+listening-port\r\n+6380\r\n"
    );
    assert_eq!(
        handshake_message(HandshakeStep::Capabilities, 6380),
        "*3\r\n+REPLCONF\r\n+capa\r\n+psync2\r\n"
    );
    assert_eq!(
        handshake_message(HandshakeStep::Psync, 6380),
        "*3\r\n$5\r\nPSYNC\r\n$1\r\n?\r\n$2\r\n-1\r\n"
    );
}

#[test]
fn handshake_advances_step_by_step() {
    assert!(matches!(
        handshake_advance(HandshakeStep::Ping, "+PONG\r\n"),
        HandshakeProgress::Continue(HandshakeStep::ListeningPort)
    ));
    assert!(matches!(
        handshake_advance(HandshakeStep::ListeningPort, "+OK\r\n"),
        HandshakeProgress::Continue(HandshakeStep::Capabilities)
    ));
    assert!(matches!(
        handshake_advance(HandshakeStep::Capabilities, "+OK\r\n"),
        HandshakeProgress::Continue(HandshakeStep::Psync)
    ));
    match handshake_advance(
        HandshakeStep::Psync,
        "+FULLRESYNC 8371b4fb1155b71f4a04d3e1bc3e18c4a990aeeb 0\r\n",
    ) {
        HandshakeProgress::Done(id) => {
            assert_eq!(id, "8371b4fb1155b71f4a04d3e1bc3e18c4a990aeeb")
        }
        _ => panic!("expected the replication id"),
    }
}

#[test]
fn handshake_rejects_wrong_replies() {
    assert!(matches!(
        handshake_advance(HandshakeStep::Ping, "+OK\r\n"),
        HandshakeProgress::Failed
    ));
    assert!(matches!(
        handshake_advance(HandshakeStep::ListeningPort, "+PONG\r\n"),
        HandshakeProgress::Failed
    ));
    assert!(matches!(
        handshake_advance(HandshakeStep::Ping, "not a frame"),
        HandshakeProgress::Failed
    ));
    // a resynchronization acknowledgment with no second field
    assert!(matches!(
        handshake_advance(HandshakeStep::Psync, "+FULLRESYNC\r\n"),
        HandshakeProgress::Failed
    ));
}

#[test]
fn handshake_accepts_bulk_replies_too() {
    assert!(matches!(
        handshake_advance(HandshakeStep::Ping, "$4\r\nPONG\r\n"),
        HandshakeProgress::Continue(HandshakeStep::ListeningPort)
    ));
}

#[test]
fn fullresync_split_takes_at_most_three_parts() {
    // a third space belongs to the offset field, not the id
    match handshake_advance(HandshakeStep::Psync, "+FULLRESYNC someid 0\r\n") {
        HandshakeProgress::Done(id) => assert_eq!(id, "someid"),
        _ => panic!("expected the replication id"),
    }
}

#[test]
fn decimal_rendering_is_exact() {
    assert_eq!(u64_to_dec(0), "0");
    assert_eq!(u64_to_dec(1048576), "1048576");
    assert_eq!(i64_to_dec_string(-1), "-1");
    assert_eq!(i64_to_dec_string(i64::MIN), "-9223372036854775808");
    assert_eq!(i64_to_dec_string(i64::MAX), "9223372036854775807");
}

#[test]
fn integer_parsing_matches_the_decimal_grammar() {
    assert_eq!(parse_i64("123"), Some(123));
    assert_eq!(parse_i64("-5"), Some(-5));
    assert_eq!(parse_i64("+7"), Some(7));
    assert_eq!(parse_i64("0"), Some(0));
    assert_eq!(parse_i64("-9223372036854775808"), Some(i64::MIN));
    assert_eq!(parse_i64("9223372036854775807"), Some(i64::MAX));
    assert_eq!(parse_i64("9223372036854775808"), None);
    assert_eq!(parse_i64(""), None);
    assert_eq!(parse_i64("-"), None);
    assert_eq!(parse_i64("12a"), None);
    assert_eq!(parse_i64("soon"), None);
}
