//! Tests of the wire-protocol codec: scanning, parsing, serialization and
//! the round trip between them.

use redis_starter_rust::parser::parse_tokens;
use redis_starter_rust::parser::tokens_to_array;
use redis_starter_rust::parser::tokens_to_bulk_string;
use redis_starter_rust::parser::tokens_to_simple_string;
use redis_starter_rust::parser::ParseError;
use redis_starter_rust::parser::ParserValue;
use redis_starter_rust::tokenizer::parse_resp_tokens_from_str;
use redis_starter_rust::tokenizer::serialize_tokens;
use redis_starter_rust::tokenizer::LexError;
use redis_starter_rust::tokenizer::SerializeError;
use redis_starter_rust::tokenizer::Token;

#[test]
fn test_parses_bulk_string_with_negative_number() {
    let tokens = vec![
        Token::Dollar,
        Token::Number(2),
        Token::Separator,
        Token::Hyphen,
        Token::Number(1),
        Token::Separator,
    ];
    let mut pos: usize = 0;
    let result = tokens_to_bulk_string(&tokens, &mut pos);
    assert!(result.is_ok());
    assert_eq!(
        ParserValue::BulkString("-1".to_string()).to_string().unwrap(),
        result.unwrap().to_string().unwrap()
    );
}

#[test]
fn test_parses_bulk_string() {
    let tokens = vec![
        Token::Dollar,
        Token::Number(5),
        Token::Separator,
        Token::String("PSYNC".to_string()),
        Token::Separator,
    ];
    let mut pos: usize = 0;
    let result = tokens_to_bulk_string(&tokens, &mut pos);
    assert!(result.is_ok());
    assert_eq!(
        ParserValue::BulkString("PSYNC".to_string()).to_string().unwrap(),
        result.unwrap().to_string().unwrap()
    );
}

#[test]
fn test_parses_simple_strings() {
    let input_string = "+OK\r\n";
    let tokens = parse_resp_tokens_from_str(input_string);
    assert!(tokens.is_ok());
    let tokens = tokens.unwrap();
    assert_eq!(3, tokens.len());
    let token = tokens.first().unwrap();
    assert!(token.is_plus());
    let token = tokens.get(1).unwrap();
    assert!(token.is_string());
    let token = token.to_string().unwrap();
    assert_eq!("OK".to_string(), token);
    let token = tokens.get(2).unwrap();
    assert!(token.is_separator());
}

fn wire_of_value(v: &ParserValue) -> String {
    serialize_tokens(&v.to_tokens()).unwrap()
}

fn round_trip(v: &ParserValue) -> ParserValue {
    let wire = wire_of_value(v);
    let tokens = parse_resp_tokens_from_str(&wire).unwrap();
    parse_tokens(&tokens).unwrap()
}

fn values_equal(a: &ParserValue, b: &ParserValue) -> bool {
    match (a, b) {
        (ParserValue::SimpleString(x), ParserValue::SimpleString(y)) => x == y,
        (ParserValue::BulkString(x), ParserValue::BulkString(y)) => x == y,
        (ParserValue::NullBulkString, ParserValue::NullBulkString) => true,
        (ParserValue::Array(xs), ParserValue::Array(ys)) => {
            xs.len() == ys.len()
                && xs.iter().zip(ys.iter()).all(|(x, y)| values_equal(x, y))
        }
        _ => false,
    }
}

#[test]
fn round_trip_of_command_array() {
    let v = ParserValue::Array(vec![
        ParserValue::BulkString("SET".to_string()),
        ParserValue::BulkString("foo".to_string()),
        ParserValue::BulkString("bar".to_string()),
    ]);
    assert_eq!(
        wire_of_value(&v),
        "*3\r\n$3\r\nSET\r\n$3\r\nfoo\r\n$3\r\nbar\r\n"
    );
    assert!(values_equal(&v, &round_trip(&v)));
}

#[test]
fn round_trip_of_nested_array() {
    let v = ParserValue::Array(vec![
        ParserValue::Array(vec![ParserValue::SimpleString("a".to_string())]),
        ParserValue::BulkString("12".to_string()),
        ParserValue::SimpleString("PONG".to_string()),
    ]);
    assert!(values_equal(&v, &round_trip(&v)));
}

#[test]
fn round_trip_of_numeric_bulk_payload() {
    // the scanner re-reads "12" as a number token; the parser reassembles it
    let v = ParserValue::BulkString("12".to_string());
    assert_eq!(wire_of_value(&v), "$2\r\n12\r\n");
    assert!(values_equal(&v, &round_trip(&v)));
}

#[test]
fn round_trip_of_empty_bulk_string() {
    let v = ParserValue::BulkString(String::new());
    assert_eq!(wire_of_value(&v), "$0\r\n\r\n");
    assert!(values_equal(&v, &round_trip(&v)));
}

#[test]
fn empty_array_parses_and_reserializes() {
    let tokens = parse_resp_tokens_from_str("*0\r\n").unwrap();
    let v = parse_tokens(&tokens).unwrap();
    assert!(v.is_array());
    assert_eq!(v.to_vec().unwrap().len(), 0);
    assert_eq!(wire_of_value(&v), "*0\r\n");
}

#[test]
fn bulk_length_mismatch_fails() {
    let tokens = vec![
        Token::Dollar,
        Token::Number(3),
        Token::Separator,
        Token::String("ab".to_string()),
        Token::Separator,
    ];
    let mut pos: usize = 0;
    assert_eq!(
        tokens_to_bulk_string(&tokens, &mut pos).err(),
        Some(ParseError::LengthMismatch)
    );
    assert!(parse_tokens(&tokens).is_none());
}

#[test]
fn bulk_negative_length_fails() {
    let tokens = vec![
        Token::Dollar,
        Token::Number(-1),
        Token::Separator,
        Token::String("x".to_string()),
        Token::Separator,
    ];
    let mut pos: usize = 0;
    assert_eq!(
        tokens_to_bulk_string(&tokens, &mut pos).err(),
        Some(ParseError::BadLength)
    );
}

#[test]
fn parse_error_variants_on_malformed_token_runs() {
    let mut pos: usize = 0;
    assert_eq!(
        tokens_to_simple_string(&vec![Token::Dollar], &mut pos).err(),
        Some(ParseError::ExpectedPlus)
    );
    pos = 0;
    assert_eq!(
        tokens_to_simple_string(&vec![Token::Plus, Token::String("a".to_string())], &mut pos)
            .err(),
        Some(ParseError::MissingToken)
    );
    pos = 0;
    assert_eq!(
        tokens_to_simple_string(
            &vec![Token::Plus, Token::String("a".to_string()), Token::Plus],
            &mut pos
        ).err(),
        Some(ParseError::ExpectedSeparator)
    );
    pos = 0;
    assert_eq!(
        tokens_to_simple_string(
            &vec![Token::Plus, Token::Separator, Token::Separator],
            &mut pos
        ).err(),
        Some(ParseError::ExpectedText)
    );
    pos = 0;
    assert_eq!(
        tokens_to_bulk_string(&vec![Token::Plus], &mut pos).err(),
        Some(ParseError::ExpectedDollar)
    );
    pos = 0;
    assert_eq!(
        tokens_to_bulk_string(&vec![Token::Dollar, Token::Plus], &mut pos).err(),
        Some(ParseError::ExpectedNumber)
    );
    pos = 0;
    assert_eq!(
        tokens_to_array(&vec![Token::Dollar], &mut pos).err(),
        Some(ParseError::ExpectedAsterisk)
    );
    pos = 0;
    assert_eq!(
        tokens_to_array(&vec![Token::Asterisk, Token::Number(-2)], &mut pos).err(),
        Some(ParseError::NegativeCount)
    );
    pos = 0;
    assert_eq!(
        tokens_to_array(
            &vec![
                Token::Asterisk,
                Token::Number(1),
                Token::Separator,
                Token::Comma,
                Token::Separator,
            ],
            &mut pos
        ).err(),
        Some(ParseError::UnexpectedToken)
    );
}

#[test]
fn scanner_splits_sigils_and_numbers() {
    let tokens = parse_resp_tokens_from_str("$3\r\nab*\r\n").unwrap();
    assert_eq!(tokens.len(), 5);
    assert!(tokens[0].is_dollar());
    assert!(tokens[1].is_number());
    assert_eq!(tokens[1].to_i64(), Some(3));
    assert!(tokens[2].is_separator());
    // "ab" opens a raw run that absorbs everything up to the next \r\n,
    // sigils included
    assert_eq!(tokens[3].to_string().unwrap(), "ab*");
    assert!(tokens[4].is_separator());
    // the payload reassembles to the declared three characters
    let v = parse_tokens(&tokens).unwrap();
    assert_eq!(v.to_string().unwrap(), "ab*");
}

#[test]
fn scanner_rejects_oversized_integer_literal() {
    // an integer literal beyond the 64-bit range is an unspecified edge of
    // the protocol; this scanner reports it rather than wrapping
    assert_eq!(
        parse_resp_tokens_from_str("99999999999999999999").err(),
        Some(LexError::NumberTooLarge)
    );
}

#[test]
fn scanner_handles_lone_carriage_return() {
    let tokens = parse_resp_tokens_from_str("+a\rb\r\n").unwrap();
    assert_eq!(tokens.len(), 3);
    assert_eq!(tokens[1].to_string().unwrap(), "a\rb");
}

#[test]
fn serialize_refuses_empty_token_sequence() {
    assert_eq!(
        serialize_tokens(&Vec::<Token>::new()).err(),
        Some(SerializeError::EmptyTokens)
    );
}

#[test]
fn token_conversions() {
    assert_eq!(Token::Number(-7).to_string().unwrap(), "-7");
    assert_eq!(Token::Number(42).to_i64(), Some(42));
    assert_eq!(Token::Number(42).to_usize(), Some(42usize));
    assert_eq!(Token::Number(-1).to_usize(), None);
    assert_eq!(Token::Plus.to_string(), None);
    assert!(Token::Hyphen.is_hyphen());
    assert!(Token::Asterisk.is_asterisk());
}

#[test]
fn deep_clone_preserves_structure() {
    let v = ParserValue::Array(vec![
        ParserValue::BulkString("x".to_string()),
        ParserValue::NullBulkString,
        ParserValue::Array(vec![]),
    ]);
    assert!(values_equal(&v, &v.deep_clone()));
}

#[test]
fn null_bulk_string_serializes() {
    assert_eq!(wire_of_value(&ParserValue::NullBulkString), "$-1\r\n");
}

#[test]
fn bulk_lengths_count_bytes_not_characters() {
    // "\u{e9}" is one character but two bytes on the wire
    let v = ParserValue::BulkString("\u{e9}".to_string());
    assert_eq!(wire_of_value(&v), "$2\r\n\u{e9}\r\n");
    assert!(values_equal(&v, &round_trip(&v)));

    // the conforming frame, declared length 2, is accepted
    let tokens = parse_resp_tokens_from_str("$2\r\n\u{e9}\r\n").unwrap();
    let parsed = parse_tokens(&tokens).unwrap();
    assert_eq!(parsed.to_string().unwrap(), "\u{e9}");

    // a declared length of 1 — the character count — is a mismatch
    let tokens = parse_resp_tokens_from_str("$1\r\n\u{e9}\r\n").unwrap();
    assert!(parse_tokens(&tokens).is_none());
    let mut pos: usize = 0;
    assert_eq!(
        tokens_to_bulk_string(&tokens, &mut pos).err(),
        Some(ParseError::LengthMismatch)
    );
}

#[test]
fn multibyte_payload_round_trips_inside_an_array() {
    let v = ParserValue::Array(vec![
        ParserValue::BulkString("GET".to_string()),
        ParserValue::BulkString("caf\u{e9}".to_string()),
    ]);
    assert_eq!(wire_of_value(&v), "*2\r\n$3\r\nGET\r\n$5\r\ncaf\u{e9}\r\n");
    assert!(values_equal(&v, &round_trip(&v)));
}
