//! Tests for the text layer: command parsing and decimal identifiers.
use room_broker::command::parse_command;
use room_broker::command::Command;
use room_broker::numtext::parse_u128;
use room_broker::numtext::parse_u64;
use room_broker::numtext::u128_to_string;

#[test]
fn commands_are_parsed_by_their_markers() {
    assert!(matches!(parse_command("hello"), Command::Broadcast));
    assert!(matches!(parse_command(""), Command::Broadcast));
    assert!(matches!(parse_command("w 1"), Command::Broadcast));
    assert!(matches!(parse_command("/"), Command::Broadcast));
    assert!(matches!(parse_command("/x 1"), Command::Broadcast));
    assert!(matches!(parse_command("/k"), Command::Reserved));
    assert!(matches!(parse_command("/kick 3"), Command::Reserved));
    match parse_command("/w 12 hello") {
        Command::Whisper { target } => assert_eq!(target, 12),
        _ => panic!("expected a whisper"),
    }
    match parse_command("/w 7") {
        Command::Whisper { target } => assert_eq!(target, 7),
        _ => panic!("expected a whisper"),
    }
}

#[test]
fn whisper_without_a_target_is_malformed() {
    assert!(matches!(parse_command("/w"), Command::MalformedWhisper));
    assert!(matches!(parse_command("/w "), Command::MalformedWhisper));
    assert!(matches!(parse_command("/w  7"), Command::MalformedWhisper));
    assert!(matches!(parse_command("/w seven"), Command::MalformedWhisper));
    assert!(matches!(parse_command("/w -7"), Command::MalformedWhisper));
}

#[test]
fn identifiers_format_as_plain_decimal() {
    assert_eq!(u128_to_string(0), "0");
    assert_eq!(u128_to_string(7), "7");
    assert_eq!(u128_to_string(120), "120");
    assert_eq!(u128_to_string(u128::MAX), "340282366920938463463374607431768211455");
}

#[test]
fn identifier_parsing_round_trips_formatting() {
    for n in [0u128, 1, 9, 10, 99, 1000, 123456789, u128::MAX] {
        assert_eq!(parse_u128(&u128_to_string(n)), Some(n));
    }
}

#[test]
fn identifier_parsing_rejects_non_decimal_text() {
    assert_eq!(parse_u128(""), None);
    assert_eq!(parse_u128("12a"), None);
    assert_eq!(parse_u128("+7"), None);
    assert_eq!(parse_u128(" 7"), None);
    assert_eq!(parse_u128("007"), Some(7));
    assert_eq!(parse_u128("340282366920938463463374607431768211456"), None);
}

#[test]
fn config_numbers_parse_within_their_range() {
    assert_eq!(parse_u64("18446744073709551615"), Some(u64::MAX));
    assert_eq!(parse_u64("18446744073709551616"), None);
    assert_eq!(parse_u64("0"), Some(0));
    assert_eq!(parse_u64("x"), None);
}
