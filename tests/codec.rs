use redis_lite::parser::{
    group_redis_optional_arguments, parse_command, serialize_response, Command, RedisValue,
};

fn frame(items: &[&str]) -> Vec<u8> {
    let values: Vec<String> = items.iter().map(|s| s.to_string()).collect();
    serialize_response(RedisValue::Array(values)).into_bytes()
}

#[test]
fn serialize_simple_string() {
    assert_eq!(serialize_response(RedisValue::SimpleString("OK".to_string())), "+OK\r\n");
}

#[test]
fn serialize_bulk_string_counts_bytes() {
    assert_eq!(serialize_response(RedisValue::BulkString(Some("hello".to_string()))), "$5\r\nhello\r\n");
    assert_eq!(serialize_response(RedisValue::BulkString(Some("héllo".to_string()))), "$6\r\nhéllo\r\n");
    assert_eq!(serialize_response(RedisValue::BulkString(Some(String::new()))), "$0\r\n\r\n");
}

#[test]
fn serialize_null_bulk_string() {
    assert_eq!(serialize_response(RedisValue::BulkString(None)), "$-1\r\n");
}

#[test]
fn serialize_error() {
    assert_eq!(serialize_response(RedisValue::Error("ERR bad".to_string())), "-ERR bad\r\n");
}

#[test]
fn serialize_array() {
    let items = vec!["dir".to_string(), "/tmp/data".to_string()];
    assert_eq!(serialize_response(RedisValue::Array(items)), "*2\r\n$3\r\ndir\r\n$9\r\n/tmp/data\r\n");
    assert_eq!(serialize_response(RedisValue::Array(Vec::new())), "*0\r\n");
    let many: Vec<String> = (0..12).map(|i| format!("k{}", i)).collect();
    assert!(serialize_response(RedisValue::Array(many)).starts_with("*12\r\n$2\r\nk0\r\n"));
}

#[test]
fn replies_end_with_crlf() {
    let replies = vec![
        RedisValue::SimpleString("PONG".to_string()),
        RedisValue::BulkString(Some("v".to_string())),
        RedisValue::BulkString(None),
        RedisValue::Error("ERR x".to_string()),
        RedisValue::Array(vec!["a".to_string()]),
        RedisValue::Array(Vec::new()),
    ];
    for reply in replies {
        assert!(serialize_response(reply).ends_with("\r\n"));
    }
}

#[test]
fn parse_ping_without_and_with_message() {
    assert!(matches!(parse_command(b"*1\r\n$4\r\nPING\r\n"), Ok(Command::PING(None))));
    match parse_command(b"*2\r\n$4\r\nping\r\n$5\r\nhello\r\n") {
        Ok(Command::PING(Some(m))) => assert_eq!(m, "hello"),
        _ => panic!("expected PING with a message"),
    }
}

#[test]
fn parse_echo_lower_case_name() {
    match parse_command(b"*2\r\n$4\r\necho\r\n$3\r\nhey\r\n") {
        Ok(Command::ECHO(m)) => assert_eq!(m, "hey"),
        _ => panic!("expected ECHO"),
    }
}

#[test]
fn parse_echo_without_message_fails() {
    assert!(parse_command(b"*1\r\n$4\r\nECHO\r\n").is_err());
}

#[test]
fn parse_get() {
    match parse_command(b"*2\r\n$3\r\nGET\r\n$3\r\nfoo\r\n") {
        Ok(Command::GET(k)) => assert_eq!(k, "foo"),
        _ => panic!("expected GET"),
    }
}

#[test]
fn parse_set_without_options() {
    match parse_command(b"*3\r\n$3\r\nSET\r\n$3\r\nfoo\r\n$3\r\nbar\r\n") {
        Ok(Command::SET(k, v, None)) => {
            assert_eq!(k, "foo");
            assert_eq!(v, "bar");
        },
        _ => panic!("expected SET without options"),
    }
}

#[test]
fn parse_set_with_options() {
    match parse_command(b"*5\r\n$3\r\nset\r\n$3\r\nfoo\r\n$3\r\nbar\r\n$2\r\npx\r\n$3\r\n100\r\n") {
        Ok(Command::SET(k, v, Some(opts))) => {
            assert_eq!(k, "foo");
            assert_eq!(v, "bar");
            assert_eq!(opts, vec![("PX".to_string(), "100".to_string())]);
        },
        _ => panic!("expected SET with options"),
    }
}

#[test]
fn parse_set_drops_unpaired_option() {
    match parse_command(b"*4\r\n$3\r\nSET\r\n$1\r\nk\r\n$1\r\nv\r\n$2\r\nNX\r\n") {
        Ok(Command::SET(_, _, Some(opts))) => assert!(opts.is_empty()),
        _ => panic!("expected SET with an empty option list"),
    }
}

#[test]
fn parse_set_without_value_fails() {
    assert!(parse_command(b"*2\r\n$3\r\nSET\r\n$3\r\nfoo\r\n").is_err());
}

#[test]
fn parse_config_get() {
    match parse_command(b"*3\r\n$6\r\nCONFIG\r\n$3\r\nget\r\n$3\r\ndir\r\n") {
        Ok(Command::CONFIGGET(p)) => assert_eq!(p, "dir"),
        _ => panic!("expected CONFIG GET"),
    }
}

#[test]
fn parse_config_without_subcommand_fails() {
    assert!(parse_command(b"*1\r\n$6\r\nCONFIG").is_err());
}

#[test]
fn parse_config_other_subcommand_is_unknown() {
    match parse_command(b"*2\r\n$6\r\nconfig\r\n$5\r\nreset\r\n") {
        Ok(Command::UNKNOWN(n)) => assert_eq!(n, "CONFIG RESET"),
        _ => panic!("expected UNKNOWN"),
    }
}

#[test]
fn parse_unknown_command() {
    match parse_command(b"*1\r\n$6\r\nFOOBAR\r\n") {
        Ok(Command::UNKNOWN(n)) => assert_eq!(n, "FOOBAR"),
        _ => panic!("expected UNKNOWN"),
    }
}

#[test]
fn parse_unknown_command_upper_cases_unicode() {
    match parse_command("*1\r\n$6\r\nstraße\r\n".as_bytes()) {
        Ok(Command::UNKNOWN(n)) => assert_eq!(n, "STRASSE"),
        _ => panic!("expected UNKNOWN"),
    }
}

#[test]
fn parse_rejects_missing_star() {
    assert!(parse_command(b"+1\r\n$4\r\nPING\r\n").is_err());
}

#[test]
fn parse_rejects_short_frame() {
    assert!(parse_command(b"*1\r\n$4\r\n").is_err());
    assert!(parse_command(b"").is_err());
}

#[test]
fn parse_rejects_invalid_utf8() {
    assert!(parse_command(&[b'*', b'1', b'\r', b'\n', 0xff, 0xfe, b'\r', b'\n', b'x', b'\r', b'\n']).is_err());
}

#[test]
fn request_round_trip() {
    match parse_command(&frame(&["ECHO", "hi there"])) {
        Ok(Command::ECHO(m)) => assert_eq!(m, "hi there"),
        _ => panic!("expected ECHO"),
    }
    match parse_command(&frame(&["GET", "k"])) {
        Ok(Command::GET(k)) => assert_eq!(k, "k"),
        _ => panic!("expected GET"),
    }
    match parse_command(&frame(&["SET", "k", "v"])) {
        Ok(Command::SET(k, v, None)) => {
            assert_eq!(k, "k");
            assert_eq!(v, "v");
        },
        _ => panic!("expected SET"),
    }
    assert!(matches!(parse_command(&frame(&["PING"])), Ok(Command::PING(None))));
}

#[test]
fn group_options_in_pairs() {
    let opts = vec!["ex".to_string(), "".to_string(), "10".to_string(), "px".to_string()];
    assert_eq!(group_redis_optional_arguments(opts), vec![("EX".to_string(), "10".to_string())]);
    assert!(group_redis_optional_arguments(Vec::new()).is_empty());
}
