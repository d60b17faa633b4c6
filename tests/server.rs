use redis_lite::arguments::parse_cli_arguments;
use redis_lite::config::Config;
use redis_lite::dispatch::{respond, respond_at};
use redis_lite::loader::snapshot_path;
use redis_lite::parser::{parse_command, serialize_response};
use redis_lite::storage::Storage;

fn reply(storage: &mut Storage, config: &Config, request: &[u8]) -> String {
    serialize_response(respond(storage, config, parse_command(request)))
}

#[test]
fn ping_and_echo_replies() {
    let mut s = Storage::new();
    let c = Config::new();
    assert_eq!(reply(&mut s, &c, b"*1\r\n$4\r\nPING\r\n"), "+PONG\r\n");
    assert_eq!(reply(&mut s, &c, b"*2\r\n$4\r\nPING\r\n$2\r\nhi\r\n"), "+hi\r\n");
    assert_eq!(reply(&mut s, &c, b"*2\r\n$4\r\nECHO\r\n$3\r\nhey\r\n"), "+hey\r\n");
}

#[test]
fn set_and_get_replies() {
    let mut s = Storage::new();
    let c = Config::new();
    assert_eq!(reply(&mut s, &c, b"*3\r\n$3\r\nSET\r\n$3\r\nfoo\r\n$3\r\nbar\r\n"), "+OK\r\n");
    assert_eq!(reply(&mut s, &c, b"*2\r\n$3\r\nGET\r\n$3\r\nfoo\r\n"), "$3\r\nbar\r\n");
    assert_eq!(reply(&mut s, &c, b"*2\r\n$3\r\nGET\r\n$3\r\nbaz\r\n"), "$-1\r\n");
}

#[test]
fn set_with_expiry_then_get_at_later_time() {
    let mut s = Storage::new();
    let c = Config::new();
    let set = parse_command(b"*5\r\n$3\r\nSET\r\n$1\r\nk\r\n$1\r\nv\r\n$2\r\nPX\r\n$1\r\n5\r\n");
    assert_eq!(serialize_response(respond_at(&mut s, &c, set, 0)), "+OK\r\n");
    let get = b"*2\r\n$3\r\nGET\r\n$1\r\nk\r\n";
    assert_eq!(serialize_response(respond_at(&mut s, &c, parse_command(get), 4_999_999)), "$1\r\nv\r\n");
    assert_eq!(serialize_response(respond_at(&mut s, &c, parse_command(get), 5_000_000)), "$-1\r\n");
}

#[test]
fn unknown_command_gets_error_reply() {
    let mut s = Storage::new();
    let c = Config::new();
    let r = reply(&mut s, &c, b"*1\r\n$6\r\nFOOBAR\r\n");
    assert!(r.starts_with('-'));
    assert_eq!(r, "-ERR Unknown command: FOOBAR\r\n");
}

#[test]
fn malformed_request_gets_error_reply() {
    let mut s = Storage::new();
    let c = Config::new();
    let r = reply(&mut s, &c, b"hello");
    assert_eq!(r, "-ERR Failed to parse command: Invalid RESP format\r\n");
}

#[test]
fn config_get_reply() {
    let mut s = Storage::new();
    let mut c = Config::new();
    c.set("dir".to_string(), "/tmp/redis-files".to_string());
    let r = reply(&mut s, &c, b"*3\r\n$6\r\nCONFIG\r\n$3\r\nGET\r\n$3\r\ndir\r\n");
    assert_eq!(r, "*2\r\n$3\r\ndir\r\n$16\r\n/tmp/redis-files\r\n");
    let r = reply(&mut s, &c, b"*3\r\n$6\r\nCONFIG\r\n$3\r\nGET\r\n$4\r\nport\r\n");
    assert_eq!(r, "*2\r\n$4\r\nport\r\n$0\r\n\r\n");
}

#[test]
fn info_reports_role() {
    let mut s = Storage::new();
    let mut c = Config::new();
    let info = Ok(redis_lite::parser::Command::INFO(None));
    assert_eq!(serialize_response(respond(&mut s, &c, info)), "$11\r\nrole:master\r\n");
    c.set("replicaof".to_string(), "localhost 6379".to_string());
    let info = Ok(redis_lite::parser::Command::INFO(Some("replication".to_string())));
    assert_eq!(serialize_response(respond(&mut s, &c, info)), "$10\r\nrole:slave\r\n");
}

#[test]
fn keys_reply() {
    let mut s = Storage::new();
    let c = Config::new();
    s.set("alpha".to_string(), "1".to_string(), Vec::new());
    s.set("beta".to_string(), "2".to_string(), Vec::new());
    let keys = Ok(redis_lite::parser::Command::KEYS("a*".to_string()));
    assert_eq!(serialize_response(respond(&mut s, &c, keys)), "*1\r\n$5\r\nalpha\r\n");
}

#[test]
fn config_store_operations() {
    let mut c = Config::new();
    assert!(!c.has("dir"));
    c.set("dir".to_string(), "/a".to_string());
    c.set("dir".to_string(), "/b".to_string());
    c.set("dbfilename".to_string(), "dump.rdb".to_string());
    assert!(c.has("dir"));
    assert_eq!(c.get("dir"), Some("/b".to_string()));
    assert_eq!(c.get("port"), None);
    let mut all = c.get_all();
    all.sort();
    assert_eq!(all, vec![("dbfilename".to_string(), "dump.rdb".to_string()), ("dir".to_string(), "/b".to_string())]);
    assert_eq!(snapshot_path(&c), Some("/b/dump.rdb".to_string()));
}

#[test]
fn snapshot_path_needs_both_settings() {
    let mut c = Config::new();
    c.set("dir".to_string(), "/a".to_string());
    assert_eq!(snapshot_path(&c), None);
}

#[test]
fn cli_arguments_in_pairs() {
    let args = vec!["--DIR".to_string(), "/Tmp".to_string(), "".to_string(), "--port".to_string(), "7000".to_string(), "--x".to_string()];
    assert_eq!(
        parse_cli_arguments(args),
        vec![("--dir".to_string(), "/Tmp".to_string()), ("--port".to_string(), "7000".to_string())]
    );
    assert!(parse_cli_arguments(Vec::new()).is_empty());
}
