use kv_database::prompt::{parse_prompt, PromptCommand};
use kv_database::protocol::{
    command_and_args, parse_capacity, parse_expire, parse_set_args, process_command,
    request_for, serve_line, Request,
};
use kv_database::text::{decimal, parse_u64, trim};
use kv_database::KvStore;

fn store() -> KvStore {
    KvStore::new("server_test.bin").unwrap()
}

#[test]
fn test_server_set_get() {
    let mut db = store();
    assert_eq!(process_command("SET hello world", &mut db), "OK");
    assert_eq!(process_command("GET hello", &mut db), "\"world\"");
}

#[test]
fn test_server_get_nonexistent() {
    let mut db = store();
    assert_eq!(process_command("GET nope", &mut db), "(nil)");
}

#[test]
fn test_server_delete() {
    let mut db = store();
    process_command("SET tmp data", &mut db);
    assert_eq!(process_command("DEL tmp", &mut db), "OK");
    assert_eq!(process_command("GET tmp", &mut db), "(nil)");
}

#[test]
fn test_server_list() {
    let mut db = store();
    process_command("SET k1 v1", &mut db);
    process_command("SET k2 v2", &mut db);
    let resp = process_command("LIST", &mut db);
    assert!(resp.contains("k1: \"v1\""));
    assert!(resp.contains("k2: \"v2\""));
}

#[test]
fn test_server_unknown_command() {
    let mut db = store();
    let resp = process_command("BOGUS", &mut db);
    assert!(resp.starts_with("ERR unknown command"));
    assert_eq!(resp, "ERR unknown command: BOGUS");
}

#[test]
fn test_server_quit() {
    let mut db = store();
    assert_eq!(process_command("QUIT", &mut db), "BYE");
    assert_eq!(process_command("exit", &mut db), "BYE");
}

#[test]
fn test_server_info() {
    let mut db = store();
    process_command("SET info_key info_val", &mut db);
    let resp = process_command("INFO", &mut db);
    assert!(resp.contains("keys: 1"));
    assert!(resp.contains("capacity: unlimited"));
    assert_eq!(
        resp,
        "keys: 1\ntotal_entries: 1\ncapacity: unlimited\nfile: server_test.bin"
    );
}

#[test]
fn test_server_concurrent_clients() {
    let mut db = store();
    for i in 0..5 {
        let cmd = format!("SET concurrent_key{} value{}", i, i);
        assert_eq!(process_command(&cmd, &mut db), "OK");
    }
    let resp = process_command("KEYS", &mut db);
    assert!(resp.contains("concurrent_key0"));
    assert!(resp.contains("concurrent_key4"));
    assert!(resp.ends_with("\nOK"));
}

#[test]
fn protocol_commands_are_case_insensitive() {
    let mut db = store();
    assert_eq!(process_command("set a one", &mut db), "OK");
    assert_eq!(process_command("get a", &mut db), "\"one\"");
}

#[test]
fn protocol_set_with_ttl_and_spaces() {
    let mut db = store();
    assert_eq!(process_command("SET greeting hello big world 60", &mut db), "OK");
    assert_eq!(process_command("GET greeting", &mut db), "\"hello big world\"");
    assert_eq!(process_command("SET n 42", &mut db), "OK");
    assert_eq!(process_command("GET n", &mut db), "\"42\"");
    assert_eq!(process_command("SET counter 5", &mut db), "OK");
    assert_eq!(process_command("GET counter", &mut db), "\"5\"");
    assert_eq!(process_command("SET v not-a-number", &mut db), "OK");
    assert_eq!(process_command("GET v", &mut db), "\"not-a-number\"");
}

#[test]
fn protocol_usage_errors() {
    let mut db = store();
    assert_eq!(process_command("SET lonely", &mut db), "ERR usage: SET key value [ttl]");
    assert_eq!(process_command("GET", &mut db), "ERR usage: GET key");
    assert_eq!(process_command("DEL", &mut db), "ERR usage: DEL key");
    assert_eq!(process_command("EXPIRE k", &mut db), "ERR usage: EXPIRE key ttl");
    assert_eq!(process_command("EXPIRE k soon", &mut db), "ERR ttl must be a number");
}

#[test]
fn protocol_errors_of_the_store() {
    let mut db = store();
    assert_eq!(process_command("DEL ghost", &mut db), "ERR key not found: ghost");
    assert_eq!(process_command("EXPIRE ghost 5", &mut db), "ERR key not found: ghost");
    process_command("SET k v", &mut db);
    assert_eq!(process_command("EXPIRE k 5", &mut db), "OK");
}

#[test]
fn protocol_empty_listings() {
    let mut db = store();
    assert_eq!(process_command("LIST", &mut db), "(empty)");
    assert_eq!(process_command("KEYS", &mut db), "(empty)");
    assert_eq!(process_command("CLEANUP", &mut db), "OK (0 entries removed)");
}

#[test]
fn protocol_list_format() {
    let mut db = store();
    process_command("SET only one", &mut db);
    assert_eq!(process_command("LIST", &mut db), "only: \"one\"\nOK");
    assert_eq!(process_command("KEYS", &mut db), "only\nOK");
}

#[test]
fn protocol_info_with_capacity() {
    let mut db = store();
    db.set_capacity(Some(12)).unwrap();
    assert_eq!(
        process_command("INFO", &mut db),
        "keys: 0\ntotal_entries: 0\ncapacity: 12\nfile: server_test.bin"
    );
}

#[test]
fn prompt_set_args() {
    assert_eq!(parse_set_args("key value 3600"), ("key", "value", Some(3600)));
    assert_eq!(parse_set_args("key some value --ttl 10"), ("key", "some value", Some(10)));
    assert_eq!(parse_set_args("key v -t 7"), ("key", "v", Some(7)));
    assert_eq!(parse_set_args("  key  "), ("key", "", None));
    assert_eq!(parse_set_args("key   hello world  "), ("key", "hello world", None));
    assert_eq!(parse_set_args("key v --ttl x"), ("key", "v --ttl x", None));
    assert_eq!(parse_set_args(""), ("", "", None));
}

#[test]
fn text_helpers() {
    assert_eq!(trim("  \t a b \n"), "a b");
    assert_eq!(trim("\u{3000}x\u{a0}"), "x");
    assert_eq!(parse_u64("+15"), Some(15));
    assert_eq!(parse_u64("18446744073709551615"), Some(u64::MAX));
    assert_eq!(parse_u64("18446744073709551616"), None);
    assert_eq!(parse_u64("-1"), None);
    assert_eq!(parse_u64("+"), None);
    assert_eq!(parse_u64(""), None);
    assert_eq!(parse_u64("1 2"), None);
    assert_eq!(decimal(0), "0");
    assert_eq!(decimal(1234567890), "1234567890");
    assert_eq!(decimal(u64::MAX), u64::MAX.to_string());
}

#[test]
fn protocol_unknown_command_is_shown_in_upper_case() {
    let mut db = store();
    assert_eq!(process_command("bogus stuff", &mut db), "ERR unknown command: BOGUS");
}

#[test]
fn prompt_capacity_and_command_words() {
    assert_eq!(parse_capacity(" 3 "), Some(Some(3)));
    assert_eq!(parse_capacity("None"), Some(None));
    assert_eq!(parse_capacity("NONE"), Some(None));
    assert_eq!(parse_capacity("0"), Some(None));
    assert_eq!(parse_capacity("lots"), None);
    assert_eq!(parse_capacity("-2"), None);
    let (cmd, args) = command_and_args("capacity   12 ");
    assert_eq!(cmd, "CAPACITY");
    assert_eq!(args, "12");
    let (cmd, args) = command_and_args("keys");
    assert_eq!(cmd, "KEYS");
    assert_eq!(args, "");
    match parse_expire("k 30") {
        Request::Expire { key, ttl } => {
            assert_eq!(key, "k");
            assert_eq!(ttl, 30);
        }
        _ => panic!("expected an expire request"),
    }
    match parse_expire("k") {
        Request::Invalid { reply } => assert_eq!(reply, "ERR usage: EXPIRE key ttl"),
        _ => panic!("expected a usage error"),
    }
}

#[test]
fn prompt_lines_become_commands() {
    assert!(matches!(parse_prompt("exit"), PromptCommand::Quit));
    assert!(matches!(parse_prompt("  begin  "), PromptCommand::Begin));
    match parse_prompt("set name Alice --ttl 60") {
        PromptCommand::Put { key, value, ttl } => {
            assert_eq!(key, "name");
            assert_eq!(value, "Alice");
            assert_eq!(ttl, Some(60));
        }
        _ => panic!("expected a write"),
    }
    match parse_prompt("SET k") {
        PromptCommand::Put { key, value, ttl } => {
            assert_eq!(key, "k");
            assert_eq!(value, "");
            assert_eq!(ttl, None);
        }
        _ => panic!("expected a write"),
    }
    match parse_prompt("GET") {
        PromptCommand::Invalid { reply } => assert_eq!(reply, "ERR usage: GET key"),
        _ => panic!("expected a usage error"),
    }
    match parse_prompt("del  user:1 ") {
        PromptCommand::Del { key } => assert_eq!(key, "user:1"),
        _ => panic!("expected a delete"),
    }
    match parse_prompt("EXPIRE k soon") {
        PromptCommand::Invalid { reply } => assert_eq!(reply, "ERR ttl must be a number"),
        _ => panic!("expected a ttl error"),
    }
    assert!(matches!(parse_prompt("capacity"), PromptCommand::ShowCapacity));
    assert!(matches!(
        parse_prompt("CAPACITY None"),
        PromptCommand::ChangeCapacity { cap: Some(None) }
    ));
    assert!(matches!(
        parse_prompt("CAPACITY 5"),
        PromptCommand::ChangeCapacity { cap: Some(Some(5)) }
    ));
    assert!(matches!(
        parse_prompt("CAPACITY lots"),
        PromptCommand::ChangeCapacity { cap: None }
    ));
    match parse_prompt("frob x") {
        PromptCommand::Unknown { command } => assert_eq!(command, "FROB"),
        _ => panic!("expected an unknown command"),
    }
}

#[test]
fn protocol_request_for_command_word() {
    assert!(matches!(request_for("LIST", ""), Request::List));
    match request_for("GET", "  k  ") {
        Request::Get { key } => assert_eq!(key, "k"),
        _ => panic!("expected a read"),
    }
    match request_for("get", "k") {
        Request::Unknown { command } => assert_eq!(command, "get"),
        _ => panic!("expected an unknown command"),
    }
}

#[test]
fn protocol_session_ends_with_quit() {
    let mut db = store();
    assert_eq!(serve_line("SET a 1", &mut db), ("OK".to_string(), false));
    assert_eq!(serve_line("GET a", &mut db), ("\"1\"".to_string(), false));
    assert_eq!(serve_line("exit", &mut db), ("BYE".to_string(), true));
}
