use kv_database::prompt::{
    answer_in_transaction, answer_prompt, parse_prompt, prompt_command_for, PromptCommand,
    PromptStep, TxnStep,
};
use kv_database::KvStore;

fn db() -> KvStore {
    KvStore::new("prompt_test.bin").unwrap()
}

fn ask(store: &mut KvStore, line: &str) -> (Vec<String>, PromptStep) {
    answer_prompt(store, parse_prompt(line))
}

#[test]
fn prompt_writes_and_reads() {
    let mut store = db();
    assert_eq!(ask(&mut store, "SET name Alice"), (vec!["OK".to_string()], PromptStep::Stay));
    assert_eq!(ask(&mut store, "get name").0, vec!["\"Alice\""]);
    assert_eq!(ask(&mut store, "GET other").0, vec!["(nil)"]);
    assert_eq!(ask(&mut store, "DEL name").0, vec!["OK"]);
    assert_eq!(ask(&mut store, "DEL name").0, vec!["ERR key not found: name"]);
    assert_eq!(ask(&mut store, "EXPIRE name 5").0, vec!["ERR key not found: name"]);
    assert_eq!(ask(&mut store, "EXPIRE name").0, vec!["ERR usage: EXPIRE key ttl"]);
    assert_eq!(ask(&mut store, "SET").0, vec!["ERR usage: SET key value [ttl]"]);
}

#[test]
fn prompt_listings() {
    let mut store = db();
    assert_eq!(ask(&mut store, "LIST").0, vec!["(empty)"]);
    assert_eq!(ask(&mut store, "KEYS").0, vec!["(empty)"]);
    ask(&mut store, "SET a 1");
    assert_eq!(ask(&mut store, "LIST").0, vec!["  a: \"1\""]);
    assert_eq!(ask(&mut store, "KEYS").0, vec!["  a"]);
    ask(&mut store, "SET b two words");
    let mut listing = ask(&mut store, "LIST").0;
    listing.sort();
    assert_eq!(listing, vec!["  a: \"1\"", "  b: \"two words\""]);
}

#[test]
fn prompt_info_and_capacity() {
    let mut store = db();
    ask(&mut store, "SET a 1");
    ask(&mut store, "SET b 2");
    assert_eq!(
        ask(&mut store, "INFO").0,
        vec!["File:       prompt_test.bin", "Keys:       2", "Entries:    2", "Capacity:   unlimited"]
    );
    assert_eq!(ask(&mut store, "CAPACITY").0, vec!["Capacity: unlimited"]);
    assert_eq!(ask(&mut store, "CAPACITY 1").0, vec!["Capacity set to 1 (1 evicted)"]);
    assert_eq!(ask(&mut store, "GET a").0, vec!["(nil)"]);
    assert_eq!(ask(&mut store, "GET b").0, vec!["\"2\""]);
    assert_eq!(ask(&mut store, "CAPACITY").0, vec!["Capacity: 1"]);
    assert_eq!(ask(&mut store, "CAPACITY none").0, vec!["Capacity removed (unlimited)"]);
    assert_eq!(ask(&mut store, "CAPACITY x").0, vec!["ERR: capacity must be a number, or 'none'"]);
    assert_eq!(ask(&mut store, "CLEANUP").0, vec!["Cleaned 0 expired entries"]);
}

#[test]
fn prompt_steps() {
    let mut store = db();
    assert_eq!(ask(&mut store, "HELP"), (vec![], PromptStep::Help));
    assert_eq!(ask(&mut store, "SAVE"), (vec![], PromptStep::Save));
    assert_eq!(ask(&mut store, "quit"), (vec![], PromptStep::Quit));
    assert_eq!(
        ask(&mut store, "BEGIN"),
        (vec!["OK (transaction started)".to_string()], PromptStep::Begin)
    );
    assert_eq!(ask(&mut store, "COMMIT").0, vec!["ERR: no active transaction"]);
    assert_eq!(ask(&mut store, "ROLLBACK").0, vec!["ERR: no active transaction"]);
    assert_eq!(
        ask(&mut store, "frob").0,
        vec!["ERR: unknown command 'FROB'. Type HELP for commands"]
    );
}

#[test]
fn prompt_inside_a_transaction() {
    let mut store = db();
    ask(&mut store, "SET kept 1");
    ask(&mut store, "SET gone 2");
    let path = store.path().to_string();
    {
        let mut txn = store.begin();
        let mut say = |line: &str| answer_in_transaction(&mut txn, &path, parse_prompt(line));
        assert_eq!(say("SET fresh 3"), (vec!["OK".to_string()], TxnStep::Stay));
        assert_eq!(say("DEL gone").0, vec!["OK"]);
        assert_eq!(say("GET fresh").0, vec!["\"3\""]);
        assert_eq!(say("GET gone").0, vec!["(nil)"]);
        assert_eq!(say("GET kept").0, vec!["\"1\""]);
        let mut keys = say("KEYS").0;
        keys.sort();
        assert_eq!(keys, vec!["  fresh", "  kept"]);
        assert_eq!(say("EXPIRE kept 100").0, vec!["OK"]);
        assert_eq!(say("BEGIN").0, vec!["ERR: transaction already active"]);
        assert_eq!(say("CLEANUP").0, vec!["ERR: cannot cleanup while transaction is active"]);
        assert_eq!(say("SAVE").0, vec!["ERR: cannot save while transaction is active"]);
        assert_eq!(
            say("CAPACITY 3").0,
            vec!["ERR: cannot change capacity while transaction is active"]
        );
        assert_eq!(say("CAPACITY").0, vec!["Capacity: unlimited"]);
        assert_eq!(
            say("INFO").0,
            vec![
                "(transaction active \u{2014} showing database state)",
                "File:       prompt_test.bin",
                "Keys:       2",
                "Entries:    2",
                "Capacity:   unlimited",
            ]
        );
        assert_eq!(say("COMMIT"), (vec![], TxnStep::Commit));
        assert_eq!(say("ROLLBACK"), (vec![], TxnStep::Rollback));
        assert_eq!(
            say("EXIT"),
            (vec!["Warning: active transaction will be rolled back".to_string()], TxnStep::Quit)
        );
        txn.commit().unwrap();
    }
    assert_eq!(ask(&mut store, "GET fresh").0, vec!["\"3\""]);
    assert_eq!(ask(&mut store, "GET gone").0, vec!["(nil)"]);
}

#[test]
fn prompt_command_for_command_word() {
    assert!(matches!(prompt_command_for("BEGIN", ""), PromptCommand::Begin));
    assert!(matches!(prompt_command_for("CAPACITY", "none"), PromptCommand::ChangeCapacity { cap: Some(None) }));
}
