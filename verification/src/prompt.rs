//! The interactive prompt: a typed line is read as a command, and the
//! command is answered on the database, or inside an open transaction,
//! with the lines the prompt shows and the step it takes next.

use vstd::prelude::*;
use crate::cache::{texts, CacheView};
use crate::codec::{bincode_read_text, bincode_text, decodes_pairs, some_undecodable, text_pairs};
use crate::db::{KvStore, KvStoreView};
use crate::keymap::{keys_unique, pairs_map};
use crate::protocol::{
    args_of, capacity_arg, capacity_text, command_and_args, command_of, error_reply, error_text,
    execute, expire_request, handled, parse_capacity, parse_expire, parse_set_args, quote, quoted,
    set_args, text, text_is, Request, RequestView,
};
use crate::text::{decimal, decimal_text, trim, trim_text};
use crate::transaction::{expire_op, overlay, pending, record, OpView, Transaction};

verus! {

/// A line typed at the interactive prompt.
pub enum PromptCommand {
    Quit,
    Help,
    Begin,
    Commit,
    Rollback,
    Put { key: String, value: String, ttl: Option<u64> },
    Get { key: String },
    Del { key: String },
    List,
    Expire { key: String, ttl: u64 },
    Keys,
    Info,
    Cleanup,
    Save,
    ShowCapacity,
    /// A new capacity: `None` when the argument is not one.
    ChangeCapacity { cap: Option<Option<usize>> },
    /// A known command with arguments it cannot take; the reply says why.
    Invalid { reply: String },
    /// A command the prompt does not know, in upper case.
    Unknown { command: String },
}

/// A prompt line as a mathematical value.
pub enum PromptView {
    Quit,
    Help,
    Begin,
    Commit,
    Rollback,
    Put { key: Seq<char>, value: Seq<char>, ttl: Option<u64> },
    Get { key: Seq<char> },
    Del { key: Seq<char> },
    List,
    Expire { key: Seq<char>, ttl: u64 },
    Keys,
    Info,
    Cleanup,
    Save,
    ShowCapacity,
    ChangeCapacity { cap: Option<Option<usize>> },
    Invalid { reply: Seq<char> },
    Unknown { command: Seq<char> },
}

impl View for PromptCommand {
    type V = PromptView;

    open spec fn view(&self) -> PromptView {
        match self {
            PromptCommand::Quit => PromptView::Quit,
            PromptCommand::Help => PromptView::Help,
            PromptCommand::Begin => PromptView::Begin,
            PromptCommand::Commit => PromptView::Commit,
            PromptCommand::Rollback => PromptView::Rollback,
            PromptCommand::Put { key, value, ttl } => PromptView::Put { key: key@, value: value@, ttl: *ttl },
            PromptCommand::Get { key } => PromptView::Get { key: key@ },
            PromptCommand::Del { key } => PromptView::Del { key: key@ },
            PromptCommand::List => PromptView::List,
            PromptCommand::Expire { key, ttl } => PromptView::Expire { key: key@, ttl: *ttl },
            PromptCommand::Keys => PromptView::Keys,
            PromptCommand::Info => PromptView::Info,
            PromptCommand::Cleanup => PromptView::Cleanup,
            PromptCommand::Save => PromptView::Save,
            PromptCommand::ShowCapacity => PromptView::ShowCapacity,
            PromptCommand::ChangeCapacity { cap } => PromptView::ChangeCapacity { cap: *cap },
            PromptCommand::Invalid { reply } => PromptView::Invalid { reply: reply@ },
            PromptCommand::Unknown { command } => PromptView::Unknown { command: command@ },
        }
    }
}

/// The command that a prompt line stands for, once the line is trimmed.
pub open spec fn prompt_command_of(line: Seq<char>) -> PromptView {
    prompt_command_from(command_of(trim_text(line)), args_of(trim_text(line)))
}

/// The command that the upper-cased command word `cmd` stands for at the
/// prompt, with the arguments `args`.
pub open spec fn prompt_command_from(cmd: Seq<char>, args: Seq<char>) -> PromptView {
    let key = trim_text(args);
    if cmd == "QUIT"@ || cmd == "EXIT"@ {
        PromptView::Quit
    } else if cmd == "HELP"@ {
        PromptView::Help
    } else if cmd == "BEGIN"@ {
        PromptView::Begin
    } else if cmd == "COMMIT"@ {
        PromptView::Commit
    } else if cmd == "ROLLBACK"@ {
        PromptView::Rollback
    } else if cmd == "SET"@ {
        let (k, v, t) = set_args(args);
        if k.len() == 0 {
            PromptView::Invalid { reply: "ERR usage: SET key value [ttl]"@ }
        } else {
            PromptView::Put { key: k, value: v, ttl: t }
        }
    } else if cmd == "GET"@ {
        if key.len() == 0 {
            PromptView::Invalid { reply: "ERR usage: GET key"@ }
        } else {
            PromptView::Get { key }
        }
    } else if cmd == "DEL"@ {
        if key.len() == 0 {
            PromptView::Invalid { reply: "ERR usage: DEL key"@ }
        } else {
            PromptView::Del { key }
        }
    } else if cmd == "LIST"@ {
        PromptView::List
    } else if cmd == "EXPIRE"@ {
        match expire_request(args) {
            RequestView::Expire { key, ttl } => PromptView::Expire { key, ttl },
            RequestView::Invalid { reply } => PromptView::Invalid { reply },
            _ => PromptView::Invalid { reply: Seq::empty() },
        }
    } else if cmd == "KEYS"@ {
        PromptView::Keys
    } else if cmd == "INFO"@ {
        PromptView::Info
    } else if cmd == "CLEANUP"@ {
        PromptView::Cleanup
    } else if cmd == "SAVE"@ {
        PromptView::Save
    } else if cmd == "CAPACITY"@ {
        if key.len() == 0 {
            PromptView::ShowCapacity
        } else {
            PromptView::ChangeCapacity { cap: capacity_arg(args) }
        }
    } else {
        PromptView::Unknown { command: cmd }
    }
}

/// Reads a line typed at the prompt.
pub fn parse_prompt(line: &str) -> (r: PromptCommand)
    ensures
        r@ == prompt_command_of(line@),
{
    let (cmd, args) = command_and_args(trim(line));
    prompt_command_for(cmd.as_str(), args)
}

/// The command that the upper-cased command word `word` stands for at the
/// prompt, with the arguments `args`.
pub fn prompt_command_for(word: &str, args: &str) -> (r: PromptCommand)
    ensures
        r@ == prompt_command_from(word@, args@),
{
    let cmd = String::from_str(word);
    if text_is(&cmd, "QUIT") || text_is(&cmd, "EXIT") {
        PromptCommand::Quit
    } else if text_is(&cmd, "HELP") {
        PromptCommand::Help
    } else if text_is(&cmd, "BEGIN") {
        PromptCommand::Begin
    } else if text_is(&cmd, "COMMIT") {
        PromptCommand::Commit
    } else if text_is(&cmd, "ROLLBACK") {
        PromptCommand::Rollback
    } else if text_is(&cmd, "SET") {
        let (k, v, t) = parse_set_args(args);
        if k.unicode_len() == 0 {
            PromptCommand::Invalid { reply: text("ERR usage: SET key value [ttl]") }
        } else {
            PromptCommand::Put { key: String::from_str(k), value: String::from_str(v), ttl: t }
        }
    } else if text_is(&cmd, "GET") {
        let key = trim(args);
        if key.unicode_len() == 0 {
            PromptCommand::Invalid { reply: text("ERR usage: GET key") }
        } else {
            PromptCommand::Get { key: String::from_str(key) }
        }
    } else if text_is(&cmd, "DEL") {
        let key = trim(args);
        if key.unicode_len() == 0 {
            PromptCommand::Invalid { reply: text("ERR usage: DEL key") }
        } else {
            PromptCommand::Del { key: String::from_str(key) }
        }
    } else if text_is(&cmd, "LIST") {
        PromptCommand::List
    } else if text_is(&cmd, "EXPIRE") {
        match parse_expire(args) {
            Request::Expire { key, ttl } => PromptCommand::Expire { key, ttl },
            Request::Invalid { reply } => PromptCommand::Invalid { reply },
            _ => PromptCommand::Invalid { reply: String::new() },
        }
    } else if text_is(&cmd, "KEYS") {
        PromptCommand::Keys
    } else if text_is(&cmd, "INFO") {
        PromptCommand::Info
    } else if text_is(&cmd, "CLEANUP") {
        PromptCommand::Cleanup
    } else if text_is(&cmd, "SAVE") {
        PromptCommand::Save
    } else if text_is(&cmd, "CAPACITY") {
        let key = trim(args);
        if key.unicode_len() == 0 {
            PromptCommand::ShowCapacity
        } else {
            PromptCommand::ChangeCapacity { cap: parse_capacity(args) }
        }
    } else {
        PromptCommand::Unknown { command: cmd }
    }
}


/// What the prompt does next, outside a transaction, once the lines are
/// shown.
#[derive(Clone, Copy, Debug, PartialEq, Eq, Structural)]
pub enum PromptStep {
    /// Read the next line.
    Stay,
    /// Show the list of commands.
    Help,
    /// Open a transaction.
    Begin,
    /// Write the database to its file.
    Save,
    /// Write the database to its file and leave.
    Quit,
}

/// What the prompt does next inside a transaction.
#[derive(Clone, Copy, Debug, PartialEq, Eq, Structural)]
pub enum TxnStep {
    /// Read the next line.
    Stay,
    /// Show the list of commands.
    Help,
    /// Commit the transaction.
    Commit,
    /// Roll the transaction back.
    Rollback,
    /// Roll the transaction back and leave.
    Quit,
}

/// How the prompt shows one entry.
pub open spec fn shown_entry(k: Seq<char>, v: Seq<char>) -> Seq<char> {
    "  "@ + k + ": \""@ + v + "\""@
}

/// How the prompt shows a listing of entries.
pub open spec fn entry_lines(items: Seq<(Seq<char>, Seq<char>)>) -> Seq<Seq<char>> {
    if items.len() == 0 {
        seq!["(empty)"@]
    } else {
        items.map_values(|p: (Seq<char>, Seq<char>)| shown_entry(p.0, p.1))
    }
}

/// How the prompt shows a listing of keys.
pub open spec fn key_list_lines(ks: Seq<Seq<char>>) -> Seq<Seq<char>> {
    if ks.len() == 0 {
        seq!["(empty)"@]
    } else {
        ks.map_values(|k: Seq<char>| "  "@ + k)
    }
}

/// How the prompt shows the statistics of the database.
pub open spec fn info_lines(path: Seq<char>, key_count: nat, total: nat, cap: Option<usize>) -> Seq<
    Seq<char>,
> {
    seq![
        "File:       "@ + path,
        "Keys:       "@ + decimal_text(key_count),
        "Entries:    "@ + decimal_text(total),
        "Capacity:   "@ + capacity_text(cap),
    ]
}

/// How the prompt shows a stored value: the text in double quotes, or
/// `(nil)` when there is none.
pub open spec fn value_line(b: Option<Seq<u8>>) -> Seq<char> {
    match b {
        Some(b) => match bincode_read_text(b) {
            Some(t) => quoted(t),
            None => "(nil)"@,
        },
        None => "(nil)"@,
    }
}

/// The line that reports a cleanup.
pub open spec fn cleaned_line(removed: nat) -> Seq<char> {
    "Cleaned "@ + decimal_text(removed) + " expired entries"@
}

/// The line that reports the capacity.
pub open spec fn capacity_line(cap: Option<usize>) -> Seq<char> {
    "Capacity: "@ + capacity_text(cap)
}

/// The line that reports a new capacity and how many entries it evicted.
pub open spec fn capacity_changed_line(cap: Option<usize>, evicted: nat) -> Seq<char> {
    match cap {
        Some(c) => "Capacity set to "@ + decimal_text(c as nat) + " ("@ + decimal_text(evicted)
            + " evicted)"@,
        None => "Capacity removed (unlimited)"@,
    }
}

/// The line that answers a command the prompt does not know.
pub open spec fn unknown_line(command: Seq<char>) -> Seq<char> {
    "ERR: unknown command '"@ + command + "'. Type HELP for commands"@
}

/// Outside a transaction, answering `cmd` took the database from `before`
/// to `after`, showed `lines`, and goes on with `step`.
pub open spec fn prompt_answered(
    before: KvStoreView,
    after: KvStoreView,
    cmd: PromptView,
    lines: Seq<Seq<char>>,
    step: PromptStep,
) -> bool {
    match cmd {
        PromptView::Quit => after == before && lines.len() == 0 && step == PromptStep::Quit,
        PromptView::Help => after == before && lines.len() == 0 && step == PromptStep::Help,
        PromptView::Begin => after == before && lines == seq!["OK (transaction started)"@] && step
            == PromptStep::Begin,
        PromptView::Commit => after == before && lines == seq!["ERR: no active transaction"@]
            && step == PromptStep::Stay,
        PromptView::Rollback => after == before && lines == seq!["ERR: no active transaction"@]
            && step == PromptStep::Stay,
        PromptView::Save => after == before && lines.len() == 0 && step == PromptStep::Save,
        PromptView::Put { key, value, ttl } => step == PromptStep::Stay && lines.len() == 1
            && handled(before, after, RequestView::Put { key, value, ttl }, lines[0]),
        PromptView::Get { key } => step == PromptStep::Stay && lines.len() == 1 && handled(
            before,
            after,
            RequestView::Get { key },
            lines[0],
        ),
        PromptView::Del { key } => step == PromptStep::Stay && lines.len() == 1 && handled(
            before,
            after,
            RequestView::Del { key },
            lines[0],
        ),
        PromptView::Expire { key, ttl } => step == PromptStep::Stay && lines.len() == 1 && handled(
            before,
            after,
            RequestView::Expire { key, ttl },
            lines[0],
        ),
        PromptView::List => step == PromptStep::Stay && after == before && exists|
            now: u64,
            raw: Seq<(Seq<char>, Seq<u8>)>,
        |
            #![trigger before.cache.reads(now), pairs_map(raw)]
            before.cache.reads(now) && keys_unique(raw) && pairs_map(raw)
                == before.cache.live_values(now) && ({
                ||| exists|out: Seq<(Seq<char>, Seq<char>)>|
                    #[trigger] decodes_pairs(out, raw) && lines == entry_lines(out)
                ||| some_undecodable(raw) && exists|m: Seq<char>|
                    lines == seq![#[trigger] error_reply("Serialize error: "@ + m)]
            }),
        PromptView::Keys => step == PromptStep::Stay && after == before && exists|
            now: u64,
            ks: Seq<Seq<char>>,
        |
            #![trigger before.cache.reads(now), key_list_lines(ks)]
            before.cache.reads(now) && ks.no_duplicates() && ks.to_set() == before.cache.live_keys(
                now,
            ) && lines == key_list_lines(ks),
        PromptView::Info => step == PromptStep::Stay && after == before && exists|now: u64|
            #[trigger] before.cache.reads(now) && lines == info_lines(
                before.path,
                before.cache.live_keys(now).len(),
                before.cache.entries.len(),
                before.cache.capacity,
            ),
        PromptView::Cleanup => step == PromptStep::Stay && after.path == before.path && exists|
            now: u64,
        |
            #[trigger] before.cache.reads(now) && after.cache == before.cache.after_cleanup(now)
                && lines == seq![
                cleaned_line((before.cache.entries.len() - after.cache.entries.len()) as nat),
            ],
        PromptView::ShowCapacity => step == PromptStep::Stay && after == before && lines == seq![
            capacity_line(before.cache.capacity),
        ],
        PromptView::ChangeCapacity { cap } => step == PromptStep::Stay && match cap {
            None => after == before && lines == seq!["ERR: capacity must be a number, or 'none'"@],
            Some(c) => after.path == before.path && after.cache == before.cache.after_set_capacity(
                c,
            ) && lines == seq![
                capacity_changed_line(
                    c,
                    (before.cache.entries.len() - after.cache.entries.len()) as nat,
                ),
            ],
        },
        PromptView::Invalid { reply } => step == PromptStep::Stay && after == before && lines
            == seq![reply],
        PromptView::Unknown { command } => step == PromptStep::Stay && after == before && lines
            == seq![unknown_line(command)],
    }
}

/// The line of a transaction's INFO that comes before the statistics.
pub open spec fn txn_info_head() -> Seq<char> {
    "(transaction active \u{2014} showing database state)"@
}

/// Inside a transaction over the cache `base`, answering `cmd` took the
/// buffered writes from `ops` to `ops_after`, showed `lines`, and goes on
/// with `step`. `path` is the file of the database.
pub open spec fn txn_answered(
    base: CacheView,
    ops: Seq<OpView>,
    ops_after: Seq<OpView>,
    path: Seq<char>,
    cmd: PromptView,
    lines: Seq<Seq<char>>,
    step: TxnStep,
) -> bool {
    match cmd {
        PromptView::Quit => ops_after == ops && lines == seq![
            "Warning: active transaction will be rolled back"@,
        ] && step == TxnStep::Quit,
        PromptView::Help => ops_after == ops && lines.len() == 0 && step == TxnStep::Help,
        PromptView::Begin => ops_after == ops && lines == seq!["ERR: transaction already active"@]
            && step == TxnStep::Stay,
        PromptView::Commit => ops_after == ops && lines.len() == 0 && step == TxnStep::Commit,
        PromptView::Rollback => ops_after == ops && lines.len() == 0 && step == TxnStep::Rollback,
        PromptView::Put { key, value, ttl } => step == TxnStep::Stay && bincode_read_text(
            bincode_text(value),
        ) == Some(value) && ops_after == record(
            ops,
            OpView::Put { key, value: bincode_text(value), ttl },
        ) && lines == seq!["OK"@],
        PromptView::Get { key } => step == TxnStep::Stay && ops_after == ops && match pending(
            ops,
            key,
        ) {
            Some(OpView::Put { value, .. }) => lines == seq![value_line(Some(value))],
            Some(OpView::Delete { .. }) => lines == seq!["(nil)"@],
            _ => exists|now: u64|
                #[trigger] base.reads(now) && lines == seq![value_line(base.lookup(key, now))],
        },
        PromptView::Del { key } => step == TxnStep::Stay && ops_after == record(
            ops,
            OpView::Delete { key },
        ) && lines == seq!["OK"@],
        PromptView::Expire { key, ttl } => step == TxnStep::Stay && ops_after == record(
            ops,
            expire_op(ops, key, ttl),
        ) && lines == seq!["OK"@],
        PromptView::List => step == TxnStep::Stay && ops_after == ops && exists|
            now: u64,
            raw: Seq<(Seq<char>, Seq<u8>)>,
        |
            #![trigger base.reads(now), pairs_map(raw)]
            base.reads(now) && keys_unique(raw) && pairs_map(raw) == overlay(
                base.live_values(now),
                ops,
            ) && ({
                ||| exists|out: Seq<(Seq<char>, Seq<char>)>|
                    #[trigger] decodes_pairs(out, raw) && lines == entry_lines(out)
                ||| some_undecodable(raw) && exists|m: Seq<char>|
                    lines == seq![#[trigger] error_reply("Serialize error: "@ + m)]
            }),
        PromptView::Keys => step == TxnStep::Stay && ops_after == ops && exists|
            now: u64,
            ks: Seq<Seq<char>>,
        |
            #![trigger base.reads(now), key_list_lines(ks)]
            base.reads(now) && ks.no_duplicates() && ks.to_set() == overlay(
                base.live_values(now),
                ops,
            ).dom() && lines == key_list_lines(ks),
        PromptView::Info => step == TxnStep::Stay && ops_after == ops && exists|now: u64|
            #[trigger] base.reads(now) && lines == seq![txn_info_head()] + info_lines(
                path,
                base.live_keys(now).len(),
                base.entries.len(),
                base.capacity,
            ),
        PromptView::Cleanup => step == TxnStep::Stay && ops_after == ops && lines == seq![
            "ERR: cannot cleanup while transaction is active"@,
        ],
        PromptView::Save => step == TxnStep::Stay && ops_after == ops && lines == seq![
            "ERR: cannot save while transaction is active"@,
        ],
        PromptView::ShowCapacity => step == TxnStep::Stay && ops_after == ops && lines == seq![
            capacity_line(base.capacity),
        ],
        PromptView::ChangeCapacity { .. } => step == TxnStep::Stay && ops_after == ops && lines
            == seq!["ERR: cannot change capacity while transaction is active"@],
        PromptView::Invalid { reply } => step == TxnStep::Stay && ops_after == ops && lines
            == seq![reply],
        PromptView::Unknown { command } => step == TxnStep::Stay && ops_after == ops && lines
            == seq![unknown_line(command)],
    }
}

/// A single line.
fn one_line(s: String) -> (v: Vec<String>)
    ensures
        texts(v@) == seq![s@],
{
    let mut v = Vec::new();
    v.push(s);
    assert(texts(v@) =~= seq![s@]);
    v
}

/// The lines of a listing of entries.
pub fn entries_shown(items: &Vec<(String, String)>) -> (v: Vec<String>)
    ensures
        texts(v@) == entry_lines(text_pairs(items@)),
{
    let mut v: Vec<String> = Vec::new();
    if items.len() == 0 {
        v.push(text("(empty)"));
        assert(texts(v@) =~= entry_lines(text_pairs(items@)));
        return v;
    }
    let ghost tp = text_pairs(items@);
    let mut i: usize = 0;
    while i < items.len()
        invariant
            i <= items.len(),
            tp == text_pairs(items@),
            texts(v@) =~= tp.take(i as int).map_values(
                |p: (Seq<char>, Seq<char>)| shown_entry(p.0, p.1),
            ),
        decreases items.len() - i,
    {
        let mut s = text("  ");
        s.append(items[i].0.as_str());
        s.append(": \"");
        s.append(items[i].1.as_str());
        s.append("\"");
        assert(s@ =~= shown_entry(tp[i as int].0, tp[i as int].1));
        let ghost shown = texts(v@);
        v.push(s);
        proof {
            let f = |p: (Seq<char>, Seq<char>)| shown_entry(p.0, p.1);
            assert(texts(v@) =~= shown.push(s@));
            assert(tp.take(i + 1).map_values(f) =~= tp.take(i as int).map_values(f).push(
                f(tp[i as int]),
            ));
        }
        i = i + 1;
    }
    assert(tp.take(i as int) =~= tp);
    v
}

/// The lines of a listing of keys.
pub fn keys_shown(keys: &Vec<String>) -> (v: Vec<String>)
    ensures
        texts(v@) == key_list_lines(texts(keys@)),
{
    let mut v: Vec<String> = Vec::new();
    if keys.len() == 0 {
        v.push(text("(empty)"));
        assert(texts(v@) =~= key_list_lines(texts(keys@)));
        return v;
    }
    let ghost ks = texts(keys@);
    let mut i: usize = 0;
    while i < keys.len()
        invariant
            i <= keys.len(),
            ks == texts(keys@),
            texts(v@) =~= ks.take(i as int).map_values(|k: Seq<char>| "  "@ + k),
        decreases keys.len() - i,
    {
        let mut s = text("  ");
        s.append(keys[i].as_str());
        let ghost shown = texts(v@);
        v.push(s);
        proof {
            let f = |k: Seq<char>| "  "@ + k;
            assert(texts(v@) =~= shown.push(s@));
            assert(ks.take(i + 1).map_values(f) =~= ks.take(i as int).map_values(f).push(
                f(ks[i as int]),
            ));
        }
        i = i + 1;
    }
    assert(ks.take(i as int) =~= ks);
    v
}

/// `n` after the literal `head`.
fn with_number(head: &str, n: u64) -> (s: String)
    ensures
        s@ == head@ + decimal_text(n as nat),
{
    let mut s = String::from_str(head);
    s.append(decimal(n).as_str());
    s
}

/// The capacity as the prompt shows it.
fn capacity_shown(cap: Option<usize>) -> (s: String)
    ensures
        s@ == capacity_line(cap),
{
    let mut s = text("Capacity: ");
    match cap {
        Some(c) => {
            s.append(decimal(c as u64).as_str());
        },
        None => {
            s.append("unlimited");
        },
    }
    s
}

/// The lines of the statistics of the database.
pub fn info_shown(path: &str, key_count: usize, total: usize, cap: Option<usize>) -> (v: Vec<String>)
    ensures
        texts(v@) == info_lines(path@, key_count as nat, total as nat, cap),
{
    let mut v: Vec<String> = Vec::new();
    let mut f = text("File:       ");
    f.append(path);
    v.push(f);
    v.push(with_number("Keys:       ", key_count as u64));
    v.push(with_number("Entries:    ", total as u64));
    let mut c = text("Capacity:   ");
    match cap {
        Some(n) => {
            c.append(decimal(n as u64).as_str());
        },
        None => {
            c.append("unlimited");
        },
    }
    v.push(c);
    proof {
        reveal_strlit("Keys:       ");
        reveal_strlit("Entries:    ");
    }
    assert(texts(v@) =~= info_lines(path@, key_count as nat, total as nat, cap));
    v
}

/// The line that answers a command the prompt does not know.
fn unknown_shown(command: &str) -> (s: String)
    ensures
        s@ == unknown_line(command@),
{
    let mut s = text("ERR: unknown command '");
    s.append(command);
    s.append("'. Type HELP for commands");
    s
}

/// Answers a prompt command on the database, outside a transaction: gives
/// back the lines to show and the step to take next.
pub fn answer_prompt(db: &mut KvStore, cmd: PromptCommand) -> (r: (Vec<String>, PromptStep))
    requires
        old(db).wf(),
    ensures
        final(db).wf(),
        prompt_answered(old(db)@, final(db)@, cmd@, texts(r.0@), r.1),
{
    let ghost c = cmd@;
    match cmd {
        PromptCommand::Quit => (Vec::new(), PromptStep::Quit),
        PromptCommand::Help => (Vec::new(), PromptStep::Help),
        PromptCommand::Begin => (one_line(text("OK (transaction started)")), PromptStep::Begin),
        PromptCommand::Commit => (one_line(text("ERR: no active transaction")), PromptStep::Stay),
        PromptCommand::Rollback => (one_line(text("ERR: no active transaction")), PromptStep::Stay),
        PromptCommand::Save => (Vec::new(), PromptStep::Save),
        PromptCommand::Put { key, value, ttl } => {
            let reply = execute(db, Request::Put { key, value, ttl });
            (one_line(reply), PromptStep::Stay)
        },
        PromptCommand::Get { key } => {
            let reply = execute(db, Request::Get { key });
            (one_line(reply), PromptStep::Stay)
        },
        PromptCommand::Del { key } => {
            let reply = execute(db, Request::Del { key });
            (one_line(reply), PromptStep::Stay)
        },
        PromptCommand::Expire { key, ttl } => {
            let reply = execute(db, Request::Expire { key, ttl });
            (one_line(reply), PromptStep::Stay)
        },
        PromptCommand::List => match db.list() {
            Ok(items) => (entries_shown(&items), PromptStep::Stay),
            Err(e) => {
                let r = error_text(&e);
                proof {
                    let m = e->Serialize_0@;
                    assert(error_reply("Serialize error: "@ + m) == r@);
                }
                (one_line(r), PromptStep::Stay)
            },
        },
        PromptCommand::Keys => match db.keys() {
            Ok(ks) => (keys_shown(&ks), PromptStep::Stay),
            Err(e) => (one_line(error_text(&e)), PromptStep::Stay),
        },
        PromptCommand::Info => match db.info() {
            Ok(info) => (
                info_shown(info.file_path.as_str(), info.key_count, info.total_entries, info.capacity),
                PromptStep::Stay,
            ),
            Err(e) => (one_line(error_text(&e)), PromptStep::Stay),
        },
        PromptCommand::Cleanup => match db.cleanup() {
            Ok(n) => {
                let mut s = with_number("Cleaned ", n as u64);
                s.append(" expired entries");
                (one_line(s), PromptStep::Stay)
            },
            Err(e) => (one_line(error_text(&e)), PromptStep::Stay),
        },
        PromptCommand::ShowCapacity => match db.get_capacity() {
            Ok(cap) => (one_line(capacity_shown(cap)), PromptStep::Stay),
            Err(e) => (one_line(error_text(&e)), PromptStep::Stay),
        },
        PromptCommand::ChangeCapacity { cap } => match cap {
            None => (
                one_line(text("ERR: capacity must be a number, or 'none'")),
                PromptStep::Stay,
            ),
            Some(new_cap) => match db.set_capacity(new_cap) {
                Ok(evicted) => {
                    let s = match new_cap {
                        Some(n) => {
                            let mut s = with_number("Capacity set to ", n as u64);
                            s.append(" (");
                            s.append(decimal(evicted as u64).as_str());
                            s.append(" evicted)");
                            s
                        },
                        None => text("Capacity removed (unlimited)"),
                    };
                    (one_line(s), PromptStep::Stay)
                },
                Err(e) => (one_line(error_text(&e)), PromptStep::Stay),
            },
        },
        PromptCommand::Invalid { reply } => (one_line(reply), PromptStep::Stay),
        PromptCommand::Unknown { command } => (
            one_line(unknown_shown(command.as_str())),
            PromptStep::Stay,
        ),
    }
}

/// Answers a prompt command inside an open transaction: gives back the
/// lines to show and the step to take next. `path` is the file of the
/// database, which INFO shows.
pub fn answer_in_transaction(txn: &mut Transaction<'_>, path: &str, cmd: PromptCommand) -> (r: (
    Vec<String>,
    TxnStep,
))
    requires
        old(txn).wf(),
    ensures
        final(txn).wf(),
        final(txn).guard == old(txn).guard,
        txn_answered(
            old(txn).base(),
            old(txn).ops_view(),
            final(txn).ops_view(),
            path@,
            cmd@,
            texts(r.0@),
            r.1,
        ),
{
    match cmd {
        PromptCommand::Quit => (
            one_line(text("Warning: active transaction will be rolled back")),
            TxnStep::Quit,
        ),
        PromptCommand::Help => (Vec::new(), TxnStep::Help),
        PromptCommand::Begin => (one_line(text("ERR: transaction already active")), TxnStep::Stay),
        PromptCommand::Commit => (Vec::new(), TxnStep::Commit),
        PromptCommand::Rollback => (Vec::new(), TxnStep::Rollback),
        PromptCommand::Put { key, value, ttl } => match txn.put(key.as_str(), value.as_str(), ttl) {
            Ok(()) => (one_line(text("OK")), TxnStep::Stay),
            Err(e) => (one_line(error_text(&e)), TxnStep::Stay),
        },
        PromptCommand::Get { key } => match txn.get(key.as_str()) {
            Ok(v) => (one_line(quote(v.as_str())), TxnStep::Stay),
            Err(_) => (one_line(text("(nil)")), TxnStep::Stay),
        },
        PromptCommand::Del { key } => {
            let _ = txn.delete(key.as_str());
            (one_line(text("OK")), TxnStep::Stay)
        },
        PromptCommand::Expire { key, ttl } => {
            let _ = txn.expire(key.as_str(), ttl);
            (one_line(text("OK")), TxnStep::Stay)
        },
        PromptCommand::List => match txn.list() {
            Ok(items) => (entries_shown(&items), TxnStep::Stay),
            Err(e) => {
                let r = error_text(&e);
                proof {
                    let m = e->Serialize_0@;
                    assert(error_reply("Serialize error: "@ + m) == r@);
                }
                (one_line(r), TxnStep::Stay)
            },
        },
        PromptCommand::Keys => {
            let ks = txn.keys();
            (keys_shown(&ks), TxnStep::Stay)
        },
        PromptCommand::Info => {
            let info = txn.guard.info();
            let mut lines = one_line(text("(transaction active \u{2014} showing database state)"));
            let mut rest = info_shown(path, info.key_count, info.total_entries, info.capacity);
            let ghost head = texts(lines@);
            let ghost tail = texts(rest@);
            lines.append(&mut rest);
            assert(texts(lines@) =~= head + tail);
            (lines, TxnStep::Stay)
        },
        PromptCommand::Cleanup => (
            one_line(text("ERR: cannot cleanup while transaction is active")),
            TxnStep::Stay,
        ),
        PromptCommand::Save => (
            one_line(text("ERR: cannot save while transaction is active")),
            TxnStep::Stay,
        ),
        PromptCommand::ShowCapacity => {
            let cap = txn.guard.get_capacity();
            (one_line(capacity_shown(cap)), TxnStep::Stay)
        },
        PromptCommand::ChangeCapacity { .. } => (
            one_line(text("ERR: cannot change capacity while transaction is active")),
            TxnStep::Stay,
        ),
        PromptCommand::Invalid { reply } => (one_line(reply), TxnStep::Stay),
        PromptCommand::Unknown { command } => (
            one_line(unknown_shown(command.as_str())),
            TxnStep::Stay,
        ),
    }
}

} // verus!
