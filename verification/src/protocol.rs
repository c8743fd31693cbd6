//! The text protocol of the network server: a line is read as a request,
//! the request is carried out on the database, and the reply is a text.
//! The readers of arguments that the interactive prompt shares stand here
//! too.

use vstd::prelude::*;
use crate::codec::{bincode_read_text, bincode_text, decodes_pairs, some_undecodable, text_pairs};
use crate::db::{KvStore, KvStoreView};
use crate::error::Error;
use crate::keymap::{keys_unique, pairs_map};
use crate::text::{trim, trim_text, split_once, split_first, last_at, rfind_char, parse_u64, parse_u64_text, decimal, decimal_text, to_uppercase, uppercase_text};

verus! {

/// `s` split at the last `c` into the part before it and, if `c` occurs,
/// the part after it.
pub open spec fn split_last(s: Seq<char>, c: char) -> (Seq<char>, Option<Seq<char>>) {
    if exists|i: int| last_at(s, c, i) {
        let i = choose|i: int| last_at(s, c, i);
        (s.take(i), Some(s.skip(i + 1)))
    } else {
        (s, None)
    }
}

/// A request of the protocol.
pub enum Request {
    Put { key: String, value: String, ttl: Option<u64> },
    Get { key: String },
    Del { key: String },
    List,
    Expire { key: String, ttl: u64 },
    Keys,
    Info,
    Cleanup,
    Quit,
    /// A known command with arguments it cannot take; the reply says why.
    Invalid { reply: String },
    /// A command that the protocol does not know, in upper case.
    Unknown { command: String },
}

/// A request as a mathematical value.
pub enum RequestView {
    Put { key: Seq<char>, value: Seq<char>, ttl: Option<u64> },
    Get { key: Seq<char> },
    Del { key: Seq<char> },
    List,
    Expire { key: Seq<char>, ttl: u64 },
    Keys,
    Info,
    Cleanup,
    Quit,
    Invalid { reply: Seq<char> },
    Unknown { command: Seq<char> },
}

impl View for Request {
    type V = RequestView;

    open spec fn view(&self) -> RequestView {
        match self {
            Request::Put { key, value, ttl } => RequestView::Put { key: key@, value: value@, ttl: *ttl },
            Request::Get { key } => RequestView::Get { key: key@ },
            Request::Del { key } => RequestView::Del { key: key@ },
            Request::List => RequestView::List,
            Request::Expire { key, ttl } => RequestView::Expire { key: key@, ttl: *ttl },
            Request::Keys => RequestView::Keys,
            Request::Info => RequestView::Info,
            Request::Cleanup => RequestView::Cleanup,
            Request::Quit => RequestView::Quit,
            Request::Invalid { reply } => RequestView::Invalid { reply: reply@ },
            Request::Unknown { command } => RequestView::Unknown { command: command@ },
        }
    }
}

/// The arguments of SET: a key, then a value, and a lifetime in seconds if
/// the last word of the rest is a number that follows a value.
pub open spec fn set_request(args: Seq<char>) -> RequestView {
    let (key, rest) = split_first(args, ' ');
    match rest {
        None => RequestView::Invalid { reply: "ERR usage: SET key value [ttl]"@ },
        Some(rest) => match split_last(rest, ' ') {
            (value, Some(last)) => match parse_u64_text(last) {
                Some(t) => if value.len() > 0 {
                    RequestView::Put { key, value, ttl: Some(t) }
                } else {
                    RequestView::Put { key, value: rest, ttl: None }
                },
                None => RequestView::Put { key, value: rest, ttl: None },
            },
            (_, None) => RequestView::Put { key, value: rest, ttl: None },
        },
    }
}

/// The arguments of EXPIRE: a key and a lifetime in seconds.
pub open spec fn expire_request(args: Seq<char>) -> RequestView {
    let (key, rest) = split_first(args, ' ');
    match rest {
        None => RequestView::Invalid { reply: "ERR usage: EXPIRE key ttl"@ },
        Some(rest) => match parse_u64_text(rest) {
            Some(t) => RequestView::Expire { key, ttl: t },
            None => RequestView::Invalid { reply: "ERR ttl must be a number"@ },
        },
    }
}

/// The command of a line: its first word, in upper case.
pub open spec fn command_of(line: Seq<char>) -> Seq<char> {
    uppercase_text(split_first(line, ' ').0)
}

/// The arguments of a line: what follows the first word, trimmed.
pub open spec fn args_of(line: Seq<char>) -> Seq<char> {
    match split_first(line, ' ').1 {
        Some(r) => trim_text(r),
        None => Seq::empty(),
    }
}

/// The request that a line stands for: its command names what to do, and
/// its arguments say on what.
pub open spec fn request_of(line: Seq<char>) -> RequestView {
    request_from(command_of(line), args_of(line))
}

/// The request that the upper-cased command word `cmd` stands for, with the
/// arguments `args`.
pub open spec fn request_from(cmd: Seq<char>, args: Seq<char>) -> RequestView {
    let key = trim_text(args);
    if cmd == "SET"@ {
        set_request(args)
    } else if cmd == "GET"@ {
        if key.len() == 0 {
            RequestView::Invalid { reply: "ERR usage: GET key"@ }
        } else {
            RequestView::Get { key }
        }
    } else if cmd == "DEL"@ {
        if key.len() == 0 {
            RequestView::Invalid { reply: "ERR usage: DEL key"@ }
        } else {
            RequestView::Del { key }
        }
    } else if cmd == "LIST"@ {
        RequestView::List
    } else if cmd == "EXPIRE"@ {
        expire_request(args)
    } else if cmd == "KEYS"@ {
        RequestView::Keys
    } else if cmd == "INFO"@ {
        RequestView::Info
    } else if cmd == "CLEANUP"@ {
        RequestView::Cleanup
    } else if cmd == "QUIT"@ || cmd == "EXIT"@ {
        RequestView::Quit
    } else {
        RequestView::Unknown { command: cmd }
    }
}

/// Whether `s` reads `lit`.
pub(crate) fn text_is(s: &String, lit: &str) -> (b: bool)
    ensures
        b == (s@ == lit@),
{
    *s == String::from_str(lit)
}

/// A string holding `lit`.
pub(crate) fn text(lit: &str) -> (s: String)
    ensures
        s@ == lit@,
{
    String::from_str(lit)
}

/// `s` split at the last `c`.
fn split_at_last(s: &str, c: char) -> (r: (&str, Option<&str>))
    ensures
        r.0@ == split_last(s@, c).0,
        match r.1 {
            Some(t) => split_last(s@, c).1 == Some(t@),
            None => split_last(s@, c).1 is None,
        },
{
    let n = s.unicode_len();
    match rfind_char(s, c) {
        Some(i) => {
            proof {
                let k = choose|k: int| last_at(s@, c, k);
                if k < i {
                    assert(s@[i as int] != c);
                } else if i < k {
                    assert(s@[k] != c);
                }
            }
            let before = s.substring_char(0, i);
            let after = s.substring_char(i + 1, n);
            assert(before@ =~= s@.take(i as int));
            assert(after@ =~= s@.skip(i + 1));
            (before, Some(after))
        },
        None => {
            assert(!exists|i: int| last_at(s@, c, i));
            (s, None)
        },
    }
}

/// Reads the arguments of SET.
fn parse_set(args: &str) -> (r: Request)
    ensures
        r@ == set_request(args@),
{
    let (key, rest) = split_once(args, ' ');
    match rest {
        None => Request::Invalid { reply: text("ERR usage: SET key value [ttl]") },
        Some(rest) => {
            let (value, last) = split_at_last(rest, ' ');
            match last {
                Some(last) => match parse_u64(last) {
                    Some(t) => if value.unicode_len() > 0 {
                        Request::Put {
                            key: String::from_str(key),
                            value: String::from_str(value),
                            ttl: Some(t),
                        }
                    } else {
                        Request::Put {
                            key: String::from_str(key),
                            value: String::from_str(rest),
                            ttl: None,
                        }
                    },
                    None => Request::Put {
                        key: String::from_str(key),
                        value: String::from_str(rest),
                        ttl: None,
                    },
                },
                None => Request::Put {
                    key: String::from_str(key),
                    value: String::from_str(rest),
                    ttl: None,
                },
            }
        },
    }
}

/// Reads the arguments of EXPIRE.
pub fn parse_expire(args: &str) -> (r: Request)
    ensures
        r@ == expire_request(args@),
{
    let (key, rest) = split_once(args, ' ');
    match rest {
        None => Request::Invalid { reply: text("ERR usage: EXPIRE key ttl") },
        Some(rest) => match parse_u64(rest) {
            Some(t) => Request::Expire { key: String::from_str(key), ttl: t },
            None => Request::Invalid { reply: text("ERR ttl must be a number") },
        },
    }
}

/// The command of a line, in upper case, and its arguments.
pub fn command_and_args(line: &str) -> (r: (String, &str))
    ensures
        r.0@ == command_of(line@),
        r.1@ == args_of(line@),
{
    let (head, rest) = split_once(line, ' ');
    let cmd = to_uppercase(head);
    let args = match rest {
        Some(r) => trim(r),
        None => "",
    };
    proof {
        reveal_strlit("");
    }
    (cmd, args)
}

/// Reads a line of the protocol as a request.
pub fn parse_request(line: &str) -> (r: Request)
    ensures
        r@ == request_of(line@),
{
    let (cmd, args) = command_and_args(line);
    request_for(cmd.as_str(), args)
}

/// The request that the upper-cased command word `word` stands for, with
/// the arguments `args`.
pub fn request_for(word: &str, args: &str) -> (r: Request)
    ensures
        r@ == request_from(word@, args@),
{
    let cmd = String::from_str(word);
    if text_is(&cmd, "SET") {
        parse_set(args)
    } else if text_is(&cmd, "GET") {
        let key = trim(args);
        if key.unicode_len() == 0 {
            Request::Invalid { reply: text("ERR usage: GET key") }
        } else {
            Request::Get { key: String::from_str(key) }
        }
    } else if text_is(&cmd, "DEL") {
        let key = trim(args);
        if key.unicode_len() == 0 {
            Request::Invalid { reply: text("ERR usage: DEL key") }
        } else {
            Request::Del { key: String::from_str(key) }
        }
    } else if text_is(&cmd, "LIST") {
        Request::List
    } else if text_is(&cmd, "EXPIRE") {
        parse_expire(args)
    } else if text_is(&cmd, "KEYS") {
        Request::Keys
    } else if text_is(&cmd, "INFO") {
        Request::Info
    } else if text_is(&cmd, "CLEANUP") {
        Request::Cleanup
    } else if text_is(&cmd, "QUIT") || text_is(&cmd, "EXIT") {
        Request::Quit
    } else {
        Request::Unknown { command: cmd }
    }
}

/// A value as the protocol shows it: in double quotes.
pub open spec fn quoted(t: Seq<char>) -> Seq<char> {
    "\""@ + t + "\""@
}

/// An error reply.
pub open spec fn error_reply(message: Seq<char>) -> Seq<char> {
    "ERR "@ + message
}

/// The line that shows one entry of a listing.
pub open spec fn list_line(k: Seq<char>, v: Seq<char>) -> Seq<char> {
    k + ": \""@ + v + "\""@
}

/// The lines of a listing, each ended by a newline.
pub open spec fn list_lines(items: Seq<(Seq<char>, Seq<char>)>) -> Seq<char>
    decreases items.len(),
{
    if items.len() == 0 {
        Seq::empty()
    } else {
        list_lines(items.drop_last()) + list_line(items.last().0, items.last().1) + "\n"@
    }
}

/// The reply to LIST.
pub open spec fn list_reply(items: Seq<(Seq<char>, Seq<char>)>) -> Seq<char> {
    if items.len() == 0 {
        "(empty)"@
    } else {
        list_lines(items) + "OK"@
    }
}

/// The keys, each on a line of its own.
pub open spec fn key_lines(keys: Seq<Seq<char>>) -> Seq<char>
    decreases keys.len(),
{
    if keys.len() == 0 {
        Seq::empty()
    } else {
        key_lines(keys.drop_last()) + keys.last() + "\n"@
    }
}

/// The reply to KEYS.
pub open spec fn keys_reply(keys: Seq<Seq<char>>) -> Seq<char> {
    if keys.len() == 0 {
        "(empty)"@
    } else {
        key_lines(keys) + "OK"@
    }
}

/// A capacity as the protocol shows it.
pub open spec fn capacity_text(cap: Option<usize>) -> Seq<char> {
    match cap {
        Some(c) => decimal_text(c as nat),
        None => "unlimited"@,
    }
}

/// The reply to INFO.
pub open spec fn info_reply(key_count: nat, total: nat, cap: Option<usize>, path: Seq<char>) -> Seq<char> {
    "keys: "@ + decimal_text(key_count) + "\ntotal_entries: "@ + decimal_text(total) + "\ncapacity: "@
        + capacity_text(cap) + "\nfile: "@ + path
}

/// The reply to CLEANUP.
pub open spec fn cleanup_reply(removed: nat) -> Seq<char> {
    "OK ("@ + decimal_text(removed) + " entries removed)"@
}

/// Carrying out `req` took the database from `before` to `after` and
/// answered `reply`.
pub open spec fn handled(before: KvStoreView, after: KvStoreView, req: RequestView, reply: Seq<char>) -> bool {
    &&& after.path == before.path
    &&& match req {
        RequestView::Put { key, value, ttl } => bincode_read_text(bincode_text(value)) == Some(value)
            && reply == "OK"@ && exists|now: u64|
            #[trigger] before.cache.reads(now) && after.cache == before.cache.after_put(
                key,
                bincode_text(value),
                ttl,
                now,
            ),
        RequestView::Get { key } => after == before && exists|now: u64|
            #[trigger] before.cache.reads(now) && reply == match before.cache.lookup(key, now) {
                Some(b) => match bincode_read_text(b) {
                    Some(t) => quoted(t),
                    None => "(nil)"@,
                },
                None => "(nil)"@,
            },
        RequestView::Del { key } => if before.cache.entries.contains_key(key) {
            after.cache == before.cache.after_delete(key) && reply == "OK"@
        } else {
            after == before && reply == error_reply("key not found: "@ + key)
        },
        RequestView::List => after == before && exists|now: u64, raw: Seq<(Seq<char>, Seq<u8>)>|
            #![trigger before.cache.reads(now), pairs_map(raw)]
            before.cache.reads(now) && keys_unique(raw) && pairs_map(raw)
                == before.cache.live_values(now) && ({
                ||| exists|out: Seq<(Seq<char>, Seq<char>)>|
                    #[trigger] decodes_pairs(out, raw) && reply == list_reply(out)
                ||| some_undecodable(raw) && exists|m: Seq<char>|
                    #[trigger] error_reply("Serialize error: "@ + m) == reply
            }),
        RequestView::Expire { key, ttl } => if before.cache.entries.contains_key(key) {
            exists|now: u64|
                #[trigger] before.cache.reads(now) && after.cache == before.cache.after_expire(
                    key,
                    ttl,
                    now,
                ) && reply == "OK"@
        } else {
            after == before && reply == error_reply("key not found: "@ + key)
        },
        RequestView::Keys => after == before && exists|now: u64, ks: Seq<Seq<char>>|
            #![trigger before.cache.reads(now), keys_reply(ks)]
            before.cache.reads(now) && ks.no_duplicates() && ks.to_set() == before.cache.live_keys(
                now,
            ) && reply == keys_reply(ks),
        RequestView::Info => after == before && exists|now: u64|
            #[trigger] before.cache.reads(now) && reply == info_reply(
                before.cache.live_keys(now).len(),
                before.cache.entries.len(),
                before.cache.capacity,
                before.path,
            ),
        RequestView::Cleanup => exists|now: u64|
            #[trigger] before.cache.reads(now) && after.cache == before.cache.after_cleanup(now)
                && reply == cleanup_reply(
                (before.cache.entries.len() - after.cache.entries.len()) as nat,
            ),
        RequestView::Quit => after == before && reply == "BYE"@,
        RequestView::Invalid { reply: r } => after == before && reply == r,
        RequestView::Unknown { command } => after == before && reply == error_reply(
            "unknown command: "@ + command,
        ),
    }
}

/// The reply for an error.
pub(crate) fn error_text(e: &Error) -> (s: String)
    ensures
        match e {
            Error::Serialize(m) => s@ == error_reply("Serialize error: "@ + m@),
            Error::KeyNotFound(k) => s@ == error_reply("key not found: "@ + k@),
            _ => true,
        },
{
    let m = e.message();
    let mut s = text("ERR ");
    s.append(m.as_str());
    s
}

/// `t` in double quotes.
pub(crate) fn quote(t: &str) -> (s: String)
    ensures
        s@ == quoted(t@),
{
    let mut s = text("\"");
    s.append(t);
    s.append("\"");
    s
}

/// The reply to LIST for these entries.
fn list_text(items: &Vec<(String, String)>) -> (s: String)
    ensures
        s@ == list_reply(text_pairs(items@)),
{
    if items.len() == 0 {
        return text("(empty)");
    }
    let ghost tp = text_pairs(items@);
    let mut s = String::new();
    let mut i: usize = 0;
    while i < items.len()
        invariant
            i <= items.len(),
            tp == text_pairs(items@),
            s@ == list_lines(tp.take(i as int)),
        decreases items.len() - i,
    {
        let ghost before = s@;
        s.append(items[i].0.as_str());
        s.append(": \"");
        s.append(items[i].1.as_str());
        s.append("\"");
        s.append("\n");
        proof {
            let t = tp.take(i + 1);
            assert(t.drop_last() =~= tp.take(i as int));
            assert(t.last() == tp[i as int]);
            assert(s@ =~= list_lines(t));
        }
        i = i + 1;
    }
    assert(tp.take(items@.len() as int) =~= tp);
    s.append("OK");
    s
}

/// The reply to KEYS for these keys.
fn keys_text(keys: &Vec<String>) -> (s: String)
    ensures
        s@ == keys_reply(crate::cache::texts(keys@)),
{
    if keys.len() == 0 {
        return text("(empty)");
    }
    let ghost ks = crate::cache::texts(keys@);
    let mut s = String::new();
    let mut i: usize = 0;
    while i < keys.len()
        invariant
            i <= keys.len(),
            ks == crate::cache::texts(keys@),
            s@ == key_lines(ks.take(i as int)),
        decreases keys.len() - i,
    {
        s.append(keys[i].as_str());
        s.append("\n");
        proof {
            let t = ks.take(i + 1);
            assert(t.drop_last() =~= ks.take(i as int));
            assert(t.last() == ks[i as int]);
            assert(s@ =~= key_lines(t));
        }
        i = i + 1;
    }
    assert(ks.take(keys@.len() as int) =~= ks);
    s.append("OK");
    s
}

/// The reply to INFO.
fn info_text(key_count: usize, total: usize, cap: Option<usize>, path: &str) -> (s: String)
    ensures
        s@ == info_reply(key_count as nat, total as nat, cap, path@),
{
    let mut s = text("keys: ");
    s.append(decimal(key_count as u64).as_str());
    s.append("\ntotal_entries: ");
    s.append(decimal(total as u64).as_str());
    s.append("\ncapacity: ");
    match cap {
        Some(c) => {
            s.append(decimal(c as u64).as_str());
        },
        None => {
            s.append("unlimited");
        },
    }
    s.append("\nfile: ");
    s.append(path);
    assert(s@ =~= info_reply(key_count as nat, total as nat, cap, path@));
    s
}

/// Carries out `req` on the database and gives back the reply.
pub fn execute(db: &mut KvStore, req: Request) -> (reply: String)
    requires
        old(db).wf(),
    ensures
        final(db).wf(),
        handled(old(db)@, final(db)@, req@, reply@),
{
    match req {
        Request::Put { key, value, ttl } => match db.put(key.as_str(), value.as_str(), ttl) {
            Ok(()) => text("OK"),
            Err(e) => error_text(&e),
        },
        Request::Get { key } => match db.get(key.as_str()) {
            Ok(v) => quote(v.as_str()),
            Err(_) => text("(nil)"),
        },
        Request::Del { key } => match db.delete(key.as_str()) {
            Ok(()) => text("OK"),
            Err(e) => error_text(&e),
        },
        Request::List => match db.list() {
            Ok(items) => {
                list_text(&items)
            },
            Err(e) => {
                let r = error_text(&e);
                proof {
                    let m = e->Serialize_0@;
                    assert(error_reply("Serialize error: "@ + m) == r@);
                }
                r
            },
        },
        Request::Expire { key, ttl } => match db.expire(key.as_str(), ttl) {
            Ok(()) => text("OK"),
            Err(e) => error_text(&e),
        },
        Request::Keys => match db.keys() {
            Ok(keys) => keys_text(&keys),
            Err(e) => error_text(&e),
        },
        Request::Info => match db.info() {
            Ok(info) => info_text(info.key_count, info.total_entries, info.capacity, info.file_path.as_str()),
            Err(e) => error_text(&e),
        },
        Request::Cleanup => match db.cleanup() {
            Ok(n) => {
                let mut s = text("OK (");
                s.append(decimal(n as u64).as_str());
                s.append(" entries removed)");
                s
            },
            Err(e) => error_text(&e),
        },
        Request::Quit => text("BYE"),
        Request::Invalid { reply } => reply,
        Request::Unknown { command } => {
            let mut s = text("ERR ");
            s.append("unknown command: ");
            s.append(command.as_str());
            assert(s@ =~= error_reply("unknown command: "@ + command@));
            s
        },
    }
}

/// Reads `line` as a request, carries it out on the database and gives back
/// the reply.
pub fn process_command(line: &str, store: &mut KvStore) -> (reply: String)
    requires
        old(store).wf(),
    ensures
        final(store).wf(),
        handled(old(store)@, final(store)@, request_of(line@), reply@),
{
    let req = parse_request(line);
    execute(store, req)
}

/// Handles one line of a client's session: the reply, and whether the
/// session ends with it.
pub fn serve_line(line: &str, store: &mut KvStore) -> (r: (String, bool))
    requires
        old(store).wf(),
    ensures
        final(store).wf(),
        handled(old(store)@, final(store)@, request_of(line@), r.0@),
        r.1 == (request_of(line@) is Quit),
{
    let req = parse_request(line);
    let done = match req {
        Request::Quit => true,
        _ => false,
    };
    let reply = execute(store, req);
    (reply, done)
}

/// `i` is the first position at which `p` occurs in `s`.
pub open spec fn occurs_first_at(s: Seq<char>, p: Seq<char>, i: int) -> bool {
    &&& 0 <= i
    &&& i + p.len() <= s.len()
    &&& s.subrange(i, i + p.len()) == p
    &&& forall|j: int| 0 <= j < i ==> #[trigger] s.subrange(j, j + p.len()) != p
}

/// The first position at which `p` occurs in `s`, as `str::find` gives it.
pub open spec fn find_text(s: Seq<char>, p: Seq<char>) -> Option<int> {
    if exists|i: int| occurs_first_at(s, p, i) {
        Some(choose|i: int| occurs_first_at(s, p, i))
    } else {
        None
    }
}

/// The value before `flag` and the lifetime after it, when `flag` occurs in
/// `rest` and is followed by a number.
pub open spec fn flagged_ttl(rest: Seq<char>, flag: Seq<char>) -> Option<(Seq<char>, u64)> {
    match find_text(rest, flag) {
        Some(i) => match parse_u64_text(rest.skip(i + flag.len())) {
            Some(t) => Some((rest.take(i), t)),
            None => None,
        },
        None => None,
    }
}

/// How the prompt reads the arguments of SET: a key, a value, and a lifetime
/// given after ` --ttl ` or ` -t `, or as the last word of the value.
pub open spec fn set_args(args: Seq<char>) -> (Seq<char>, Seq<char>, Option<u64>) {
    let a = trim_text(args);
    match split_first(a, ' ') {
        (_, None) => (a, Seq::empty(), None),
        (key, Some(r)) => {
            let rest = trim_text(r);
            if rest.len() == 0 {
                (key, rest, None)
            } else {
                match flagged_ttl(rest, " --ttl "@) {
                    Some((v, t)) => (key, v, Some(t)),
                    None => match flagged_ttl(rest, " -t "@) {
                        Some((v, t)) => (key, v, Some(t)),
                        None => match split_last(rest, ' ') {
                            (v, Some(last)) => match parse_u64_text(last) {
                                Some(t) => (key, v, Some(t)),
                                None => (key, rest, None),
                            },
                            (_, None) => (key, rest, None),
                        },
                    },
                }
            }
        },
    }
}

/// The first position at which `p` occurs in `s`.
fn find_str(s: &str, p: &str) -> (r: Option<usize>)
    ensures
        match r {
            Some(i) => occurs_first_at(s@, p@, i as int),
            None => find_text(s@, p@) is None,
        },
{
    let n = s.unicode_len();
    let m = p.unicode_len();
    if m > n {
        proof {
            assert(!exists|i: int| occurs_first_at(s@, p@, i));
        }
        return None;
    }
    if m == 0 {
        assert(s@.subrange(0, 0) =~= p@);
        return Some(0);
    }
    let target = String::from_str(p);
    let mut i: usize = 0;
    while i <= n - m
        invariant
            n == s@.len(),
            m == p@.len(),
            0 < m <= n,
            target@ == p@,
            i <= n - m + 1,
            forall|j: int| 0 <= j < i ==> #[trigger] s@.subrange(j, j + m) != p@,
        decreases n - m + 1 - i,
    {
        let piece = String::from_str(s.substring_char(i, i + m));
        if piece == target {
            return Some(i);
        }
        i = i + 1;
    }
    proof {
        assert(!exists|k: int| occurs_first_at(s@, p@, k)) by {
            if exists|k: int| occurs_first_at(s@, p@, k) {
                let k = choose|k: int| occurs_first_at(s@, p@, k);
                assert(s@.subrange(k, k + m) != p@);
            }
        }
    }
    None
}

/// The first occurrence is unique.
proof fn lemma_occurs_first_unique(s: Seq<char>, p: Seq<char>, i: int, j: int)
    requires
        occurs_first_at(s, p, i),
        occurs_first_at(s, p, j),
    ensures
        i == j,
{
    if i < j {
        assert(s.subrange(i, i + p.len()) != p);
    } else if j < i {
        assert(s.subrange(j, j + p.len()) != p);
    }
}

/// Looks for `flag` in `rest` followed by a number.
fn flagged<'a>(rest: &'a str, flag: &str) -> (r: Option<(&'a str, u64)>)
    ensures
        match r {
            Some((v, t)) => flagged_ttl(rest@, flag@) == Some((v@, t)),
            None => flagged_ttl(rest@, flag@) is None,
        },
{
    match find_str(rest, flag) {
        Some(pos) => {
            proof {
                let k = choose|k: int| occurs_first_at(rest@, flag@, k);
                lemma_occurs_first_unique(rest@, flag@, pos as int, k);
            }
            let n = rest.unicode_len();
            let m = flag.unicode_len();
            let value_part = rest.substring_char(0, pos);
            let ttl_part = rest.substring_char(pos + m, n);
            assert(value_part@ =~= rest@.take(pos as int));
            assert(ttl_part@ =~= rest@.skip(pos + flag@.len()));
            match parse_u64(ttl_part) {
                Some(t) => Some((value_part, t)),
                None => None,
            }
        },
        None => None,
    }
}

/// Reads the arguments of SET at the prompt into a key, a value and an
/// optional lifetime.
pub fn parse_set_args(args: &str) -> (r: (&str, &str, Option<u64>))
    ensures
        (r.0@, r.1@, r.2) == set_args(args@),
{
    let args = trim(args);
    let (key, rest) = split_once(args, ' ');
    let rest = match rest {
        Some(rest) => trim(rest),
        None => {
            proof {
                reveal_strlit("");
            }
            return (args, "", None);
        },
    };
    if rest.unicode_len() == 0 {
        return (key, rest, None);
    }
    proof {
        reveal_strlit(" --ttl ");
        reveal_strlit(" -t ");
    }
    match flagged(rest, " --ttl ") {
        Some((value, t)) => {
            return (key, value, Some(t));
        },
        None => {},
    }
    match flagged(rest, " -t ") {
        Some((value, t)) => {
            return (key, value, Some(t));
        },
        None => {},
    }
    let (value, last) = split_at_last(rest, ' ');
    match last {
        Some(last) => match parse_u64(last) {
            Some(t) => (key, value, Some(t)),
            None => (key, rest, None),
        },
        None => (key, rest, None),
    }
}

/// `s` reads `lower` when ASCII letters are compared without case.
pub open spec fn eq_ignore_ascii_case_text(s: Seq<char>, lower: Seq<char>) -> bool {
    &&& s.len() == lower.len()
    &&& forall|i: int| 0 <= i < s.len() ==> ascii_lower(#[trigger] s[i]) == lower[i]
}

/// `c` with an ASCII capital letter made small.
pub open spec fn ascii_lower(c: char) -> char {
    if 65 <= (c as u32) <= 90 {
        ((c as u32) + 32) as char
    } else {
        c
    }
}

/// What the prompt's CAPACITY takes: `none` in any case, or `0`, for no
/// bound; otherwise a number that fits in `usize`.
pub open spec fn capacity_arg(args: Seq<char>) -> Option<Option<usize>> {
    let a = trim_text(args);
    if eq_ignore_ascii_case_text(a, "none"@) || a == "0"@ {
        Some(None)
    } else {
        match parse_u64_text(a) {
            Some(n) => if n <= usize::MAX {
                Some(Some(n as usize))
            } else {
                None
            },
            None => None,
        }
    }
}

/// Whether `s` reads `lower` with ASCII letters compared without case.
fn eq_ignore_ascii_case(s: &str, lower: &str) -> (b: bool)
    ensures
        b == eq_ignore_ascii_case_text(s@, lower@),
{
    let n = s.unicode_len();
    if n != lower.unicode_len() {
        return false;
    }
    let mut i: usize = 0;
    while i < n
        invariant
            i <= n,
            n == s@.len(),
            n == lower@.len(),
            forall|j: int| 0 <= j < i ==> ascii_lower(#[trigger] s@[j]) == lower@[j],
        decreases n - i,
    {
        let c = s.get_char(i);
        let t = lower.get_char(i);
        let u = c as u32;
        let same = if 65 <= u && u <= 90 {
            u + 32 == t as u32
        } else {
            c == t
        };
        assert(same == (ascii_lower(c) == t)) by {
            if 65 <= u <= 90 {
                assert((((c as u32) + 32) as char) as u32 == (c as u32) + 32);
            }
        }
        if !same {
            return false;
        }
        i = i + 1;
    }
    true
}

/// Reads the argument of the prompt's CAPACITY: `Some(None)` for no
/// bound, `Some(Some(n))` for a bound of `n`, `None` when it is neither.
pub fn parse_capacity(args: &str) -> (r: Option<Option<usize>>)
    ensures
        r == capacity_arg(args@),
{
    let a = trim(args);
    proof {
        reveal_strlit("0");
    }
    if eq_ignore_ascii_case(a, "none") || String::from_str(a) == String::from_str("0") {
        return Some(None);
    }
    match parse_u64(a) {
        Some(n) => if n <= usize::MAX as u64 {
            Some(Some(n as usize))
        } else {
            None
        },
        None => None,
    }
}

} // verus!
