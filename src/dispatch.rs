//! What the server does with each decoded request: the store operation it
//! performs and the reply it sends back.

use crate::config::Config;
use crate::glob::glob_match;
use crate::parser::{serialized, Command, CommandView, RedisValue, ValueView};
use crate::storage::{after_get, entry_for, lookup, EntryView, Storage};
use crate::text::append_text;
use vstd::prelude::*;

verus! {

/// The configuration key whose presence marks this node as a replica.
pub open spec fn replica_key() -> Seq<char> {
    "replicaof"@
}

/// Whether `items` lists each key of `m` that the glob `pattern` matches,
/// each once and nothing else.
pub open spec fn lists_keys(items: Seq<Seq<char>>, m: Map<Seq<char>, EntryView>, pattern: Seq<char>) -> bool {
    &&& forall|i: int|
        0 <= i < items.len() ==> m.contains_key(#[trigger] items[i]) && glob_match(pattern, items[i])
    &&& forall|k: Seq<char>|
        #[trigger] m.contains_key(k) && glob_match(pattern, k) ==> exists|i: int|
            0 <= i < items.len() && #[trigger] items[i] == k
    &&& forall|i: int, j: int| 0 <= i < j < items.len() ==> items[i] != items[j]
}

/// The reply to request `c` at time `now`, with store entries `m` and settings
/// `config`. A `KEYS` reply lists keys in an order the store chooses, so it is
/// described by `lists_keys` instead, and this gives no list for it.
pub open spec fn reply_for(
    c: CommandView,
    m: Map<Seq<char>, EntryView>,
    config: Map<Seq<char>, Seq<char>>,
    now: u128,
) -> ValueView {
    match c {
        CommandView::PING(None) => ValueView::Simple("PONG"@),
        CommandView::PING(Some(text)) => ValueView::Simple(text),
        CommandView::ECHO(text) => ValueView::Simple(text),
        CommandView::SET(_, _, _) => ValueView::Simple("OK"@),
        CommandView::GET(key) => ValueView::Bulk(lookup(m, key, now)),
        CommandView::CONFIGGET(name) => ValueView::Array(
            seq![name, if config.contains_key(name) { config[name] } else { Seq::empty() }],
        ),
        CommandView::INFO(_) => ValueView::Bulk(
            Some(
                if config.contains_key(replica_key()) {
                    "role:slave"@
                } else {
                    "role:master"@
                },
            ),
        ),
        CommandView::KEYS(_) => ValueView::Array(Seq::empty()),
        CommandView::UNKNOWN(name) => ValueView::Error("ERR Unknown command: "@ + name),
    }
}

/// The store entries after request `c` at time `now`.
pub open spec fn store_after(c: CommandView, m: Map<Seq<char>, EntryView>, now: u128) -> Map<
    Seq<char>,
    EntryView,
> {
    match c {
        CommandView::SET(key, value, options) => m.insert(
            key,
            entry_for(
                value,
                match options {
                    Some(o) => o,
                    None => Seq::empty(),
                },
                now,
            ),
        ),
        CommandView::GET(key) => after_get(m, key, now),
        _ => m,
    }
}

/// Whether `reply` and the entries `after` are what handling `parsed` at time
/// `now` gives, with entries `before` and settings `config`: a request that
/// failed to decode gets an error naming the reason and changes nothing.
pub open spec fn handled(
    parsed: Result<CommandView, Seq<char>>,
    before: Map<Seq<char>, EntryView>,
    after: Map<Seq<char>, EntryView>,
    config: Map<Seq<char>, Seq<char>>,
    now: u128,
    reply: ValueView,
) -> bool {
    match parsed {
        Err(reason) => reply == ValueView::Error("ERR Failed to parse command: "@ + reason) && after
            == before,
        Ok(c) => {
            &&& after == store_after(c, before, now)
            &&& match c {
                CommandView::KEYS(pattern) => reply matches ValueView::Array(items) && lists_keys(
                    items,
                    before,
                    pattern,
                ),
                _ => reply == reply_for(c, before, config, now),
            }
        },
    }
}

/// A decoding result as what it holds.
pub open spec fn parsed_view(parsed: Result<Command, String>) -> Result<CommandView, Seq<char>> {
    match parsed {
        Ok(c) => Ok(c@),
        Err(e) => Err(e@),
    }
}

/// Handles one decoded request at time `now`: performs its store operation
/// and gives the reply.
pub fn respond_at(storage: &mut Storage, config: &Config, parsed: Result<Command, String>, now: u128) -> (r: RedisValue)
    ensures
        handled(
            parsed_view(parsed),
            old(storage).spec_map(),
            final(storage).spec_map(),
            config.spec_map(),
            now,
            r@,
        ),
{
    match parsed {
        Err(reason) => {
            let mut text = "ERR Failed to parse command: ".to_owned();
            append_text(&mut text, &reason);
            RedisValue::Error(text)
        },
        Ok(Command::PING(None)) => RedisValue::SimpleString("PONG".to_owned()),
        Ok(Command::PING(Some(text))) => RedisValue::SimpleString(text),
        Ok(Command::ECHO(text)) => RedisValue::SimpleString(text),
        Ok(Command::SET(key, value, options)) => {
            let options = match options {
                Some(o) => o,
                None => Vec::new(),
            };
            storage.set_at(key, value, options, now);
            RedisValue::SimpleString("OK".to_owned())
        },
        Ok(Command::GET(key)) => RedisValue::BulkString(storage.get_at(key.as_str(), now)),
        Ok(Command::CONFIGGET(name)) => {
            let value = match config.get(name.as_str()) {
                Some(v) => v,
                None => String::new(),
            };
            let mut items: Vec<String> = Vec::new();
            items.push(name);
            items.push(value);
            let r = RedisValue::Array(items);
            assert(crate::parser::texts(items@) =~= seq![items@[0]@, items@[1]@]);
            r
        },
        Ok(Command::INFO(_)) => {
            let role = if config.has("replicaof") {
                "role:slave".to_owned()
            } else {
                "role:master".to_owned()
            };
            RedisValue::BulkString(Some(role))
        },
        Ok(Command::KEYS(pattern)) => {
            let keys = storage.keys(pattern.as_str());
            let r = RedisValue::Array(keys);
            proof {
                let items = crate::parser::texts(keys@);
                assert forall|i: int| 0 <= i < items.len() implies old(storage).spec_map().contains_key(
                    #[trigger] items[i],
                ) && glob_match(pattern@, items[i]) by {
                    assert(items[i] == keys@[i]@);
                }
                assert forall|k: Seq<char>|
                    #[trigger] old(storage).spec_map().contains_key(k) && glob_match(pattern@, k)
                        implies exists|i: int| 0 <= i < items.len() && #[trigger] items[i] == k by {
                    let i = choose|i: int| 0 <= i < keys@.len() && #[trigger] keys@[i]@ == k;
                    assert(items[i] == keys@[i]@);
                }
            }
            r
        },
        Ok(Command::UNKNOWN(name)) => {
            let mut text = "ERR Unknown command: ".to_owned();
            append_text(&mut text, &name);
            RedisValue::Error(text)
        },
    }
}

/// Handles one decoded request at the store's current time: performs its
/// store operation and gives the reply.
pub fn respond(storage: &mut Storage, config: &Config, parsed: Result<Command, String>) -> (r: RedisValue)
    ensures
        exists|now: u128|
            handled(
                parsed_view(parsed),
                old(storage).spec_map(),
                final(storage).spec_map(),
                config.spec_map(),
                now,
                r@,
            ),
{
    let now = storage.now();
    respond_at(storage, config, parsed, now)
}

/// A request whose command no handler knows is answered with an error reply,
/// whose wire form starts with `-`, and leaves the store as it was.
pub proof fn law_unknown_command_is_error(
    name: Seq<char>,
    m: Map<Seq<char>, EntryView>,
    config: Map<Seq<char>, Seq<char>>,
    now: u128,
)
    ensures
        reply_for(CommandView::UNKNOWN(name), m, config, now) is Error,
        serialized(reply_for(CommandView::UNKNOWN(name), m, config, now))[0] == '-',
        store_after(CommandView::UNKNOWN(name), m, now) == m,
{
}

} // verus!
