//! Filling the store from a decoded snapshot.

use crate::config::Config;
use crate::database::{lossy_text, PairView, RDBParser, RdbError, TimedView, snapshot_code};
use crate::parser::{decimal, push_decimal};
use crate::storage::{entry_for, EntryView, Storage};
use crate::text::append_text;
use vstd::prelude::*;

verus! {

/// Relies on `std::time::SystemTime::now`: the wall-clock time as nanoseconds
/// since the Unix epoch, 0 for a clock set before the epoch.
#[verifier::external_body]
fn unix_nanos_now() -> u128 {
    match std::time::SystemTime::now().duration_since(std::time::UNIX_EPOCH) {
        Ok(d) => d.as_nanos(),
        Err(_) => 0,
    }
}

/// Whole seconds from wall-clock time `unix_now` (nanoseconds) until the
/// expiry `expiry` (milliseconds), both since the Unix epoch; 0 where the
/// expiry has passed.
pub open spec fn remaining_secs(expiry: nat, unix_now: u128) -> nat {
    let at = expiry * 1_000_000;
    if at > unix_now {
        ((at - unix_now) / 1_000_000_000) as nat
    } else {
        0
    }
}

/// The entries `m` after storing the pairs `plain`, in order, at time `now`.
pub open spec fn with_plain(m: Map<Seq<char>, EntryView>, plain: Seq<PairView>, now: u128) -> Map<
    Seq<char>,
    EntryView,
>
    decreases plain.len(),
{
    if plain.len() == 0 {
        m
    } else {
        with_plain(m, plain.drop_last(), now).insert(
            lossy_text(plain.last().0),
            entry_for(lossy_text(plain.last().1), Seq::empty(), now),
        )
    }
}

/// The options that a timed pair with expiry `expiry` is stored with:
/// `EX` and the seconds left at wall-clock time `unix_now`.
pub open spec fn expiry_options(expiry: nat, unix_now: u128) -> Seq<(Seq<char>, Seq<char>)> {
    seq![(seq!['E', 'X'], decimal(remaining_secs(expiry, unix_now)))]
}

/// The entries `m` after storing the timed pairs `timed`, in order, at time
/// `now` and wall-clock time `unix_now`.
pub open spec fn with_timed(m: Map<Seq<char>, EntryView>, timed: Seq<TimedView>, unix_now: u128, now: u128) -> Map<
    Seq<char>,
    EntryView,
>
    decreases timed.len(),
{
    if timed.len() == 0 {
        m
    } else {
        with_timed(m, timed.drop_last(), unix_now, now).insert(
            lossy_text(timed.last().0),
            entry_for(lossy_text(timed.last().1), expiry_options(timed.last().2, unix_now), now),
        )
    }
}

/// Stores the entries that `parser` decoded, at time `now` with `unix_now`
/// the wall-clock time: entries without expiry as they are, the others with
/// the seconds they have left (already expired ones with none, so that the
/// next read removes them).
pub fn populate_storage_at(storage: &mut Storage, parser: &RDBParser, unix_now: u128, now: u128)
    ensures
        final(storage).spec_map() == with_timed(
            with_plain(old(storage).spec_map(), parser.spec_entries(), now),
            parser.spec_expiry_entries(),
            unix_now,
            now,
        ),
{
    let entries = parser.entries();
    let ghost plain = parser.spec_entries();
    let ghost start = storage.spec_map();
    let mut i: usize = 0;
    while i < entries.len()
        invariant
            i <= entries@.len(),
            plain == crate::database::pairs_view(entries@),
            storage.spec_map() == with_plain(start, plain.take(i as int), now),
        decreases entries@.len() - i,
    {
        let key = RDBParser::stringify(entries[i].0.as_slice());
        let value = RDBParser::stringify(entries[i].1.as_slice());
        assert(plain.take(i + 1).drop_last() =~= plain.take(i as int));
        assert(plain.take(i + 1).last() == (entries@[i as int].0@, entries@[i as int].1@));
        let no_options: Vec<(String, String)> = Vec::new();
        assert(crate::storage::options_view(no_options@) =~= Seq::empty());
        storage.set_at(key, value, no_options, now);
        i = i + 1;
    }
    assert(plain.take(entries@.len() as int) =~= plain);
    let timed_entries = parser.expiry_entries();
    let ghost timed = parser.spec_expiry_entries();
    let ghost middle = storage.spec_map();
    let mut k: usize = 0;
    while k < timed_entries.len()
        invariant
            k <= timed_entries@.len(),
            timed == crate::database::timed_view(timed_entries@),
            storage.spec_map() == with_timed(middle, timed.take(k as int), unix_now, now),
        decreases timed_entries@.len() - k,
    {
        let key = RDBParser::stringify(timed_entries[k].0.as_slice());
        let value = RDBParser::stringify(timed_entries[k].1.as_slice());
        let expiry = timed_entries[k].2;
        let at: u128 = expiry as u128 * 1_000_000;
        let secs: u64 = if at > unix_now {
            ((at - unix_now) / 1_000_000_000) as u64
        } else {
            0
        };
        let mut secs_text = String::new();
        push_decimal(&mut secs_text, secs);
        let mut options: Vec<(String, String)> = Vec::new();
        options.push(("EX".to_owned(), secs_text));
        proof {
            reveal_strlit("EX");
            assert("EX"@ =~= seq!['E', 'X']);
            assert(secs as nat == remaining_secs(expiry as nat, unix_now));
            assert(options@[0].1@ == decimal(remaining_secs(expiry as nat, unix_now)));
            assert(crate::storage::options_view(options@) =~= expiry_options(expiry as nat, unix_now));
        }
        assert(timed.take(k + 1).drop_last() =~= timed.take(k as int));
        assert(timed.take(k + 1).last() == (
            timed_entries@[k as int].0@,
            timed_entries@[k as int].1@,
            expiry as nat,
        ));
        storage.set_at(key, value, options, now);
        k = k + 1;
    }
    assert(timed.take(timed_entries@.len() as int) =~= timed);
}

/// Stores the entries that `parser` decoded, at the current time: entries
/// without expiry as they are, the others with the seconds they have left.
pub fn populate_storage(storage: &mut Storage, parser: &RDBParser)
    ensures
        exists|unix_now: u128, now: u128|
            final(storage).spec_map() == with_timed(
                with_plain(old(storage).spec_map(), parser.spec_entries(), now),
                parser.spec_expiry_entries(),
                unix_now,
                now,
            ),
{
    let unix_now = unix_nanos_now();
    let now = storage.now();
    populate_storage_at(storage, parser, unix_now, now);
}

/// Decodes the snapshot `data` and, only if all of it decodes, stores its
/// entries at the current time; gives back the decoder with what it decoded.
/// On a decoding error nothing is stored.
pub fn load_snapshot(storage: &mut Storage, data: Vec<u8>) -> (r: Result<RDBParser, RdbError>)
    ensures
        match snapshot_code(data@) {
            Ok(snap) => r matches Ok(parser) && {
                &&& parser.spec_version() == snap.version
                &&& parser.spec_aux() == snap.aux
                &&& parser.spec_entries() == snap.entries
                &&& parser.spec_expiry_entries() == snap.expiry_entries
                &&& exists|unix_now: u128, now: u128|
                    final(storage).spec_map() == with_timed(
                        with_plain(old(storage).spec_map(), snap.entries, now),
                        snap.expiry_entries,
                        unix_now,
                        now,
                    )
            },
            Err(e) => r matches Err(x) && x == e && final(storage).spec_map() == old(
                storage,
            ).spec_map(),
        },
{
    let mut parser = RDBParser::new(data);
    match parser.parse() {
        Ok(()) => {},
        Err(e) => return Err(e),
    }
    populate_storage(storage, &parser);
    Ok(parser)
}

/// Where the snapshot file is: the configured directory and file name joined
/// by a slash, or `None` where either is not configured.
pub fn snapshot_path(config: &Config) -> (r: Option<String>)
    ensures
        match r {
            Some(path) => config.spec_map().contains_key("dir"@) && config.spec_map().contains_key(
                "dbfilename"@,
            ) && path@ == config.spec_map()["dir"@] + seq!['/'] + config.spec_map()["dbfilename"@],
            None => !config.spec_map().contains_key("dir"@) || !config.spec_map().contains_key(
                "dbfilename"@,
            ),
        },
{
    let dir = match config.get("dir") {
        Some(d) => d,
        None => return None,
    };
    let file = match config.get("dbfilename") {
        Some(f) => f,
        None => return None,
    };
    let mut path = dir;
    path.push('/');
    append_text(&mut path, &file);
    Some(path)
}

} // verus!
