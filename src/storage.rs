//! The key-value store: string keys, string values and optional per-key
//! expiry, with expired entries removed when they are next read.

use crate::glob::{glob_match, glob_matches};
use crate::text::{chars_of, parse_u64, u64_of_text};
use dashmap::DashMap;
use vstd::prelude::*;

verus! {

/// `tokio::time::Instant`, opaque to the verifier.
#[verifier::external_type_specification]
#[verifier::external_body]
pub struct ExInstant(tokio::time::Instant);

/// Relies on `tokio::time::Instant::now`, of which nothing is promised here.
pub assume_specification[ tokio::time::Instant::now ]() -> tokio::time::Instant;

/// Relies on `tokio::time::Instant::elapsed`: the time since `origin`, read as
/// whole nanoseconds.
#[verifier::external_body]
fn nanos_since(origin: &tokio::time::Instant) -> u128 {
    origin.elapsed().as_nanos()
}

/// A stored value. Times are nanoseconds on the store's own clock.
#[derive(Debug, Clone)]
pub struct StorageValue {
    created_at: u128,
    value: String,
    expires_at: Option<u128>,
}

/// What a stored value holds.
pub struct EntryView {
    pub value: Seq<char>,
    pub created_at: u128,
    pub expires_at: Option<u128>,
}

impl View for StorageValue {
    type V = EntryView;

    closed spec fn view(&self) -> EntryView {
        EntryView { value: self.value@, created_at: self.created_at, expires_at: self.expires_at }
    }
}

impl StorageValue {
    /// A value created at `created_at` that never expires.
    pub fn new(value: String, created_at: u128) -> (r: Self)
        ensures
            r@ == (EntryView { value: value@, created_at, expires_at: None }),
    {
        StorageValue { created_at, value, expires_at: None }
    }
}

/// `a + b`, or the largest `u128` where the sum does not fit.
pub open spec fn saturating_sum(a: int, b: int) -> u128 {
    if a + b > u128::MAX {
        u128::MAX
    } else {
        (a + b) as u128
    }
}

/// The expiry that option `opt` gives a value created at `created`, where the
/// options before it gave `current`: `EX` counts whole seconds and `PX`
/// milliseconds; an option whose value is no unsigned number, or whose name
/// is neither, leaves `current` as it is.
pub open spec fn option_expiry(opt: (Seq<char>, Seq<char>), created: u128, current: Option<u128>) -> Option<
    u128,
> {
    match u64_of_text(opt.1) {
        Some(n) => if opt.0 == seq!['E', 'X'] {
            Some(saturating_sum(created as int, n * 1_000_000_000))
        } else if opt.0 == seq!['P', 'X'] {
            Some(saturating_sum(created as int, n * 1_000_000))
        } else {
            current
        },
        None => current,
    }
}

/// The expiry that the options `opts`, applied in order, give a value created
/// at `created`.
pub open spec fn expiry_of(opts: Seq<(Seq<char>, Seq<char>)>, created: u128) -> Option<u128>
    decreases opts.len(),
{
    if opts.len() == 0 {
        None
    } else {
        option_expiry(opts.last(), created, expiry_of(opts.drop_last(), created))
    }
}

/// The entry that `set` stores for `value` with options `opts` at time `now`.
pub open spec fn entry_for(value: Seq<char>, opts: Seq<(Seq<char>, Seq<char>)>, now: u128) -> EntryView {
    EntryView { value, created_at: now, expires_at: expiry_of(opts, now) }
}

/// Whether entry `e` has expired at time `now`: it has an expiry at or before
/// `now`.
pub open spec fn expired(e: EntryView, now: u128) -> bool {
    e.expires_at matches Some(t) && t <= now
}

/// What `get` of `key` returns at time `now` from the entries `m`.
pub open spec fn lookup(m: Map<Seq<char>, EntryView>, key: Seq<char>, now: u128) -> Option<Seq<char>> {
    if m.contains_key(key) && !expired(m[key], now) {
        Some(m[key].value)
    } else {
        None
    }
}

/// The entries after `get` of `key` at time `now`: an expired entry for the
/// key is removed, nothing else changes.
pub open spec fn after_get(m: Map<Seq<char>, EntryView>, key: Seq<char>, now: u128) -> Map<
    Seq<char>,
    EntryView,
> {
    if m.contains_key(key) && expired(m[key], now) {
        m.remove(key)
    } else {
        m
    }
}

/// The options as pairs of character sequences.
pub open spec fn options_view(v: Seq<(String, String)>) -> Seq<(Seq<char>, Seq<char>)> {
    v.map_values(|p: (String, String)| (p.0@, p.1@))
}

/// The text that an optional `String` holds.
pub open spec fn text_view(r: Option<String>) -> Option<Seq<char>> {
    match r {
        Some(s) => Some(s@),
        None => None,
    }
}

/// What the map of stored values `m` holds.
pub uninterp spec fn store_contents(m: DashMap<String, StorageValue>) -> Map<Seq<char>, EntryView>;

/// Relies on `DashMap::new`: a new map is empty.
#[verifier::external_body]
fn new_store_map() -> (r: DashMap<String, StorageValue>)
    ensures
        store_contents(r) =~= Map::empty(),
{
    DashMap::new()
}

/// Relies on `DashMap::insert`: afterwards the key maps to the value and the
/// other keys are unchanged.
#[verifier::external_body]
fn store_insert(m: &mut DashMap<String, StorageValue>, key: String, value: StorageValue)
    ensures
        store_contents(*final(m)) == store_contents(*old(m)).insert(key@, value@),
{
    m.insert(key, value);
}

/// Relies on `DashMap::get`: a copy of the value held under the key, if any.
#[verifier::external_body]
fn store_get(m: &DashMap<String, StorageValue>, key: &str) -> (r: Option<StorageValue>)
    ensures
        r is Some <==> store_contents(*m).contains_key(key@),
        r matches Some(v) ==> v@ == store_contents(*m)[key@],
{
    m.get(key).map(|entry| entry.value().clone())
}

/// Relies on `DashMap::remove`: afterwards the key is absent and the other
/// keys are unchanged.
#[verifier::external_body]
fn store_remove(m: &mut DashMap<String, StorageValue>, key: &str)
    ensures
        store_contents(*final(m)) == store_contents(*old(m)).remove(key@),
{
    m.remove(key);
}

/// Relies on `DashMap::iter`: each key once, in an order the map chooses.
#[verifier::external_body]
fn store_keys(m: &DashMap<String, StorageValue>) -> (r: Vec<String>)
    ensures
        forall|i: int| 0 <= i < r@.len() ==> store_contents(*m).contains_key(#[trigger] r@[i]@),
        forall|k: Seq<char>|
            #[trigger] store_contents(*m).contains_key(k) ==> exists|i: int|
                0 <= i < r@.len() && #[trigger] r@[i]@ == k,
        forall|i: int, j: int| 0 <= i < j < r@.len() ==> r@[i]@ != r@[j]@,
{
    m.iter().map(|entry| entry.key().clone()).collect()
}

/// The store: a map from keys to values with their expiry, and the instant
/// that its clock counts from.
pub struct Storage {
    storage: DashMap<String, StorageValue>,
    origin: tokio::time::Instant,
}

impl Storage {
    /// The entries held, expired ones that were not read since included.
    pub closed spec fn spec_map(&self) -> Map<Seq<char>, EntryView> {
        store_contents(self.storage)
    }

    /// The instant the clock counts from.
    pub closed spec fn spec_origin(&self) -> tokio::time::Instant {
        self.origin
    }

    /// An empty store whose clock starts now.
    pub fn new() -> (r: Self)
        ensures
            r.spec_map() == Map::<Seq<char>, EntryView>::empty(),
    {
        Storage { storage: new_store_map(), origin: tokio::time::Instant::now() }
    }

    /// The store's clock: nanoseconds since it was created.
    pub fn now(&self) -> u128 {
        nanos_since(&self.origin)
    }

    /// Stores `value` under `key` at time `now`, replacing any entry for the
    /// key as a whole; the options, applied in order, decide the expiry.
    pub fn set_at(&mut self, key: String, value: String, options: Vec<(String, String)>, now: u128)
        ensures
            final(self).spec_map() == old(self).spec_map().insert(
                key@,
                entry_for(value@, options_view(options@), now),
            ),
            final(self).spec_origin() == old(self).spec_origin(),
    {
        let ghost opts = options_view(options@);
        let mut expires_at: Option<u128> = None;
        let mut i: usize = 0;
        while i < options.len()
            invariant
                i <= options@.len(),
                opts == options_view(options@),
                expires_at == expiry_of(opts.take(i as int), now),
            decreases options@.len() - i,
        {
            let name = &options[i].0;
            let text = &options[i].1;
            assert(opts.take(i + 1).drop_last() =~= opts.take(i as int));
            assert(opts.take(i + 1).last() == (name@, text@));
            match parse_u64(text.as_str()) {
                Some(n) => {
                    if is_option(name, 'E') {
                        expires_at = Some(now.saturating_add(n as u128 * 1_000_000_000));
                    } else if is_option(name, 'P') {
                        expires_at = Some(now.saturating_add(n as u128 * 1_000_000));
                    }
                },
                None => {},
            }
            i = i + 1;
        }
        assert(opts.take(options@.len() as int) =~= opts);
        let entry = StorageValue { created_at: now, value, expires_at };
        store_insert(&mut self.storage, key, entry);
    }

    /// Stores `value` under `key` at the current time, replacing any entry for
    /// the key as a whole; the options, applied in order, decide the expiry.
    pub fn set(&mut self, key: String, value: String, options: Vec<(String, String)>)
        ensures
            final(self).spec_map().contains_key(key@),
            final(self).spec_map()[key@] == entry_for(
                value@,
                options_view(options@),
                final(self).spec_map()[key@].created_at,
            ),
            final(self).spec_map().remove(key@) == old(self).spec_map().remove(key@),
    {
        let now = self.now();
        self.set_at(key, value, options, now);
    }

    /// The value under `key` at time `now`, if it has not expired; an expired
    /// entry is removed.
    pub fn get_at(&mut self, key: &str, now: u128) -> (r: Option<String>)
        ensures
            text_view(r) == lookup(old(self).spec_map(), key@, now),
            final(self).spec_map() == after_get(old(self).spec_map(), key@, now),
            final(self).spec_origin() == old(self).spec_origin(),
    {
        match store_get(&self.storage, key) {
            None => None,
            Some(entry) => {
                let is_expired = match entry.expires_at {
                    Some(t) => t <= now,
                    None => false,
                };
                if is_expired {
                    store_remove(&mut self.storage, key);
                    None
                } else {
                    Some(entry.value)
                }
            },
        }
    }

    /// The value under `key` at the current time, if it has not expired; an
    /// expired entry is removed. An entry without expiry is always returned.
    pub fn get(&mut self, key: &str) -> (r: Option<String>)
        ensures
            old(self).spec_map().contains_key(key@) && old(self).spec_map()[key@].expires_at is None
                ==> text_view(r) == Some(old(self).spec_map()[key@].value),
            !old(self).spec_map().contains_key(key@) ==> r is None,
            r is Some ==> text_view(r) == Some(old(self).spec_map()[key@].value)
                && final(self).spec_map() == old(self).spec_map(),
            r is None ==> final(self).spec_map() == old(self).spec_map().remove(key@)
                || final(self).spec_map() == old(self).spec_map(),
    {
        let now = self.now();
        self.get_at(key, now)
    }

    /// Removes any entry for `key`.
    pub fn remove(&mut self, key: &str)
        ensures
            final(self).spec_map() == old(self).spec_map().remove(key@),
            final(self).spec_origin() == old(self).spec_origin(),
    {
        store_remove(&mut self.storage, key);
    }

    /// The keys held that the glob `pattern` matches, each once, in no
    /// particular order. Entries that expired but were not read since are
    /// still held, so their keys are listed too.
    pub fn keys(&self, pattern: &str) -> (r: Vec<String>)
        ensures
            forall|i: int|
                0 <= i < r@.len() ==> self.spec_map().contains_key(#[trigger] r@[i]@) && glob_match(
                    pattern@,
                    r@[i]@,
                ),
            forall|k: Seq<char>|
                #[trigger] self.spec_map().contains_key(k) && glob_match(pattern@, k) ==> exists|
                    i: int,
                | 0 <= i < r@.len() && #[trigger] r@[i]@ == k,
            forall|i: int, j: int| 0 <= i < j < r@.len() ==> r@[i]@ != r@[j]@,
    {
        let all = store_keys(&self.storage);
        let ghost names = key_texts(all@);
        let p = chars_of(pattern);
        let mut out: Vec<String> = Vec::new();
        let mut i: usize = 0;
        while i < all.len()
            invariant
                i <= all@.len(),
                p@ == pattern@,
                names == key_texts(all@),
                key_texts(out@) == matching(names.take(i as int), pattern@),
            decreases all@.len() - i,
        {
            assert(names.take(i + 1).drop_last() =~= names.take(i as int));
            let key_chars = chars_of(all[i].as_str());
            if glob_matches(&p, &key_chars) {
                let ghost before = key_texts(out@);
                out.push(all[i].clone());
                assert(key_texts(out@) =~= before.push(all@[i as int]@));
            }
            i = i + 1;
        }
        proof {
            assert(names.take(all@.len() as int) =~= names);
            lemma_matching(names, pattern@);
            assert forall|a: int| 0 <= a < out@.len() implies self.spec_map().contains_key(
                #[trigger] out@[a]@,
            ) && glob_match(pattern@, out@[a]@) by {
                assert(key_texts(out@)[a] == out@[a]@);
                let x = choose|x: int| 0 <= x < names.len() && names[x] == out@[a]@;
                assert(names[x] == all@[x]@);
            }
            assert forall|k: Seq<char>|
                #[trigger] self.spec_map().contains_key(k) && glob_match(pattern@, k) implies exists|
                    a: int,
                | 0 <= a < out@.len() && #[trigger] out@[a]@ == k by {
                let x = choose|x: int| 0 <= x < all@.len() && #[trigger] all@[x]@ == k;
                assert(names[x] == k);
                let a = choose|a: int| 0 <= a < key_texts(out@).len() && key_texts(out@)[a] == k;
                assert(out@[a]@ == k);
            }
            assert forall|a: int, b: int| 0 <= a < b < out@.len() implies out@[a]@ != out@[b]@ by {
                assert(key_texts(out@)[a] == out@[a]@);
                assert(key_texts(out@)[b] == out@[b]@);
            }
        }
        out
    }
}

/// Strings as character sequences.
pub open spec fn key_texts(v: Seq<String>) -> Seq<Seq<char>> {
    v.map_values(|s: String| s@)
}

/// The names of `s` that the glob `p` matches, in order.
pub open spec fn matching(s: Seq<Seq<char>>, p: Seq<char>) -> Seq<Seq<char>>
    decreases s.len(),
{
    if s.len() == 0 {
        s
    } else if glob_match(p, s.last()) {
        matching(s.drop_last(), p).push(s.last())
    } else {
        matching(s.drop_last(), p)
    }
}

proof fn lemma_matching(s: Seq<Seq<char>>, p: Seq<char>)
    ensures
        forall|a: int|
            0 <= a < matching(s, p).len() ==> glob_match(p, #[trigger] matching(s, p)[a])
                && exists|x: int| 0 <= x < s.len() && s[x] == matching(s, p)[a],
        forall|x: int|
            0 <= x < s.len() && glob_match(p, #[trigger] s[x]) ==> exists|a: int|
                0 <= a < matching(s, p).len() && matching(s, p)[a] == s[x],
        (forall|x: int, y: int| 0 <= x < y < s.len() ==> s[x] != s[y]) ==> (forall|a: int, b: int|
            0 <= a < b < matching(s, p).len() ==> matching(s, p)[a] != matching(s, p)[b]),
    decreases s.len(),
{
    if s.len() > 0 {
        let t = s.drop_last();
        lemma_matching(t, p);
        let mt = matching(t, p);
        let m = matching(s, p);
        assert forall|a: int| 0 <= a < m.len() implies glob_match(p, #[trigger] m[a]) && exists|x: int|
            0 <= x < s.len() && s[x] == m[a] by {
            if a < mt.len() {
                assert(m[a] == mt[a]);
                let x = choose|x: int| 0 <= x < t.len() && t[x] == mt[a];
                assert(s[x] == t[x]);
            } else {
                assert(m[a] == s.last());
                assert(s[s.len() - 1] == s.last());
            }
        }
        assert forall|x: int| 0 <= x < s.len() && glob_match(p, #[trigger] s[x]) implies exists|a: int|
            0 <= a < m.len() && m[a] == s[x] by {
            if x < t.len() {
                assert(t[x] == s[x]);
                let a = choose|a: int| 0 <= a < mt.len() && mt[a] == t[x];
                assert(m[a] == mt[a]);
            } else {
                assert(m[m.len() - 1] == s.last());
            }
        }
        if forall|x: int, y: int| 0 <= x < y < s.len() ==> s[x] != s[y] {
            assert forall|x: int, y: int| 0 <= x < y < t.len() implies t[x] != t[y] by {
                assert(t[x] == s[x] && t[y] == s[y]);
            }
            assert forall|a: int, b: int| 0 <= a < b < m.len() implies m[a] != m[b] by {
                if b == mt.len() && glob_match(p, s.last()) {
                    assert(m[a] == mt[a]);
                    let x = choose|x: int| 0 <= x < t.len() && t[x] == mt[a];
                    assert(s[x] == t[x]);
                    assert(s[s.len() - 1] == s.last());
                } else {
                    assert(m[a] == mt[a] && m[b] == mt[b]);
                }
            }
        }
    }
}

/// Whether `name` is the two characters `first` and 'X'.
fn is_option(name: &String, first: char) -> (r: bool)
    ensures
        r == (name@ == seq![first, 'X']),
{
    let c = crate::text::chars_of(name.as_str());
    let r = c.len() == 2 && c[0] == first && c[1] == 'X';
    assert(r ==> c@ =~= seq![first, 'X']);
    r
}

/// A zero-second `EX` expires an entry at once: a read at the time it was
/// set, or later, finds nothing. Without options the value is found at any
/// time.
pub proof fn law_zero_ttl(
    m: Map<Seq<char>, EntryView>,
    key: Seq<char>,
    value: Seq<char>,
    now: u128,
    later: u128,
)
    requires
        now <= later,
    ensures
        lookup(m.insert(key, entry_for(value, seq![(seq!['E', 'X'], seq!['0'])], now)), key, later)
            is None,
        lookup(m.insert(key, entry_for(value, Seq::empty(), now)), key, later) == Some(value),
{
    let opts = seq![(seq!['E', 'X'], seq!['0'])];
    lemma_zero_text();
    assert(opts.drop_last() =~= Seq::empty());
}

/// The text "0" reads as zero.
proof fn lemma_zero_text()
    ensures
        u64_of_text(seq!['0']) == Some(0u64),
{
    reveal_with_fuel(crate::text::digits_value, 2);
    assert(crate::text::unsigned_digits(seq!['0']) =~= seq!['0']);
    assert(seq!['0'].drop_last() =~= Seq::<char>::empty());
}

/// Reads after expiry stay empty: once a read finds nothing, the entry it
/// found expired is gone, and a later read at any time finds nothing either.
pub proof fn law_expired_read_is_final(m: Map<Seq<char>, EntryView>, key: Seq<char>, t1: u128, t2: u128)
    requires
        lookup(m, key, t1) is None,
    ensures
        !after_get(m, key, t1).contains_key(key) || !m.contains_key(key),
        lookup(after_get(m, key, t1), key, t2) is None,
        after_get(after_get(m, key, t1), key, t2) == after_get(m, key, t1),
{
}

/// A `set` replaces an entry as a whole: after a value with a TTL is
/// overwritten without options, reads find the new value and no expiry.
pub proof fn law_overwrite(
    m: Map<Seq<char>, EntryView>,
    key: Seq<char>,
    v1: Seq<char>,
    v2: Seq<char>,
    t0: u128,
    t1: u128,
    t2: u128,
)
    ensures
        ({
            let after = m.insert(
                key,
                entry_for(v1, seq![(seq!['E', 'X'], seq!['1', '0', '0'])], t0),
            ).insert(key, entry_for(v2, Seq::empty(), t1));
            &&& lookup(after, key, t2) == Some(v2)
            &&& after[key].expires_at is None
        }),
{
}

} // verus!
