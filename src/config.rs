//! The configuration store: string keys to string values, as supplied on the
//! command line.

use dashmap::DashMap;
use vstd::prelude::*;

verus! {

/// What the configuration map `m` holds.
pub uninterp spec fn config_contents(m: DashMap<String, String>) -> Map<Seq<char>, Seq<char>>;

/// Relies on `DashMap::new`: a new map is empty.
#[verifier::external_body]
fn new_config_map() -> (r: DashMap<String, String>)
    ensures
        config_contents(r) =~= Map::empty(),
{
    DashMap::new()
}

/// Relies on `DashMap::insert`: afterwards the key maps to the value and the
/// other keys are unchanged.
#[verifier::external_body]
fn config_insert(m: &mut DashMap<String, String>, key: String, value: String)
    ensures
        config_contents(*final(m)) == config_contents(*old(m)).insert(key@, value@),
{
    m.insert(key, value);
}

/// Relies on `DashMap::get`: a copy of the value held under the key, if any.
#[verifier::external_body]
fn config_get(m: &DashMap<String, String>, key: &str) -> (r: Option<String>)
    ensures
        r is Some <==> config_contents(*m).contains_key(key@),
        r matches Some(v) ==> v@ == config_contents(*m)[key@],
{
    m.get(key).map(|entry| entry.value().clone())
}

/// Relies on `DashMap::contains_key`: whether the key is held.
#[verifier::external_body]
fn config_has(m: &DashMap<String, String>, key: &str) -> (r: bool)
    ensures
        r == config_contents(*m).contains_key(key@),
{
    m.contains_key(key)
}

/// Relies on `DashMap::iter`: each entry once, in an order the map chooses.
#[verifier::external_body]
fn config_entries(m: &DashMap<String, String>) -> (r: Vec<(String, String)>)
    ensures
        forall|i: int|
            0 <= i < r@.len() ==> #[trigger] config_contents(*m).contains_key(r@[i].0@)
                && config_contents(*m)[r@[i].0@] == r@[i].1@,
        forall|k: Seq<char>|
            #[trigger] config_contents(*m).contains_key(k) ==> exists|i: int|
                0 <= i < r@.len() && #[trigger] r@[i].0@ == k,
        forall|i: int, j: int| 0 <= i < j < r@.len() ==> r@[i].0@ != r@[j].0@,
{
    m.iter().map(|entry| (entry.key().clone(), entry.value().clone())).collect()
}

/// The configuration.
pub struct Config {
    config: DashMap<String, String>,
}

impl Config {
    /// The settings held.
    pub closed spec fn spec_map(&self) -> Map<Seq<char>, Seq<char>> {
        config_contents(self.config)
    }

    /// An empty configuration.
    pub fn new() -> (r: Self)
        ensures
            r.spec_map() == Map::<Seq<char>, Seq<char>>::empty(),
    {
        Config { config: new_config_map() }
    }

    /// Sets `key` to `value`, replacing any earlier value.
    pub fn set(&mut self, key: String, value: String)
        ensures
            final(self).spec_map() == old(self).spec_map().insert(key@, value@),
    {
        config_insert(&mut self.config, key, value);
    }

    /// The value of `key`, if set.
    pub fn get(&self, key: &str) -> (r: Option<String>)
        ensures
            r is Some <==> self.spec_map().contains_key(key@),
            r matches Some(v) ==> v@ == self.spec_map()[key@],
    {
        config_get(&self.config, key)
    }

    /// Every setting once, in no particular order.
    pub fn get_all(&self) -> (r: Vec<(String, String)>)
        ensures
            forall|i: int|
                0 <= i < r@.len() ==> #[trigger] self.spec_map().contains_key(r@[i].0@)
                    && self.spec_map()[r@[i].0@] == r@[i].1@,
            forall|k: Seq<char>|
                #[trigger] self.spec_map().contains_key(k) ==> exists|i: int|
                    0 <= i < r@.len() && #[trigger] r@[i].0@ == k,
            forall|i: int, j: int| 0 <= i < j < r@.len() ==> r@[i].0@ != r@[j].0@,
    {
        config_entries(&self.config)
    }

    /// Whether `key` is set.
    pub fn has(&self, key: &str) -> (r: bool)
        ensures
            r == self.spec_map().contains_key(key@),
    {
        config_has(&self.config, key)
    }
}

} // verus!
