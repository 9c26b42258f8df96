//! Parameter maps: from a parameter name to its string value.
use linear_map::LinearMap;
use vstd::prelude::*;

verus! {

#[verifier::external_type_specification]
#[verifier::external_body]
#[verifier::reject_recursive_types(K)]
#[verifier::reject_recursive_types(V)]
pub struct ExLinearMap<K, V>(LinearMap<K, V>);

/// The entries that a `LinearMap` of strings holds, by key.
pub uninterp spec fn entries_of(m: LinearMap<String, String>) -> Map<Seq<char>, Seq<char>>;

/// Relies on `LinearMap::new`: a new map has no entries.
#[verifier::external_body]
fn new_entries() -> (r: LinearMap<String, String>)
    ensures
        entries_of(r) == no_params(),
{
    LinearMap::new()
}

/// Relies on `LinearMap::insert`: the key now maps to the value, whether or
/// not it was present; every other entry is kept.
#[verifier::external_body]
fn insert_entry(m: &mut LinearMap<String, String>, key: String, value: String)
    ensures
        entries_of(*final(m)) == entries_of(*old(m)).insert(key@, value@),
{
    m.insert(key, value);
}

/// Relies on `LinearMap::get`: the value stored under an equal key, if any.
#[verifier::external_body]
fn lookup_entry(m: &LinearMap<String, String>, key: &str) -> (r: Option<String>)
    ensures
        match r {
            Some(v) => entries_of(*m).contains_key(key@) && entries_of(*m)[key@] == v@,
            None => !entries_of(*m).contains_key(key@),
        },
{
    m.get(key).cloned()
}

/// Relies on `LinearMap`'s `PartialEq`: equal lengths and every key of one
/// mapped to an equal value in the other.
#[verifier::external_body]
fn same_entries(a: &LinearMap<String, String>, b: &LinearMap<String, String>) -> (r: bool)
    ensures
        r == (entries_of(*a) == entries_of(*b)),
{
    a == b
}

/// Relies on `LinearMap`'s `Clone`: the copy holds the same entries.
#[verifier::external_body]
fn copy_entries(m: &LinearMap<String, String>) -> (r: LinearMap<String, String>)
    ensures
        entries_of(r) == entries_of(*m),
{
    m.clone()
}

/// The map with no entries.
pub open spec fn no_params() -> Map<Seq<char>, Seq<char>> {
    Map::empty()
}

/// A map from parameter names to values; later insertions of a key replace
/// earlier ones, and the order of insertion does not matter.
pub struct ParamsMap {
    pub entries: LinearMap<String, String>,
}

impl View for ParamsMap {
    type V = Map<Seq<char>, Seq<char>>;

    open spec fn view(&self) -> Map<Seq<char>, Seq<char>> {
        entries_of(self.entries)
    }
}

impl ParamsMap {
    /// An empty map.
    pub fn new() -> (r: ParamsMap)
        ensures
            r@ == no_params(),
    {
        ParamsMap { entries: new_entries() }
    }

    /// Sets `key` to `value`, replacing any earlier value.
    pub fn insert(&mut self, key: String, value: String)
        ensures
            final(self)@ == old(self)@.insert(key@, value@),
    {
        insert_entry(&mut self.entries, key, value);
    }

    /// The value stored under `key`.
    pub fn get(&self, key: &str) -> (r: Option<String>)
        ensures
            r matches Some(v) ==> self@.contains_key(key@) && self@[key@] == v@,
            r is None ==> !self@.contains_key(key@),
    {
        lookup_entry(&self.entries, key)
    }

    /// Structural equality: the same keys with the same values.
    pub fn same_as(&self, other: &ParamsMap) -> (r: bool)
        ensures
            r == (self@ == other@),
    {
        same_entries(&self.entries, &other.entries)
    }

    /// A copy holding the same entries.
    pub fn duplicate(&self) -> (r: ParamsMap)
        ensures
            r@ == self@,
    {
        ParamsMap { entries: copy_entries(&self.entries) }
    }
}

} // verus!
