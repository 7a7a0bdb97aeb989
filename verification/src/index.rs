//! The store's hashed lookup indexes: profiles keyed by name and by
//! content digest, held in `hashbrown` hash maps behind a thin wrapper.

use vstd::prelude::*;

use crate::config::{ConfigView, KubeConfig};

verus! {

/// A lookup index over profiles, keyed by a string (a name or a
/// digest). The map inside is opaque to the verifier; what it holds is
/// named by `index_contents`, and the methods below state how each call
/// changes or reads those contents.
#[verifier::external_body]
pub struct ConfigIndex {
    map: hashbrown::HashMap<String, KubeConfig>,
}

/// What a `ConfigIndex` holds: each key, mapped to the view of the
/// profile stored under it.
pub uninterp spec fn index_contents(m: ConfigIndex) -> Map<Seq<char>, ConfigView>;

/// An index with nothing in it.
pub open spec fn empty_contents() -> Map<Seq<char>, ConfigView> {
    Map::empty()
}

/// Relies on `hashbrown::HashMap::new`: the new map is empty.
#[verifier::external_body]
pub(crate) fn index_new() -> (m: ConfigIndex)
    ensures
        index_contents(m) == empty_contents(),
{
    ConfigIndex { map: hashbrown::HashMap::new() }
}

/// Relies on `hashbrown::HashMap::clear`: removes every entry.
#[verifier::external_body]
pub(crate) fn index_clear(m: &mut ConfigIndex)
    ensures
        index_contents(*final(m)) == empty_contents(),
{
    m.map.clear();
}

/// Relies on `hashbrown::HashMap::insert`: after the call the map holds
/// `v` under `key`, and every other entry is unchanged.
#[verifier::external_body]
pub(crate) fn index_insert(m: &mut ConfigIndex, key: String, v: KubeConfig)
    ensures
        index_contents(*final(m)) == index_contents(*old(m)).insert(key@, v@),
{
    m.map.insert(key, v);
}

/// Relies on `hashbrown::HashMap::get`: returns the entry stored under
/// `key`, if there is one.
#[verifier::external_body]
pub(crate) fn index_get<'a>(m: &'a ConfigIndex, key: &str) -> (r: Option<&'a KubeConfig>)
    ensures
        match r {
            Some(c) => index_contents(*m).contains_key(key@) && c@ == index_contents(*m)[key@],
            None => !index_contents(*m).contains_key(key@),
        },
{
    m.map.get(key)
}

} // verus!
