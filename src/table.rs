//! The hash tables that carry configuration data: `FxHashMap<String, String>`
//! for key → value (and key → type name) tables, `FxHashSet<String>` for sets
//! of paths. Their contents are given as a `Map` and a `Set` over character
//! sequences.
use rustc_hash::{FxHashMap, FxHashSet};
use vstd::prelude::*;

verus! {

#[verifier::external_type_specification]
#[verifier::external_body]
pub struct ExFxBuildHasher(rustc_hash::FxBuildHasher);

/// The key → value pairs that a table holds.
pub uninterp spec fn map_entries(m: FxHashMap<String, String>) -> Map<Seq<char>, Seq<char>>;

/// The strings that a set holds.
pub uninterp spec fn set_members(s: FxHashSet<String>) -> Set<Seq<char>>;

/// The table with no entries.
pub open spec fn empty_table() -> Map<Seq<char>, Seq<char>> {
    Map::empty()
}

/// The pairs of a listing, as character sequences.
pub open spec fn pair_views(v: Seq<(String, String)>) -> Seq<(Seq<char>, Seq<char>)> {
    v.map_values(|p: (String, String)| (p.0@, p.1@))
}

/// `s` lists every entry of `m` exactly once, in some order.
pub open spec fn lists_exactly(s: Seq<(Seq<char>, Seq<char>)>, m: Map<Seq<char>, Seq<char>>) -> bool {
    &&& forall|i: int, j: int| 0 <= i < j < s.len() ==> s[i].0 != s[j].0
    &&& forall|i: int| 0 <= i < s.len() ==> #[trigger] m.contains_key(s[i].0) && m[s[i].0] == s[i].1
    &&& forall|k: Seq<char>| #[trigger] m.contains_key(k) ==> exists|i: int| 0 <= i < s.len() && s[i].0 == k
}

/// Relies on `FxHashMap::default`: a new table is empty.
#[verifier::external_body]
pub(crate) fn new_map() -> (r: FxHashMap<String, String>)
    ensures
        map_entries(r) == empty_table(),
{
    FxHashMap::default()
}

/// Relies on `HashMap::insert`: the key is bound to the value, replacing any
/// earlier binding; keys compare as strings.
#[verifier::external_body]
pub(crate) fn map_insert(m: &mut FxHashMap<String, String>, key: String, value: String)
    ensures
        map_entries(*final(m)) == map_entries(*old(m)).insert(key@, value@),
{
    m.insert(key, value);
}

/// Relies on `HashMap::get`: the value bound to the key, if any.
#[verifier::external_body]
pub(crate) fn map_get<'a>(m: &'a FxHashMap<String, String>, key: &str) -> (r: Option<&'a String>)
    ensures
        match r {
            Some(v) => map_entries(*m).contains_key(key@) && map_entries(*m)[key@] == v@,
            None => !map_entries(*m).contains_key(key@),
        },
{
    m.get(key)
}

/// Relies on `HashMap::iter`: every entry once, in an order that the table
/// does not promise.
#[verifier::external_body]
pub(crate) fn map_pairs(m: &FxHashMap<String, String>) -> (r: Vec<(String, String)>)
    ensures
        lists_exactly(pair_views(r@), map_entries(*m)),
{
    m.iter().map(|(k, v)| (k.clone(), v.clone())).collect()
}

/// Relies on `HashSet::contains`.
#[verifier::external_body]
pub(crate) fn set_contains(s: &FxHashSet<String>, item: &str) -> (r: bool)
    ensures
        r == set_members(*s).contains(item@),
{
    s.contains(item)
}

/// Relies on `HashSet::insert`: the item is a member afterwards, and nothing
/// else changes.
#[verifier::external_body]
pub(crate) fn set_insert(s: &mut FxHashSet<String>, item: String)
    ensures
        set_members(*final(s)) == set_members(*old(s)).insert(item@),
{
    s.insert(item);
}

} // verus!
