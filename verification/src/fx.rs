//! Hash tables with the Fx hasher.
//!
//! The tables are keyed by integers on hot paths, where `rustc_hash`'s hasher
//! is much cheaper than the default one. Every function here makes exactly one
//! call on such a table; what each claims of the call is the table's map view,
//! which does not depend on the hasher's choice of buckets.

use crate::types::Expr;
use rustc_hash::FxHashMap;
use vstd::prelude::*;

verus! {

/// The hasher of [`FxHashMap`]: an opaque, stateless value.
#[verifier::external_type_specification]
#[verifier::external_body]
pub struct ExFxBuildHasher(rustc_hash::FxBuildHasher);

/// `entries` lists every pair of `map` once, in some order.
pub open spec fn lists<K, V>(entries: Seq<(K, V)>, map: Map<K, V>) -> bool {
    &&& forall|i: int|
        0 <= i < entries.len() ==> map.contains_key((#[trigger] entries[i]).0)
            && map[entries[i].0] == entries[i].1
    &&& forall|i: int, j: int|
        0 <= i < j < entries.len() ==> (#[trigger] entries[i]).0 != (#[trigger] entries[j]).0
    &&& forall|k: K| #[trigger]
        map.contains_key(k) ==> exists|i: int| 0 <= i < entries.len() && (#[trigger] entries[i]).0 == k
}

/// `keys` lists every key of `map` once, in some order.
pub open spec fn lists_keys<K, V>(keys: Seq<K>, map: Map<K, V>) -> bool {
    &&& keys.no_duplicates()
    &&& forall|k: K| map.contains_key(k) <==> keys.contains(k)
}

/// `HashMap::get` with the Fx hasher: the value stored under `key`, if any.
#[verifier::external_body]
pub(crate) fn cell_get(map: &FxHashMap<i32, i32>, key: i32) -> (r: Option<i32>)
    ensures
        r == (if map@.contains_key(key) {
            Some(map@[key])
        } else {
            None
        }),
{
    map.get(&key).copied()
}

/// `HashMap::insert` with the Fx hasher: `key` now maps to `value`, every
/// other key to what it mapped to before.
#[verifier::external_body]
pub(crate) fn cell_insert(map: &mut FxHashMap<i32, i32>, key: i32, value: i32)
    ensures
        final(map)@ == old(map)@.insert(key, value),
{
    map.insert(key, value);
}

/// `HashMap::remove` with the Fx hasher: `key` maps to nothing, every other
/// key to what it mapped to before.
#[verifier::external_body]
pub(crate) fn cell_remove(map: &mut FxHashMap<i32, i32>, key: i32)
    ensures
        final(map)@ == old(map)@.remove(key),
{
    map.remove(&key);
}

/// `HashMap::iter` with the Fx hasher: every pair of the table once. The order
/// is left open.
#[verifier::external_body]
pub(crate) fn cell_entries(map: &FxHashMap<i32, i32>) -> (r: Vec<(i32, i32)>)
    ensures
        lists(r@, map@),
        r@.len() == map@.len(),
{
    map.iter().map(|(key, value)| (*key, *value)).collect()
}

/// `HashMap::insert` with the Fx hasher, on a table of expressions.
#[verifier::external_body]
pub(crate) fn table_insert(map: &mut FxHashMap<i64, Expr>, key: i64, value: Expr)
    ensures
        final(map)@ == old(map)@.insert(key, value),
{
    map.insert(key, value);
}

/// `HashMap::get` with the Fx hasher, on a table of expressions.
#[verifier::external_body]
pub(crate) fn table_get(map: &FxHashMap<i64, Expr>, key: i64) -> (r: Option<&Expr>)
    ensures
        match r {
            Some(e) => map@.contains_key(key) && *e == map@[key],
            None => !map@.contains_key(key),
        },
{
    map.get(&key)
}

/// `HashMap::keys` with the Fx hasher, on a table of expressions: every key
/// once. The order is left open.
#[verifier::external_body]
pub(crate) fn table_keys(map: &FxHashMap<i64, Expr>) -> (r: Vec<i64>)
    ensures
        lists_keys(r@, map@),
{
    map.keys().copied().collect()
}

} // verus!
