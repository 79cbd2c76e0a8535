use vstd::prelude::*;

use rustc_hash::FxHashMap;

verus! {

/// Answers of the checker, keyed by the interned word, in a map hashed with
/// rustc_hash's Fx hasher.
#[verifier::external_body]
pub struct AnswerCache {
    map: FxHashMap<usize, bool>,
}

/// The key-answer pairs that a cache holds.
pub uninterp spec fn cache_entries(c: AnswerCache) -> Map<usize, bool>;

/// Relies on `HashMap::default` with rustc_hash's `FxBuildHasher`: a new map
/// is empty.
#[verifier::external_body]
pub(crate) fn new_cache() -> (r: AnswerCache)
    ensures
        cache_entries(r).dom().len() == 0,
        cache_entries(r).dom().finite(),
{
    AnswerCache { map: FxHashMap::default() }
}

/// Relies on `HashMap::get`: the answer stored under `k`, if any.
#[verifier::external_body]
pub(crate) fn cache_get(c: &AnswerCache, k: usize) -> (r: Option<bool>)
    ensures
        r == (if cache_entries(*c).contains_key(k) {
            Some(cache_entries(*c)[k])
        } else {
            None
        }),
{
    c.map.get(&k).copied()
}

/// Relies on `HashMap::insert`: `k` maps to `v` afterwards, the rest is kept.
#[verifier::external_body]
pub(crate) fn cache_insert(c: &mut AnswerCache, k: usize, v: bool)
    ensures
        cache_entries(*final(c)) == cache_entries(*old(c)).insert(k, v),
{
    c.map.insert(k, v);
}

/// Relies on `HashMap::remove`: `k` is gone afterwards, the rest is kept.
#[verifier::external_body]
pub(crate) fn cache_remove(c: &mut AnswerCache, k: usize)
    ensures
        cache_entries(*final(c)) == cache_entries(*old(c)).remove(k),
{
    c.map.remove(&k);
}

/// Relies on `HashMap::len`: the number of keys held.
#[verifier::external_body]
pub(crate) fn cache_size(c: &AnswerCache) -> (r: usize)
    ensures
        r == cache_entries(*c).len(),
{
    c.map.len()
}

/// Relies on `HashMap::keys`: each key once, in the map's own order; the first
/// `n` of them (all where there are fewer).
#[verifier::external_body]
pub(crate) fn first_keys(c: &AnswerCache, n: usize) -> (r: Vec<usize>)
    ensures
        r@.no_duplicates(),
        r@.len() == if n < cache_entries(*c).len() {
            n as nat
        } else {
            cache_entries(*c).len()
        },
        forall|i: int| 0 <= i < r@.len() ==> cache_entries(*c).contains_key(#[trigger] r@[i]),
{
    c.map.keys().take(n).copied().collect()
}

} // verus!
