use vstd::prelude::*;

use rustc_hash::FxHashMap;
use smallvec::SmallVec;

use crate::affix_rules::AffixRule;
use crate::text::texts_of;

verus! {

/// Affix rules by flag, in a map hashed with rustc_hash's Fx hasher; each
/// bucket keeps up to four rules inline.
#[verifier::external_body]
pub struct RuleMap {
    map: FxHashMap<String, SmallVec<[AffixRule; 4]>>,
}

/// The rules that a map holds under each flag, in order of insertion.
pub uninterp spec fn rule_buckets(m: RuleMap) -> Map<Seq<char>, Seq<AffixRule>>;

/// A map with no flag.
pub open spec fn no_buckets() -> Map<Seq<char>, Seq<AffixRule>> {
    Map::empty()
}

/// `m` with `r` appended to the bucket of its flag, a bucket that opens empty
/// where the flag is new.
pub open spec fn with_rule(m: Map<Seq<char>, Seq<AffixRule>>, r: AffixRule) -> Map<
    Seq<char>,
    Seq<AffixRule>,
> {
    let bucket = if m.contains_key(r.flag@) {
        m[r.flag@]
    } else {
        Seq::empty()
    };
    m.insert(r.flag@, bucket.push(r))
}

/// Relies on `HashMap::default` with rustc_hash's `FxBuildHasher`: a new map
/// is empty.
#[verifier::external_body]
pub(crate) fn new_rule_map() -> (r: RuleMap)
    ensures
        rule_buckets(r) == no_buckets(),
{
    RuleMap { map: FxHashMap::default() }
}

/// Relies on `HashMap::entry`, `Entry::or_insert_with` and `SmallVec::push`:
/// the rule goes at the end of the bucket of its flag, which is opened empty
/// where the flag is new.
#[verifier::external_body]
pub(crate) fn push_rule(m: &mut RuleMap, rule: AffixRule)
    ensures
        rule_buckets(*final(m)) == with_rule(rule_buckets(*old(m)), rule),
{
    m.map.entry(rule.flag.clone()).or_insert_with(SmallVec::new).push(rule);
}

/// Relies on `HashMap::keys`: each flag once, in the map's own order.
#[verifier::external_body]
pub(crate) fn bucket_flags(m: &RuleMap) -> (r: Vec<String>)
    ensures
        texts_of(r@).no_duplicates(),
        texts_of(r@).to_set() == rule_buckets(*m).dom(),
{
    m.map.keys().cloned().collect()
}

/// Relies on `HashMap::get` and `SmallVec::len`: how many rules stand under
/// `flag`.
#[verifier::external_body]
pub(crate) fn bucket_len(m: &RuleMap, flag: &String) -> (r: usize)
    requires
        rule_buckets(*m).contains_key(flag@),
    ensures
        r == rule_buckets(*m)[flag@].len(),
{
    match m.map.get(flag) {
        Some(b) => b.len(),
        None => 0,
    }
}

/// Relies on `HashMap`'s and `SmallVec`'s indexing: rule `i` under `flag`.
#[verifier::external_body]
pub(crate) fn bucket_rule<'a>(m: &'a RuleMap, flag: &String, i: usize) -> (r: &'a AffixRule)
    requires
        rule_buckets(*m).contains_key(flag@),
        i < rule_buckets(*m)[flag@].len(),
    ensures
        *r == rule_buckets(*m)[flag@][i as int],
{
    &m.map[flag][i]
}

} // verus!
