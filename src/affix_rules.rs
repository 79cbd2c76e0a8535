use vstd::prelude::*;

use crate::candidates::{
    candidate_at, candidate_count, candidate_texts, insert_base, new_base_set, new_candidates,
    push_candidate, set_texts, BaseWordSet, CandidateBuf,
};
use crate::rule_map::{
    bucket_flags, bucket_len, bucket_rule, new_rule_map, no_buckets, push_rule, rule_buckets,
    with_rule, RuleMap,
};
use crate::text::{
    ends_with_text, is_prefix, is_suffix, same_text, slice_text, starts_with_text, texts_of,
};

verus! {

/// One line of an affix rule: take `add` off a derived word to reach its base.
/// `strip` and `condition` are kept as read; `condition` is never evaluated.
pub struct AffixEntry {
    pub strip: String,
    pub add: String,
    pub condition: String,
}

/// A prefix (`PFX`) or suffix (`SFX`) rule with its entries, in file order.
pub struct AffixRule {
    pub rule_type: String,
    pub flag: String,
    pub cross_product: bool,
    pub entries: Vec<AffixEntry>,
}

/// Affix rules grouped by flag, each bucket holding its rules in order of
/// insertion.
pub struct AffixRules {
    rules: RuleMap,
}

pub open spec fn pfx_tag() -> Seq<char> {
    seq!['P', 'F', 'X']
}

pub open spec fn sfx_tag() -> Seq<char> {
    seq!['S', 'F', 'X']
}

/// The base that entry `e` of a rule of type `rule_type` gives for `w`, if it
/// applies: `w` begins (PFX) or ends (SFX) with `e.add`, and either the entry's
/// strip is the literal `0` or `w` is longer than `e.add`. The base is `w`
/// without those `e.add.len()` characters.
pub open spec fn entry_base(rule_type: Seq<char>, e: AffixEntry, w: Seq<char>) -> Option<Seq<char>> {
    let a = e.add@;
    if !(e.strip@ == seq!['0'] || w.len() > a.len()) {
        None
    } else if rule_type == pfx_tag() && is_prefix(a, w) {
        Some(w.subrange(a.len() as int, w.len() as int))
    } else if rule_type == sfx_tag() && is_suffix(a, w) {
        Some(w.subrange(0, w.len() - a.len()))
    } else {
        None
    }
}

/// The bases that a list of entries gives for `w`, in entry order.
pub open spec fn entries_bases(rule_type: Seq<char>, es: Seq<AffixEntry>, w: Seq<char>) -> Seq<
    Seq<char>,
>
    decreases es.len(),
{
    if es.len() == 0 {
        Seq::empty()
    } else {
        let prev = entries_bases(rule_type, es.drop_last(), w);
        match entry_base(rule_type, es.last(), w) {
            Some(b) => prev.push(b),
            None => prev,
        }
    }
}

/// The bases that a list of rules gives for `w`, rule after rule.
pub open spec fn rules_bases(rs: Seq<AffixRule>, w: Seq<char>) -> Seq<Seq<char>>
    decreases rs.len(),
{
    if rs.len() == 0 {
        Seq::empty()
    } else {
        rules_bases(rs.drop_last(), w) + entries_bases(
            rs.last().rule_type@,
            rs.last().entries@,
            w,
        )
    }
}

/// The rules of all buckets, bucket after bucket.
pub open spec fn flatten_rules(bs: Seq<Seq<AffixRule>>) -> Seq<AffixRule>
    decreases bs.len(),
{
    if bs.len() == 0 {
        Seq::empty()
    } else {
        flatten_rules(bs.drop_last()) + bs.last()
    }
}

/// Appends to `out` the base that `e` gives for `word`, if any.
fn push_entry_base(rule_type: &String, e: &AffixEntry, word: &str, out: &mut CandidateBuf)
    ensures
        candidate_texts(*final(out)) == match entry_base(rule_type@, *e, word@) {
            Some(b) => candidate_texts(*old(out)).push(b),
            None => candidate_texts(*old(out)),
        },
{
    proof {
        reveal_strlit("PFX");
        reveal_strlit("SFX");
        reveal_strlit("0");
        assert("PFX"@ =~= pfx_tag());
        assert("SFX"@ =~= sfx_tag());
        assert("0"@ =~= seq!['0']);
        assert(pfx_tag()[0] != sfx_tag()[0]);
    }
    let n = word.unicode_len();
    let m = e.add.as_str().unicode_len();
    let zero_strip = same_text(e.strip.as_str(), "0");
    if !(zero_strip || n > m) {
        return;
    }
    if same_text(rule_type.as_str(), "PFX") {
        if starts_with_text(word, e.add.as_str()) {
            let base = slice_text(word, m, n);
            push_candidate(out, base);
        }
    } else if same_text(rule_type.as_str(), "SFX") {
        if ends_with_text(word, e.add.as_str()) {
            let base = slice_text(word, 0, n - m);
            push_candidate(out, base);
        }
    }
}

/// Appends to `out` the bases that `rule` gives for `word`.
fn push_rule_bases(rule: &AffixRule, word: &str, out: &mut CandidateBuf)
    ensures
        candidate_texts(*final(out)) == candidate_texts(*old(out)) + entries_bases(
            rule.rule_type@,
            rule.entries@,
            word@,
        ),
{
    let mut k: usize = 0;
    while k < rule.entries.len()
        invariant
            k <= rule.entries@.len(),
            candidate_texts(*out) == candidate_texts(*old(out)) + entries_bases(
                rule.rule_type@,
                rule.entries@.subrange(0, k as int),
                word@,
            ),
        decreases rule.entries@.len() - k,
    {
        push_entry_base(&rule.rule_type, &rule.entries[k], word, out);
        proof {
            let es = rule.entries@.subrange(0, k + 1);
            assert(es.drop_last() =~= rule.entries@.subrange(0, k as int));
            assert(es.last() == rule.entries@[k as int]);
            let prev = entries_bases(rule.rule_type@, rule.entries@.subrange(0, k as int), word@);
            match entry_base(rule.rule_type@, rule.entries@[k as int], word@) {
                Some(b) => {
                    assert(candidate_texts(*old(out)) + prev.push(b) =~= (candidate_texts(*old(out)) + prev).push(b));
                },
                None => {},
            }
        }
        k = k + 1;
    }
    proof {
        assert(rule.entries@.subrange(0, rule.entries@.len() as int) =~= rule.entries@);
    }
}

proof fn lemma_rules_bases_concat(a: Seq<AffixRule>, b: Seq<AffixRule>, w: Seq<char>)
    ensures
        rules_bases(a + b, w) == rules_bases(a, w) + rules_bases(b, w),
    decreases b.len(),
{
    if b.len() == 0 {
        assert(a + b =~= a);
        assert(rules_bases(a, w) + rules_bases(b, w) =~= rules_bases(a, w));
    } else {
        let b0 = b.drop_last();
        lemma_rules_bases_concat(a, b0, w);
        assert((a + b).drop_last() =~= a + b0);
        assert((a + b).last() == b.last());
        let e = entries_bases(b.last().rule_type@, b.last().entries@, w);
        assert(rules_bases(a, w) + rules_bases(b0, w) + e =~= rules_bases(a, w) + (rules_bases(
            b0,
            w,
        ) + e));
    }
}

/// Appends to `out` the bases that the rules under `flag` give for `word`.
fn push_bucket_bases(m: &RuleMap, flag: &String, word: &str, out: &mut CandidateBuf)
    requires
        rule_buckets(*m).contains_key(flag@),
    ensures
        candidate_texts(*final(out)) == candidate_texts(*old(out)) + rules_bases(
            rule_buckets(*m)[flag@],
            word@,
        ),
{
    let ghost bucket = rule_buckets(*m)[flag@];
    let n = bucket_len(m, flag);
    let mut k: usize = 0;
    while k < n
        invariant
            rule_buckets(*m).contains_key(flag@),
            bucket == rule_buckets(*m)[flag@],
            n == bucket.len(),
            k <= n,
            candidate_texts(*out) == candidate_texts(*old(out)) + rules_bases(
                bucket.subrange(0, k as int),
                word@,
            ),
        decreases n - k,
    {
        push_rule_bases(bucket_rule(m, flag, k), word, out);
        proof {
            let rs = bucket.subrange(0, k + 1);
            assert(rs.drop_last() =~= bucket.subrange(0, k as int));
            assert(rs.last() == bucket[k as int]);
            let prev = rules_bases(bucket.subrange(0, k as int), word@);
            let e = entries_bases(bucket[k as int].rule_type@, bucket[k as int].entries@, word@);
            assert(candidate_texts(*old(out)) + prev + e =~= candidate_texts(*old(out)) + (prev + e));
        }
        k = k + 1;
    }
    proof {
        assert(bucket.subrange(0, n as int) =~= bucket);
    }
}

proof fn lemma_flatten_push(bs: Seq<Seq<AffixRule>>, b: Seq<AffixRule>)
    ensures
        flatten_rules(bs.push(b)) == flatten_rules(bs) + b,
{
    assert(bs.push(b).drop_last() =~= bs);
}

/// `rule_type`, `entries[j]` and `w` give the base `b`.
pub open spec fn entry_gives(es: Seq<AffixEntry>, rule_type: Seq<char>, j: int, w: Seq<char>, b: Seq<char>) -> bool {
    0 <= j < es.len() && entry_base(rule_type, es[j], w) == Some(b)
}

proof fn lemma_concat_contains(a: Seq<Seq<char>>, c: Seq<Seq<char>>, b: Seq<char>)
    ensures
        (a + c).contains(b) <==> a.contains(b) || c.contains(b),
{
    if (a + c).contains(b) {
        let k = choose|k: int| 0 <= k < (a + c).len() && (a + c)[k] == b;
        if k < a.len() {
            assert(a[k] == b);
        } else {
            assert(c[k - a.len()] == b);
        }
    }
    if a.contains(b) {
        let k = choose|k: int| 0 <= k < a.len() && a[k] == b;
        assert((a + c)[k] == b);
    }
    if c.contains(b) {
        let k = choose|k: int| 0 <= k < c.len() && c[k] == b;
        assert((a + c)[k + a.len()] == b);
    }
}

proof fn lemma_entries_bases_contains(t: Seq<char>, es: Seq<AffixEntry>, w: Seq<char>, b: Seq<char>)
    ensures
        entries_bases(t, es, w).contains(b) <==> exists|j: int| #[trigger] entry_gives(es, t, j, w, b),
    decreases es.len(),
{
    if es.len() > 0 {
        let dl = es.drop_last();
        lemma_entries_bases_contains(t, dl, w, b);
        let prev = entries_bases(t, dl, w);
        if entries_bases(t, es, w).contains(b) {
            match entry_base(t, es.last(), w) {
                Some(x) => {
                    let k = choose|k: int| 0 <= k < prev.push(x).len() && prev.push(x)[k] == b;
                    if k < prev.len() {
                        assert(prev[k] == b);
                        let j = choose|j: int| #[trigger] entry_gives(dl, t, j, w, b);
                        assert(entry_gives(es, t, j, w, b));
                    } else {
                        assert(entry_gives(es, t, es.len() - 1, w, b));
                    }
                },
                None => {
                    let j = choose|j: int| #[trigger] entry_gives(dl, t, j, w, b);
                    assert(entry_gives(es, t, j, w, b));
                },
            }
        }
        if exists|j: int| #[trigger] entry_gives(es, t, j, w, b) {
            let j = choose|j: int| #[trigger] entry_gives(es, t, j, w, b);
            if j < es.len() - 1 {
                assert(entry_gives(dl, t, j, w, b));
                let k = choose|k: int| 0 <= k < prev.len() && prev[k] == b;
                match entry_base(t, es.last(), w) {
                    Some(x) => {
                        assert(prev.push(x)[k] == b);
                    },
                    None => {},
                }
            } else {
                assert(entries_bases(t, es, w) == prev.push(b));
                assert(prev.push(b)[prev.len() as int] == b);
            }
        }
    }
}

/// Rule `i` of `rs` has an entry that gives the base `b` of `w`.
pub open spec fn rule_gives(rs: Seq<AffixRule>, i: int, w: Seq<char>, b: Seq<char>) -> bool {
    0 <= i < rs.len() && exists|j: int| #[trigger] entry_gives(rs[i].entries@, rs[i].rule_type@, j, w, b)
}

proof fn lemma_rules_bases_contains(rs: Seq<AffixRule>, w: Seq<char>, b: Seq<char>)
    ensures
        rules_bases(rs, w).contains(b) <==> exists|i: int| #[trigger] rule_gives(rs, i, w, b),
    decreases rs.len(),
{
    if rs.len() > 0 {
        let dl = rs.drop_last();
        lemma_rules_bases_contains(dl, w, b);
        lemma_entries_bases_contains(rs.last().rule_type@, rs.last().entries@, w, b);
        lemma_concat_contains(
            rules_bases(dl, w),
            entries_bases(rs.last().rule_type@, rs.last().entries@, w),
            b,
        );
        if exists|i: int| #[trigger] rule_gives(dl, i, w, b) {
            let i = choose|i: int| #[trigger] rule_gives(dl, i, w, b);
            assert(rs[i] == dl[i]);
            assert(rule_gives(rs, i, w, b));
        }
        if exists|i: int| #[trigger] rule_gives(rs, i, w, b) {
            let i = choose|i: int| #[trigger] rule_gives(rs, i, w, b);
            if i < rs.len() - 1 {
                assert(rs[i] == dl[i]);
                assert(rule_gives(dl, i, w, b));
            } else {
                assert(rs[i] == rs.last());
            }
        }
        if entries_bases(rs.last().rule_type@, rs.last().entries@, w).contains(b) {
            assert(rule_gives(rs, rs.len() - 1, w, b));
        }
    }
}

/// Bucket `k` of `bs` has a rule that gives the base `b` of `w`.
pub open spec fn bucket_gives(bs: Seq<Seq<AffixRule>>, k: int, w: Seq<char>, b: Seq<char>) -> bool {
    0 <= k < bs.len() && exists|i: int| #[trigger] rule_gives(bs[k], i, w, b)
}

proof fn lemma_flatten_contains(bs: Seq<Seq<AffixRule>>, w: Seq<char>, b: Seq<char>)
    ensures
        rules_bases(flatten_rules(bs), w).contains(b) <==> exists|k: int| #[trigger] bucket_gives(bs, k, w, b),
    decreases bs.len(),
{
    if bs.len() > 0 {
        let dl = bs.drop_last();
        lemma_flatten_contains(dl, w, b);
        lemma_rules_bases_concat(flatten_rules(dl), bs.last(), w);
        lemma_rules_bases_contains(bs.last(), w, b);
        lemma_concat_contains(rules_bases(flatten_rules(dl), w), rules_bases(bs.last(), w), b);
        if exists|k: int| #[trigger] bucket_gives(dl, k, w, b) {
            let k = choose|k: int| #[trigger] bucket_gives(dl, k, w, b);
            assert(bs[k] == dl[k]);
            assert(bucket_gives(bs, k, w, b));
        }
        if exists|k: int| #[trigger] bucket_gives(bs, k, w, b) {
            let k = choose|k: int| #[trigger] bucket_gives(bs, k, w, b);
            if k < bs.len() - 1 {
                assert(bs[k] == dl[k]);
                assert(bucket_gives(dl, k, w, b));
            } else {
                assert(bs[k] == bs.last());
            }
        }
        if rules_bases(bs.last(), w).contains(b) {
            assert(bucket_gives(bs, bs.len() - 1, w, b));
        }
    }
}

/// The buckets of `m` under the flags `ks`, in that order.
pub open spec fn bucket_list(m: Map<Seq<char>, Seq<AffixRule>>, ks: Seq<Seq<char>>) -> Seq<
    Seq<AffixRule>,
> {
    ks.map_values(|f: Seq<char>| m[f])
}

/// Some rule stored in `m`, under any flag, gives the base `b` of `w`.
pub open spec fn derives(m: Map<Seq<char>, Seq<AffixRule>>, w: Seq<char>, b: Seq<char>) -> bool {
    exists|f: Seq<char>, i: int| m.contains_key(f) && #[trigger] rule_gives(m[f], i, w, b)
}

/// `found` followed by nothing more, or `w` alone where `found` is empty.
pub open spec fn or_self(found: Seq<Seq<char>>, w: Seq<char>) -> Seq<Seq<char>> {
    if found.len() == 0 {
        seq![w]
    } else {
        found
    }
}

/// A candidate base of `w`: a base that a rule gives, or `w` itself where no
/// rule gives one.
pub open spec fn is_candidate(m: Map<Seq<char>, Seq<AffixRule>>, w: Seq<char>, x: Seq<char>) -> bool {
    derives(m, w, x) || (!(exists|b: Seq<char>| derives(m, w, b)) && x == w)
}

impl AffixRules {
    /// The rules held under each flag, in order of insertion.
    pub closed spec fn buckets(&self) -> Map<Seq<char>, Seq<AffixRule>> {
        rule_buckets(self.rules)
    }

    /// Each rule stands in the bucket of its own flag.
    pub closed spec fn wf(&self) -> bool {
        forall|f: Seq<char>, i: int|
            #[trigger] self.buckets().contains_key(f) && 0 <= i < self.buckets()[f].len()
                ==> (#[trigger] self.buckets()[f][i]).flag@ == f
    }

    pub fn new() -> (r: AffixRules)
        ensures
            r.wf(),
            r.buckets() == no_buckets(),
    {
        AffixRules { rules: new_rule_map() }
    }

    /// Appends `rule` to the bucket of its flag, opening that bucket where the
    /// flag is new.
    pub fn add_rule(&mut self, rule: AffixRule)
        requires
            old(self).wf(),
        ensures
            final(self).wf(),
            final(self).buckets() == with_rule(old(self).buckets(), rule),
    {
        push_rule(&mut self.rules, rule);
        proof {
            let m0 = old(self).buckets();
            assert forall|f: Seq<char>, i: int|
                #[trigger] self.buckets().contains_key(f) && 0 <= i < self.buckets()[f].len()
                    implies (#[trigger] self.buckets()[f][i]).flag@ == f by {
                if f != rule.flag@ {
                    assert(self.buckets()[f] == m0[f]);
                } else if m0.contains_key(f) && i < m0[f].len() {
                    assert(self.buckets()[f][i] == m0[f][i]);
                }
            }
        }
    }

    /// Adds `rules` one after another, as `add_rule` does.
    pub fn add_rules(&mut self, rules: Vec<AffixRule>)
        requires
            old(self).wf(),
        ensures
            final(self).wf(),
            final(self).buckets() == with_rules(old(self).buckets(), rules@),
    {
        let mut rules = rules;
        let ghost all = rules@;
        let ghost k: int = 0;
        while rules.len() > 0
            invariant
                self.wf(),
                0 <= k <= all.len(),
                rules@ == all.subrange(k, all.len() as int),
                self.buckets() == with_rules(old(self).buckets(), all.subrange(0, k)),
            decreases rules@.len(),
        {
            let rule = rules.remove(0);
            self.add_rule(rule);
            proof {
                assert(all.subrange(0, k + 1).drop_last() =~= all.subrange(0, k));
                assert(all[k] == rule);
                k = k + 1;
                assert(rules@ =~= all.subrange(k, all.len() as int));
            }
        }
        proof {
            assert(all.subrange(0, k) =~= all);
        }
    }

    /// Appends to `base_words` every base that a stored rule gives for `word`,
    /// bucket after bucket in the map's order; where `base_words` is still empty
    /// after that, appends `word` itself.
    pub fn find_base_words_into(&self, word: &str, base_words: &mut CandidateBuf)
        requires
            self.wf(),
        ensures
            exists|ks: Seq<Seq<char>>|
                ks.no_duplicates() && ks.to_set() == self.buckets().dom() && candidate_texts(
                    *final(base_words),
                ) == or_self(
                    candidate_texts(*old(base_words)) + rules_bases(
                        flatten_rules(#[trigger] bucket_list(self.buckets(), ks)),
                        word@,
                    ),
                    word@,
                ),
            exists|found: Seq<Seq<char>>|
                (forall|b: Seq<char>| #[trigger] found.contains(b) <==> derives(self.buckets(), word@, b))
                    && candidate_texts(*final(base_words)) == or_self(
                    candidate_texts(*old(base_words)) + found,
                    word@,
                ),
    {
        let ghost m = self.buckets();
        let flags = bucket_flags(&self.rules);
        let ghost ks = texts_of(flags@);
        let ghost bs = ks.map_values(|f: Seq<char>| m[f]);
        let mut b: usize = 0;
        while b < flags.len()
            invariant
                m == self.buckets(),
                ks == texts_of(flags@),
                bs == ks.map_values(|f: Seq<char>| m[f]),
                ks.to_set() == m.dom(),
                b <= flags@.len(),
                candidate_texts(*base_words) == candidate_texts(*old(base_words)) + rules_bases(
                    flatten_rules(bs.subrange(0, b as int)),
                    word@,
                ),
            decreases flags@.len() - b,
        {
            proof {
                assert(ks.contains(ks[b as int]));
                assert(ks[b as int] == flags@[b as int]@);
            }
            push_bucket_bases(&self.rules, &flags[b], word, base_words);
            proof {
                let sub = bs.subrange(0, b + 1);
                assert(sub =~= bs.subrange(0, b as int).push(m[ks[b as int]]));
                lemma_flatten_push(bs.subrange(0, b as int), m[ks[b as int]]);
                let f = flatten_rules(bs.subrange(0, b as int));
                lemma_rules_bases_concat(f, m[ks[b as int]], word@);
                assert(candidate_texts(*old(base_words)) + rules_bases(f, word@) + rules_bases(
                    m[ks[b as int]],
                    word@,
                ) =~= candidate_texts(*old(base_words)) + (rules_bases(f, word@) + rules_bases(
                    m[ks[b as int]],
                    word@,
                )));
            }
            b = b + 1;
        }
        let ghost found = rules_bases(flatten_rules(bs), word@);
        proof {
            assert(bs.subrange(0, bs.len() as int) =~= bs);
            assert forall|x: Seq<char>| #[trigger] found.contains(x) <==> derives(m, word@, x) by {
                lemma_flatten_contains(bs, word@, x);
                if found.contains(x) {
                    let k = choose|k: int| #[trigger] bucket_gives(bs, k, word@, x);
                    let i = choose|i: int| #[trigger] rule_gives(bs[k], i, word@, x);
                    assert(ks.contains(ks[k]));
                    assert(m.contains_key(ks[k]));
                    assert(rule_gives(m[ks[k]], i, word@, x));
                }
                if derives(m, word@, x) {
                    let (f, i) = choose|f: Seq<char>, i: int|
                        m.contains_key(f) && #[trigger] rule_gives(m[f], i, word@, x);
                    assert(ks.to_set().contains(f));
                    let k = choose|k: int| 0 <= k < ks.len() && ks[k] == f;
                    assert(bs[k] == m[f]);
                    assert(bucket_gives(bs, k, word@, x));
                }
            }
        }
        if candidate_count(base_words) == 0 {
            let own = String::from_str(word);
            proof {
                assert(candidate_texts(*base_words) =~= Seq::<Seq<char>>::empty());
                assert(Seq::<Seq<char>>::empty().push(word@) =~= seq![word@]);
            }
            push_candidate(base_words, own);
        }
        proof {
            assert(bucket_list(m, ks) == bs);
        }
    }

    /// The candidate bases of `word` as a set: each base that a stored rule
    /// gives, or `word` itself where no rule gives one.
    pub fn find_base_words(&self, word: &str) -> (r: BaseWordSet)
        requires
            self.wf(),
        ensures
            forall|x: Seq<char>|
                #[trigger] set_texts(r).contains(x) <==> is_candidate(self.buckets(), word@, x),
    {
        let mut temp = new_candidates();
        self.find_base_words_into(word, &mut temp);
        let ghost cands = candidate_texts(temp);
        proof {
            let found = choose|found: Seq<Seq<char>>|
                (forall|b: Seq<char>| #[trigger] found.contains(b) <==> derives(self.buckets(), word@, b))
                    && cands == or_self(Seq::<Seq<char>>::empty() + found, word@);
            assert(Seq::<Seq<char>>::empty() + found =~= found);
            assert forall|x: Seq<char>| cands.contains(x) <==> is_candidate(self.buckets(), word@, x) by {
                if found.len() == 0 {
                    assert(cands == seq![word@]);
                    if exists|b: Seq<char>| derives(self.buckets(), word@, b) {
                        let b = choose|b: Seq<char>| derives(self.buckets(), word@, b);
                        assert(found.contains(b));
                    }
                    if cands.contains(x) {
                        assert(cands[0] == word@);
                    }
                    if x == word@ {
                        assert(cands[0] == x);
                    }
                } else {
                    assert(found.contains(found[0]));
                }
            }
        }
        let n = candidate_count(&temp);
        let mut result = new_base_set();
        let mut i: usize = 0;
        while i < n
            invariant
                i <= n,
                n == cands.len(),
                cands == candidate_texts(temp),
                forall|x: Seq<char>|
                    set_texts(result).contains(x) <==> cands.subrange(0, i as int).contains(x),
            decreases n - i,
        {
            let item = candidate_at(&temp, i);
            let ghost prev = set_texts(result);
            insert_base(&mut result, item.clone());
            proof {
                let t = cands;
                assert(t.subrange(0, i + 1) =~= t.subrange(0, i as int).push(t[i as int]));
                assert forall|x: Seq<char>|
                    set_texts(result).contains(x) <==> t.subrange(0, i + 1).contains(x) by {
                    if x == t[i as int] {
                        assert(t.subrange(0, i + 1)[i as int] == x);
                    } else {
                        if prev.contains(x) {
                            let j = choose|j: int| 0 <= j < i && #[trigger] t.subrange(0, i as int)[j] == x;
                            assert(t.subrange(0, i + 1)[j] == x);
                        }
                        if t.subrange(0, i + 1).contains(x) {
                            let j = choose|j: int| 0 <= j <= i && #[trigger] t.subrange(0, i + 1)[j] == x;
                            assert(t.subrange(0, i as int)[j] == x);
                        }
                    }
                }
            }
            i = i + 1;
        }
        proof {
            assert(cands.subrange(0, cands.len() as int) =~= cands);
        }
        result
    }
}

/// What adding `rs` one after another makes of `m`.
pub open spec fn with_rules(m: Map<Seq<char>, Seq<AffixRule>>, rs: Seq<AffixRule>) -> Map<
    Seq<char>,
    Seq<AffixRule>,
>
    decreases rs.len(),
{
    if rs.len() == 0 {
        m
    } else {
        with_rule(with_rules(m, rs.drop_last()), rs.last())
    }
}

/// An entry whose strip is `0`, matched at the start of `w`, takes off exactly
/// the characters of `add` and no more.
pub proof fn lemma_zero_strip_prefix(e: AffixEntry, w: Seq<char>)
    requires
        e.strip@ == seq!['0'],
        is_prefix(e.add@, w),
    ensures
        entry_base(pfx_tag(), e, w) == Some(w.subrange(e.add@.len() as int, w.len() as int)),
        entry_base(pfx_tag(), e, w).unwrap().len() == w.len() - e.add@.len(),
{
}

/// An entry whose strip is `0`, matched at the end of `w`, takes off exactly
/// the characters of `add` and no more.
pub proof fn lemma_zero_strip_suffix(e: AffixEntry, w: Seq<char>)
    requires
        e.strip@ == seq!['0'],
        is_suffix(e.add@, w),
    ensures
        entry_base(sfx_tag(), e, w) == Some(w.subrange(0, w.len() - e.add@.len())),
        entry_base(sfx_tag(), e, w).unwrap().len() == w.len() - e.add@.len(),
{
    assert(pfx_tag()[0] != sfx_tag()[0]);
}

} // verus!
