use vstd::prelude::*;

use lasso::{Key, Rodeo, Spur};
use rayon::iter::{IntoParallelRefIterator, ParallelIterator};

use crate::affix_rules::{derives, or_self, with_rules, AffixRule, AffixRules};
use crate::answer_cache::{
    cache_entries, cache_get, cache_insert, cache_remove, cache_size, first_keys, new_cache,
    AnswerCache,
};
use crate::candidates::{
    candidate_at, candidate_count, candidate_texts, new_candidates, CandidateBuf,
};
use crate::dictionary_loader::{
    affix_parse, count_value, heads_upto, opt_texts, rule_view, DictionaryLoader, LoadError,
};
use crate::rule_map::no_buckets;
use crate::text::texts_of;
use crate::trie::Trie;

verus! {

/// How many answers the cache holds at most.
pub const WORD_CHECK_CACHE_SIZE: usize = 10000;

/// The share of the cache, in percent, dropped when it is full.
pub const CACHE_EVICTION_PERCENTAGE: usize = 10;

/// From this many candidate bases on, they are looked up in parallel.
pub const PARALLEL_MIN_CANDIDATES: usize = 4;

#[verifier::external_type_specification]
#[verifier::external_body]
#[verifier::reject_recursive_types(K)]
#[verifier::reject_recursive_types(S)]
pub struct ExRodeo<K, S>(Rodeo<K, S>);

#[verifier::external_type_specification]
#[verifier::external_body]
pub struct ExSpur(Spur);

/// What `str::to_lowercase` makes of a text.
pub uninterp spec fn lower_of(s: Seq<char>) -> Seq<char>;

/// The strings that an interner holds, each at the position that its key stands for.
pub uninterp spec fn interned_strings(r: Rodeo) -> Seq<Seq<char>>;

/// Relies on `str::to_lowercase`: the result depends on the characters alone.
#[verifier::external_body]
fn lowercase(s: &str) -> (r: String)
    ensures
        r@ == lower_of(s@),
{
    s.to_lowercase()
}

/// Relies on `lasso::Rodeo::new`: a new interner holds no strings.
#[verifier::external_body]
fn new_interner() -> (r: Rodeo)
    ensures
        interned_strings(r) == Seq::<Seq<char>>::empty(),
{
    Rodeo::new()
}

/// Relies on `lasso::Rodeo::try_get_or_intern`: a string already held keeps its
/// key; a new one is appended and gets the key of its position; only a new
/// string can fail (no key left, or the memory limit reached), and then nothing
/// is added. `Key::into_usize` on a `Spur` gives that position back.
#[verifier::external_body]
fn intern(r: &mut Rodeo, s: &str) -> (k: Option<usize>)
    ensures
        match k {
            Some(i) => {
                &&& interned_strings(*final(r)) == if interned_strings(*old(r)).contains(s@) {
                    interned_strings(*old(r))
                } else {
                    interned_strings(*old(r)).push(s@)
                }
                &&& i < interned_strings(*final(r)).len()
                &&& interned_strings(*final(r))[i as int] == s@
            },
            None => interned_strings(*final(r)) == interned_strings(*old(r)) && !interned_strings(
                *old(r),
            ).contains(s@),
        },
{
    match r.try_get_or_intern(s) {
        Ok(key) => Some(key.into_usize()),
        Err(_) => None,
    }
}

/// Whether some of `cands` is in `words`.
pub open spec fn some_known(words: Set<Seq<char>>, cands: Seq<Seq<char>>) -> bool {
    exists|i: int| 0 <= i < cands.len() && words.contains(#[trigger] cands[i])
}

/// Relies on rayon's `ParallelIterator::any`: true exactly when the predicate,
/// here `Trie::search`, holds for at least one item.
#[verifier::external_body]
fn any_known_parallel(trie: &Trie, candidates: &CandidateBuf) -> (r: bool)
    requires
        trie.wf(),
    ensures
        r == some_known(trie@, candidate_texts(*candidates)),
{
    candidates.items.as_slice().par_iter().any(|b| trie.search(b.as_str()))
}

/// Whether some candidate is a word of `trie`, looked up one after another.
fn any_known(trie: &Trie, candidates: &CandidateBuf) -> (r: bool)
    requires
        trie.wf(),
    ensures
        r == some_known(trie@, candidate_texts(*candidates)),
{
    let ghost cands = candidate_texts(*candidates);
    let n = candidate_count(candidates);
    let mut i: usize = 0;
    while i < n
        invariant
            trie.wf(),
            cands == candidate_texts(*candidates),
            n == cands.len(),
            i <= n,
            forall|k: int| 0 <= k < i ==> !trie@.contains(#[trigger] cands[k]),
        decreases n - i,
    {
        if trie.search(candidate_at(candidates, i).as_str()) {
            return true;
        }
        i = i + 1;
    }
    false
}

/// Whether `w` is a word, or some rule of `rules` gives a base of `w` that is.
pub open spec fn known_or_derived(
    words: Set<Seq<char>>,
    rules: Map<Seq<char>, Seq<AffixRule>>,
    w: Seq<char>,
) -> bool {
    words.contains(w) || exists|b: Seq<char>| #[trigger] derives(rules, w, b) && words.contains(b)
}

/// A spell checker over a word set and affix rules, with a bounded cache of
/// answers keyed by the interned lowercase word.
pub struct SpellChecker {
    trie: Trie,
    affix_rules: AffixRules,
    string_interner: Rodeo,
    word_check_cache: AnswerCache,
    word_check_cache_size: usize,
}

impl SpellChecker {
    /// The words of the dictionary.
    pub closed spec fn words(&self) -> Set<Seq<char>> {
        self.trie@
    }

    /// The affix rules, by flag.
    pub closed spec fn rules(&self) -> Map<Seq<char>, Seq<AffixRule>> {
        self.affix_rules.buckets()
    }

    /// The answer that `check(w)` owes.
    pub open spec fn answer(&self, w: Seq<char>) -> bool {
        known_or_derived(self.words(), self.rules(), lower_of(w))
    }

    /// How many answers the cache holds.
    pub closed spec fn cache_count(&self) -> nat {
        cache_entries(self.word_check_cache).len()
    }

    /// The lowercase words interned so far, each at the position of its key.
    pub closed spec fn interned(&self) -> Seq<Seq<char>> {
        interned_strings(self.string_interner)
    }

    /// The cached answers, by key.
    pub closed spec fn answers(&self) -> Map<usize, bool> {
        cache_entries(self.word_check_cache)
    }

    /// The cache holds an answer for the lowercase word `w`.
    pub closed spec fn holds_answer(&self, w: Seq<char>) -> bool {
        exists|k: usize|
            k < interned_strings(self.string_interner).len() && interned_strings(
                self.string_interner,
            )[k as int] == w && #[trigger] cache_entries(self.word_check_cache).contains_key(k)
    }

    pub closed spec fn wf(&self) -> bool {
        &&& self.trie.wf()
        &&& interned_strings(self.string_interner).no_duplicates()
        &&& self.affix_rules.wf()
        &&& self.word_check_cache_size == WORD_CHECK_CACHE_SIZE
        &&& cache_entries(self.word_check_cache).dom().finite()
        &&& cache_entries(self.word_check_cache).len() <= self.word_check_cache_size
        &&& forall|k: usize| #[trigger]
            cache_entries(self.word_check_cache).contains_key(k) ==> k < interned_strings(
                self.string_interner,
            ).len() && cache_entries(self.word_check_cache)[k] == known_or_derived(
                self.trie@,
                self.affix_rules.buckets(),
                interned_strings(self.string_interner)[k as int],
            )
    }

    /// A checker over `trie` and `affix_rules`, with an empty cache.
    pub fn from_parts(trie: Trie, affix_rules: AffixRules) -> (r: SpellChecker)
        requires
            trie.wf(),
            affix_rules.wf(),
        ensures
            r.wf(),
            r.words() == trie@,
            r.rules() == affix_rules.buckets(),
            r.cache_count() == 0,
    {
        let r = SpellChecker {
            trie,
            affix_rules,
            string_interner: new_interner(),
            word_check_cache: new_cache(),
            word_check_cache_size: WORD_CHECK_CACHE_SIZE,
        };
        proof {
            assert(cache_entries(r.word_check_cache).dom() =~= Set::<usize>::empty());
        }
        r
    }

    /// A checker built from the lines of a word list and of an affix file.
    /// Fails as the word list does; the words of the list make up the
    /// dictionary.
    pub fn from_lines(dic_lines: &Vec<Option<String>>, aff_lines: &Vec<String>) -> (r: Result<
        SpellChecker,
        LoadError,
    >)
        ensures
            dic_lines@.len() == 0 ==> r == Err::<SpellChecker, LoadError>(LoadError::MissingCount),
            dic_lines@.len() > 0 && opt_texts(dic_lines@)[0] is None ==> r == Err::<
                SpellChecker,
                LoadError,
            >(LoadError::UnreadableCount),
            dic_lines@.len() > 0 && opt_texts(dic_lines@)[0] is Some && count_value(
                opt_texts(dic_lines@)[0]->Some_0,
            ).is_none() ==> r == Err::<SpellChecker, LoadError>(LoadError::InvalidCount),
            dic_lines@.len() > 0 && opt_texts(dic_lines@)[0] is Some && count_value(
                opt_texts(dic_lines@)[0]->Some_0,
            ).is_some() ==> {
                let n = count_value(opt_texts(dic_lines@)[0]->Some_0).unwrap();
                let read = if n < dic_lines@.len() - 1 {
                    n
                } else {
                    dic_lines@.len() - 1
                };
                &&& r is Ok
                &&& r->Ok_0.wf()
                &&& r->Ok_0.words() == heads_upto(opt_texts(dic_lines@), read + 1)
                &&& r->Ok_0.cache_count() == 0
                &&& exists|p: Seq<AffixRule>|
                    p.map_values(|x: AffixRule| rule_view(x)) == affix_parse(
                        texts_of(aff_lines@),
                        aff_lines@.len() as int,
                    ).1 && r->Ok_0.rules() == #[trigger] with_rules(no_buckets(), p)
            },
    {
        let mut trie = Trie::new();
        match DictionaryLoader::read_dictionary(dic_lines, &mut trie) {
            Ok(_) => {},
            Err(e) => {
                return Err(e);
            },
        }
        proof {
            assert(Set::<Seq<char>>::empty().union(heads_upto(opt_texts(dic_lines@), 0)) =~= Set::<
                Seq<char>,
            >::empty());
        }
        let rules = DictionaryLoader::parse_affix_rules(aff_lines);
        let mut store = AffixRules::new();
        store.add_rules(rules);
        Ok(SpellChecker::from_parts(trie, store))
    }

    /// How many answers the cache holds.
    pub fn cache_len(&self) -> (r: usize)
        requires
            self.wf(),
        ensures
            r == self.cache_count(),
    {
        cache_size(&self.word_check_cache)
    }

    /// The most answers the cache holds.
    pub fn cache_capacity(&self) -> (r: usize)
        requires
            self.wf(),
        ensures
            r == WORD_CHECK_CACHE_SIZE,
    {
        self.word_check_cache_size
    }

    /// Stores `result` as the answer for key `id`; when the cache is full, first
    /// drops a tenth of it: the first keys in the map's own order, whichever
    /// those are.
    fn cache_word_check(&mut self, id: usize, result: bool)
        requires
            old(self).wf(),
            id < interned_strings(old(self).string_interner).len(),
            result == known_or_derived(
                old(self).trie@,
                old(self).affix_rules.buckets(),
                interned_strings(old(self).string_interner)[id as int],
            ),
            !cache_entries(old(self).word_check_cache).contains_key(id),
        ensures
            final(self).wf(),
            final(self).trie == old(self).trie,
            final(self).affix_rules == old(self).affix_rules,
            final(self).string_interner == old(self).string_interner,
            cache_entries(final(self).word_check_cache).contains_key(id),
            cache_entries(final(self).word_check_cache)[id] == result,
            cache_entries(old(self).word_check_cache).len() < WORD_CHECK_CACHE_SIZE ==> cache_entries(
                final(self).word_check_cache,
            ) == cache_entries(old(self).word_check_cache).insert(id, result),
            cache_entries(old(self).word_check_cache).len() >= WORD_CHECK_CACHE_SIZE ==> cache_entries(
                final(self).word_check_cache,
            ).len() == cache_entries(old(self).word_check_cache).len() - WORD_CHECK_CACHE_SIZE
                * CACHE_EVICTION_PERCENTAGE / 100 + 1,
            forall|k: usize| #[trigger]
                cache_entries(final(self).word_check_cache).contains_key(k) ==> cache_entries(
                    old(self).word_check_cache,
                ).insert(id, result).contains_key(k) && cache_entries(final(self).word_check_cache)[k]
                    == cache_entries(old(self).word_check_cache).insert(id, result)[k],
    {
        if cache_size(&self.word_check_cache) >= self.word_check_cache_size {
            let to_remove: usize = self.word_check_cache_size * CACHE_EVICTION_PERCENTAGE / 100;
            let keys = first_keys(&self.word_check_cache, to_remove);
            let ghost m0 = cache_entries(self.word_check_cache);
            let mut i: usize = 0;
            while i < keys.len()
                invariant
                    keys@.no_duplicates(),
                    keys@.len() == to_remove,
                    to_remove == 1000,
                    m0.len() == WORD_CHECK_CACHE_SIZE,
                    i <= keys@.len(),
                    cache_entries(self.word_check_cache).dom().finite(),
                    cache_entries(self.word_check_cache).len() == m0.len() - i,
                    forall|x: usize| #[trigger]
                        cache_entries(self.word_check_cache).contains_key(x) ==> m0.contains_key(x)
                            && cache_entries(self.word_check_cache)[x] == m0[x],
                    forall|j: int|
                        i <= j < keys@.len() ==> cache_entries(self.word_check_cache).contains_key(
                            #[trigger] keys@[j],
                        ),
                    !m0.contains_key(id),
                    self.trie == old(self).trie,
                    self.affix_rules == old(self).affix_rules,
                    self.string_interner == old(self).string_interner,
                    self.word_check_cache_size == WORD_CHECK_CACHE_SIZE,
                decreases keys@.len() - i,
            {
                let key = keys[i];
                cache_remove(&mut self.word_check_cache, key);
                proof {
                    assert forall|j: int| i + 1 <= j < keys@.len() implies cache_entries(
                        self.word_check_cache,
                    ).contains_key(#[trigger] keys@[j]) by {
                        assert(keys@[j] != keys@[i as int]);
                    }
                }
                i = i + 1;
            }
        }
        cache_insert(&mut self.word_check_cache, id, result);
    }

    /// Whether `word`, lowercased, is a word of the dictionary or derives from
    /// one by an affix rule. The answer is cached under the word's interned key;
    /// the dictionary and the rules are left as they are.
    pub fn check(&mut self, word: &str) -> (r: bool)
        requires
            old(self).wf(),
        ensures
            final(self).wf(),
            r == old(self).answer(word@),
            final(self).words() == old(self).words(),
            final(self).rules() == old(self).rules(),
            final(self).cache_count() <= WORD_CHECK_CACHE_SIZE,
            final(self).holds_answer(lower_of(word@)) || final(self).interned() == old(
                self,
            ).interned(),
            old(self).holds_answer(lower_of(word@)) ==> final(self).answers() == old(self).answers()
                && final(self).interned() == old(self).interned(),
            final(self).interned().no_duplicates(),
            final(self).interned().contains(lower_of(word@)) ==> final(self).holds_answer(
                lower_of(word@),
            ),
            old(self).interned().contains(lower_of(word@)) ==> final(self).interned().contains(
                lower_of(word@),
            ),
            old(self).interned().len() <= final(self).interned().len(),
            final(self).interned().subrange(0, old(self).interned().len() as int) == old(
                self,
            ).interned(),
            forall|k: usize| #[trigger]
                final(self).answers().contains_key(k) ==> old(self).answers().contains_key(k) || (k
                    < final(self).interned().len() && final(self).interned()[k as int] == lower_of(
                    word@,
                )),
            forall|k: usize| #[trigger]
                final(self).answers().contains_key(k) && old(self).answers().contains_key(k)
                    ==> final(self).answers()[k] == old(self).answers()[k],
            forall|k: usize| #[trigger]
                final(self).answers().contains_key(k) ==> k < final(self).interned().len()
                    && final(self).answers()[k] == known_or_derived(
                    final(self).words(),
                    final(self).rules(),
                    final(self).interned()[k as int],
                ),
            forall|k: usize| #[trigger]
                final(self).answers().contains_key(k) && k < final(self).interned().len()
                    && final(self).interned()[k as int] == lower_of(word@) ==> final(self).answers()[k]
                    == r,
    {
        let word_lower = lowercase(word);
        let ghost strs0 = interned_strings(self.string_interner);
        let word_id = intern(&mut self.string_interner, word_lower.as_str());
        proof {
            let strs = interned_strings(self.string_interner);
            assert forall|k: usize| k < strs0.len() implies strs[k as int] == strs0[k as int] by {}
            assert(strs.subrange(0, strs0.len() as int) =~= strs0);
            if word_id.is_some() && !strs0.contains(word_lower@) {
                assert forall|a: int, b: int|
                    0 <= a < strs.len() && 0 <= b < strs.len() && a != b implies strs[a] != strs[b] by {
                    if a == strs0.len() as int {
                        assert(strs0[b] == strs[b]);
                    } else if b == strs0.len() as int {
                        assert(strs0[a] == strs[a]);
                    }
                }
            }
            if old(self).holds_answer(word_lower@) {
                let k0 = choose|k: usize|
                    k < strs0.len() && strs0[k as int] == word_lower@ && #[trigger] cache_entries(
                        self.word_check_cache,
                    ).contains_key(k);
                assert(strs0.contains(word_lower@)) by {
                    assert(strs0[k0 as int] == word_lower@);
                }
                if let Some(k) = word_id {
                    assert(strs0[k as int] == strs0[k0 as int]);
                    assert(k == k0);
                }
            }
            assert forall|k: usize| #[trigger]
                cache_entries(self.word_check_cache).contains_key(k) implies k < strs.len()
                    && cache_entries(self.word_check_cache)[k] == known_or_derived(
                    self.trie@,
                    self.affix_rules.buckets(),
                    strs[k as int],
                ) by {
                if cache_entries(self.word_check_cache).contains_key(k) {
                    assert(strs[k as int] == strs0[k as int]);
                }
            }
        }
        match word_id {
            Some(k) => {
                match cache_get(&self.word_check_cache, k) {
                    Some(cached) => {
                        proof {
                            assert(self.holds_answer(word_lower@)) by {
                                assert(interned_strings(self.string_interner)[k as int] == word_lower@);
                            }
                        }
                        return cached;
                    },
                    None => {},
                }
            },
            None => {},
        }
        if self.trie.search(word_lower.as_str()) {
            match word_id {
                Some(k) => {
                    self.cache_word_check(k, true);
                    proof {
                        assert(interned_strings(self.string_interner)[k as int] == word_lower@);
                    }
                },
                None => {},
            }
            return true;
        }
        let mut base_words = new_candidates();
        self.affix_rules.find_base_words_into(word_lower.as_str(), &mut base_words);
        let result = if candidate_count(&base_words) < PARALLEL_MIN_CANDIDATES {
            any_known(&self.trie, &base_words)
        } else {
            any_known_parallel(&self.trie, &base_words)
        };
        proof {
            let m = self.affix_rules.buckets();
            let w = word_lower@;
            let cands = candidate_texts(base_words);
            let found = choose|found: Seq<Seq<char>>|
                (forall|b: Seq<char>| #[trigger] found.contains(b) <==> derives(m, w, b)) && cands
                    == or_self(Seq::<Seq<char>>::empty() + found, w);
            assert(Seq::<Seq<char>>::empty() + found =~= found);
            if result {
                let i = choose|i: int| 0 <= i < cands.len() && self.trie@.contains(#[trigger] cands[i]);
                if found.len() == 0 {
                    assert(cands[i] == w);
                } else {
                    assert(found.contains(cands[i]));
                    assert(derives(m, w, cands[i]));
                }
            }
            if exists|b: Seq<char>| #[trigger] derives(m, w, b) && self.trie@.contains(b) {
                let b = choose|b: Seq<char>| #[trigger] derives(m, w, b) && self.trie@.contains(b);
                assert(found.contains(b));
                let i = choose|i: int| 0 <= i < found.len() && found[i] == b;
                assert(cands[i] == b);
            }
        }
        match word_id {
            Some(k) => {
                self.cache_word_check(k, result);
                proof {
                    assert(interned_strings(self.string_interner)[k as int] == word_lower@);
                }
            },
            None => {},
        }
        result
    }
}

/// Checking a word a second time gives the answer of the first time: `check`
/// answers from the words and rules alone and leaves both as they were.
pub proof fn lemma_check_repeatable(first: SpellChecker, second: SpellChecker, w: Seq<char>)
    requires
        second.words() == first.words(),
        second.rules() == first.rules(),
    ensures
        second.answer(w) == first.answer(w),
{
}

/// Two texts that lowercase alike get the same answer.
pub proof fn lemma_same_lowercase_same_answer(s: SpellChecker, a: Seq<char>, b: Seq<char>)
    requires
        lower_of(a) == lower_of(b),
    ensures
        s.answer(a) == s.answer(b),
{
}

/// A well-formed checker never holds more answers than its capacity.
pub proof fn lemma_cache_bounded(s: SpellChecker)
    requires
        s.wf(),
    ensures
        s.cache_count() <= WORD_CHECK_CACHE_SIZE,
{
}

} // verus!
