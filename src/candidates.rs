use vstd::prelude::*;

use rustc_hash::FxHashSet;
use smallvec::SmallVec;

verus! {

/// Candidate words held inline up to four, so that the usual handful needs no
/// heap allocation.
#[verifier::external_body]
pub struct CandidateBuf {
    pub(crate) items: SmallVec<[String; 4]>,
}

/// The texts that a candidate buffer holds, in order.
pub uninterp spec fn candidate_texts(v: CandidateBuf) -> Seq<Seq<char>>;

/// Relies on `smallvec::SmallVec::new`: a new buffer is empty.
#[verifier::external_body]
pub(crate) fn new_candidates() -> (r: CandidateBuf)
    ensures
        candidate_texts(r) == Seq::<Seq<char>>::empty(),
{
    CandidateBuf { items: SmallVec::new() }
}

/// Relies on `smallvec::SmallVec::push`: the item is appended at the end.
#[verifier::external_body]
pub(crate) fn push_candidate(v: &mut CandidateBuf, s: String)
    ensures
        candidate_texts(*final(v)) == candidate_texts(*old(v)).push(s@),
{
    v.items.push(s)
}

/// Relies on `smallvec::SmallVec::len`: the number of items held.
#[verifier::external_body]
pub(crate) fn candidate_count(v: &CandidateBuf) -> (r: usize)
    ensures
        r == candidate_texts(*v).len(),
{
    v.items.len()
}

/// Relies on `smallvec::SmallVec::as_slice`: the items held, in order; here the
/// one at position `i`.
#[verifier::external_body]
pub(crate) fn candidate_at(v: &CandidateBuf, i: usize) -> (r: &String)
    requires
        i < candidate_texts(*v).len(),
    ensures
        r@ == candidate_texts(*v)[i as int],
{
    &v.items.as_slice()[i]
}

impl CandidateBuf {
    /// An empty buffer.
    pub fn new() -> (r: CandidateBuf)
        ensures
            candidate_texts(r) == Seq::<Seq<char>>::empty(),
    {
        new_candidates()
    }

    /// Appends `s` at the end.
    pub fn push(&mut self, s: String)
        ensures
            candidate_texts(*final(self)) == candidate_texts(*old(self)).push(s@),
    {
        push_candidate(self, s)
    }

    /// How many candidates the buffer holds.
    pub fn len(&self) -> (r: usize)
        ensures
            r == candidate_texts(*self).len(),
    {
        candidate_count(self)
    }

    /// The candidates, in order, as a vector.
    pub fn to_vec(&self) -> (r: Vec<String>)
        ensures
            r@.map_values(|s: String| s@) == candidate_texts(*self),
    {
        let n = candidate_count(self);
        let mut out: Vec<String> = Vec::new();
        let mut i: usize = 0;
        while i < n
            invariant
                n == candidate_texts(*self).len(),
                i <= n,
                out@.map_values(|s: String| s@) == candidate_texts(*self).subrange(0, i as int),
            decreases n - i,
        {
            let s = candidate_at(self, i);
            let c = s.clone();
            proof {
                assert(c@ == candidate_texts(*self)[i as int]);
                assert(out@.map_values(|s: String| s@).len() == i);
                assert(out@.push(c).map_values(|s: String| s@) =~= candidate_texts(*self).subrange(
                    0,
                    i + 1,
                ));
            }
            out.push(c);
            i = i + 1;
        }
        proof {
            assert(candidate_texts(*self).subrange(0, n as int) =~= candidate_texts(*self));
        }
        out
    }
}

/// A set of candidate base words, hashed with rustc_hash's Fx hasher.
#[verifier::external_body]
pub struct BaseWordSet {
    items: FxHashSet<String>,
}

/// The texts that a set of base words holds.
pub uninterp spec fn set_texts(s: BaseWordSet) -> Set<Seq<char>>;

/// Relies on `HashSet::default` with rustc_hash's `FxBuildHasher`: a new set
/// is empty.
#[verifier::external_body]
pub(crate) fn new_base_set() -> (r: BaseWordSet)
    ensures
        set_texts(r) == Set::<Seq<char>>::empty(),
{
    BaseWordSet { items: FxHashSet::default() }
}

/// Relies on `HashSet::insert`: the text is held afterwards, the rest is kept.
#[verifier::external_body]
pub(crate) fn insert_base(s: &mut BaseWordSet, w: String)
    ensures
        set_texts(*final(s)) == set_texts(*old(s)).insert(w@),
{
    s.items.insert(w);
}

/// Relies on `HashSet::len`: the number of texts held.
#[verifier::external_body]
pub(crate) fn base_count(s: &BaseWordSet) -> (r: usize)
    ensures
        r == set_texts(*s).len(),
{
    s.items.len()
}

/// Relies on `HashSet::contains`: whether `w` is held.
#[verifier::external_body]
pub(crate) fn base_contains(s: &BaseWordSet, w: &str) -> (r: bool)
    ensures
        r == set_texts(*s).contains(w@),
{
    s.items.contains(w)
}

impl BaseWordSet {
    /// How many distinct texts the set holds.
    pub fn len(&self) -> (r: usize)
        ensures
            r == set_texts(*self).len(),
    {
        base_count(self)
    }

    /// Whether the set holds `w`.
    pub fn contains(&self, w: &str) -> (r: bool)
        ensures
            r == set_texts(*self).contains(w@),
    {
        base_contains(self, w)
    }
}

} // verus!
