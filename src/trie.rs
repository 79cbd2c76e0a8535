use vstd::prelude::*;

verus! {

/// One node of the prefix tree: the characters that continue the path here,
/// each with the index of its child node, and whether a word ends here.
pub struct TrieNode {
    pub children: Vec<(char, usize)>,
    pub is_end_of_word: bool,
}

impl TrieNode {
    pub fn new() -> (r: TrieNode)
        ensures
            r.children@.len() == 0,
            !r.is_end_of_word,
    {
        TrieNode { children: Vec::new(), is_end_of_word: false }
    }
}

/// A set of words kept as a tree of nodes stored side by side in one vector;
/// node 0 is the root.
pub struct Trie {
    nodes: Vec<TrieNode>,
    /// The characters on the way from the root to each node.
    paths: Ghost<Seq<Seq<char>>>,
    /// The words inserted so far.
    words: Ghost<Set<Seq<char>>>,
}

pub open spec fn is_proper_prefix(p: Seq<char>, w: Seq<char>) -> bool {
    p.len() < w.len() && w.subrange(0, p.len() as int) == p
}

impl View for Trie {
    type V = Set<Seq<char>>;

    closed spec fn view(&self) -> Set<Seq<char>> {
        self.words@
    }
}

impl Trie {
    spec fn child_ok(&self, i: int, m: int) -> bool {
        let (c, j) = self.nodes@[i].children@[m];
        &&& j < self.nodes@.len()
        &&& self.paths@[j as int] == self.paths@[i].push(c)
    }

    spec fn has_parent(&self, j: int) -> bool {
        exists|i: int, m: int|
            0 <= i < self.nodes@.len() && 0 <= m < self.nodes@[i].children@.len()
                && #[trigger] self.nodes@[i].children@[m].1 == j as usize
    }

    /// The tree's invariant: children point forward to nodes whose path extends
    /// the parent's by the child's character, every node but the root hangs below
    /// a parent, paths are distinct, end marks match the word set, and every word
    /// can be followed from the root.
    pub closed spec fn wf(&self) -> bool {
        &&& self.nodes@.len() >= 1
        &&& self.paths@.len() == self.nodes@.len()
        &&& self.paths@[0] == Seq::<char>::empty()
        &&& forall|i: int, m: int|
            0 <= i < self.nodes@.len() && 0 <= m < self.nodes@[i].children@.len()
                ==> #[trigger] self.child_ok(i, m)
        &&& forall|j: int| 0 < j < self.nodes@.len() ==> #[trigger] self.has_parent(j)
        &&& forall|i: int, j: int|
            0 <= i < self.nodes@.len() && 0 <= j < self.nodes@.len() && i != j
                ==> #[trigger] self.paths@[i] != #[trigger] self.paths@[j]
        &&& forall|i: int|
            0 <= i < self.nodes@.len() ==> (#[trigger] self.nodes@[i]).is_end_of_word
                == self.words@.contains(self.paths@[i])
        &&& forall|i: int, w: Seq<char>|
            0 <= i < self.nodes@.len() && self.words@.contains(w) && #[trigger] is_proper_prefix(
                self.paths@[i],
                w,
            ) ==> exists|m: int|
                0 <= m < self.nodes@[i].children@.len() && #[trigger] self.nodes@[i].children@[m].0
                    == w[self.paths@[i].len() as int]
    }

    pub fn new() -> (r: Trie)
        ensures
            r.wf(),
            r@ == Set::<Seq<char>>::empty(),
    {
        let mut nodes: Vec<TrieNode> = Vec::new();
        nodes.push(TrieNode::new());
        let ghost paths = seq![Seq::<char>::empty()];
        Trie { nodes, paths: Ghost(paths), words: Ghost(Set::empty()) }
    }

    /// The child of node `cur` reached by `c`, if there is one.
    fn find_child(&self, cur: usize, c: char) -> (r: Option<usize>)
        requires
            self.wf(),
            cur < self.nodes@.len(),
        ensures
            match r {
                Some(j) => j < self.nodes@.len() && self.paths@[j as int]
                    == self.paths@[cur as int].push(c) && self.has_child_char(cur as int, c),
                None => forall|m: int|
                    0 <= m < self.nodes@[cur as int].children@.len()
                        ==> #[trigger] self.nodes@[cur as int].children@[m].0 != c,
            },
    {
        let children = &self.nodes[cur].children;
        let mut m: usize = 0;
        while m < children.len()
            invariant
                self.wf(),
                cur < self.nodes@.len(),
                children == &self.nodes@[cur as int].children,
                m <= children@.len(),
                forall|k: int| 0 <= k < m ==> #[trigger] children@[k].0 != c,
            decreases children@.len() - m,
        {
            let (d, j) = children[m];
            if d == c {
                proof {
                    assert(self.child_ok(cur as int, m as int));
                    assert(self.nodes@[cur as int].children@[m as int].0 == c);
                }
                return Some(j);
            }
            m = m + 1;
        }
        None
    }

    spec fn has_child_char(&self, a: int, c: char) -> bool {
        exists|m: int|
            0 <= m < self.nodes@[a].children@.len() && #[trigger] self.nodes@[a].children@[m].0 == c
    }

    /// Every node on the way to `w`, up to depth `k`, already has the child that
    /// `w` continues with.
    spec fn covers(&self, w: Seq<char>, k: int) -> bool {
        forall|a: int|
            0 <= a < self.nodes@.len() && #[trigger] is_proper_prefix(self.paths@[a], w)
                && self.paths@[a].len() < k ==> self.has_child_char(a, w[self.paths@[a].len() as int])
    }

    /// Hangs a new empty node below `cur`, reached by `c`, which `cur` did not have.
    fn add_child(&mut self, cur: usize, c: char)
        requires
            old(self).wf(),
            cur < old(self).nodes@.len(),
            forall|m: int|
                0 <= m < old(self).nodes@[cur as int].children@.len()
                    ==> #[trigger] old(self).nodes@[cur as int].children@[m].0 != c,
        ensures
            final(self).wf(),
            final(self).words@ == old(self).words@,
            final(self).nodes@.len() == old(self).nodes@.len() + 1,
            final(self).paths@ == old(self).paths@.push(old(self).paths@[cur as int].push(c)),
            final(self).has_child_char(cur as int, c),
            forall|a: int, m: int|
                0 <= a < old(self).nodes@.len() && 0 <= m < old(self).nodes@[a].children@.len()
                    ==> m < final(self).nodes@[a].children@.len()
                    && #[trigger] final(self).nodes@[a].children@[m] == old(self).nodes@[a].children@[m],
    {
        let ghost s0 = *old(self);
        let ghost p = s0.paths@[cur as int].push(c);
        let j = self.nodes.len();
        self.nodes.push(TrieNode::new());
        self.nodes[cur].children.push((c, j));
        self.paths = Ghost(self.paths@.push(p));
        proof {
            let len0 = s0.nodes@.len();
            assert(self.nodes@[cur as int].children@.last() == (c, j));
            assert forall|a: int, m: int|
                0 <= a < len0 && 0 <= m < s0.nodes@[a].children@.len() implies m
                < self.nodes@[a].children@.len() && #[trigger] self.nodes@[a].children@[m]
                == s0.nodes@[a].children@[m] by {}
            // no earlier node carries the new path
            assert forall|k: int| 0 <= k < len0 implies #[trigger] s0.paths@[k] != p by {
                if s0.paths@[k] == p {
                    assert(k != 0) by {
                        assert(p.len() > 0);
                    }
                    assert(s0.has_parent(k));
                    let (i, m) = choose|i: int, m: int|
                        0 <= i < len0 && 0 <= m < s0.nodes@[i].children@.len()
                            && #[trigger] s0.nodes@[i].children@[m].1 == k as usize;
                    assert(s0.child_ok(i, m));
                    let ch = s0.nodes@[i].children@[m].0;
                    assert(s0.paths@[i].push(ch) == p);
                    assert(s0.paths@[i] =~= p.drop_last());
                    assert(s0.paths@[cur as int] =~= p.drop_last());
                    assert(i == cur);
                    assert(ch == p.last());
                }
            }
            assert(!s0.words@.contains(p)) by {
                if s0.words@.contains(p) {
                    assert(p.subrange(0, s0.paths@[cur as int].len() as int) =~= s0.paths@[cur as int]);
                    assert(is_proper_prefix(s0.paths@[cur as int], p));
                }
            }
            assert forall|i: int, m: int|
                0 <= i < self.nodes@.len() && 0 <= m < self.nodes@[i].children@.len()
                    implies #[trigger] self.child_ok(i, m) by {
                if i < len0 && m < s0.nodes@[i].children@.len() {
                    assert(s0.child_ok(i, m));
                }
            }
            assert forall|k: int| 0 < k < self.nodes@.len() implies #[trigger] self.has_parent(k) by {
                if k == j {
                    let m = self.nodes@[cur as int].children@.len() - 1;
                    assert(self.nodes@[cur as int].children@[m].1 == k as usize);
                } else {
                    assert(s0.has_parent(k));
                    let (i, m) = choose|i: int, m: int|
                        0 <= i < len0 && 0 <= m < s0.nodes@[i].children@.len()
                            && #[trigger] s0.nodes@[i].children@[m].1 == k as usize;
                    assert(self.nodes@[i].children@[m].1 == k as usize);
                }
            }
            assert forall|i: int|
                0 <= i < self.nodes@.len() implies (#[trigger] self.nodes@[i]).is_end_of_word
                == self.words@.contains(self.paths@[i]) by {
                if i < len0 {
                    assert(s0.nodes@[i].is_end_of_word == s0.words@.contains(s0.paths@[i]));
                }
            }
            assert forall|i: int, w: Seq<char>|
                0 <= i < self.nodes@.len() && self.words@.contains(w) && #[trigger] is_proper_prefix(
                    self.paths@[i],
                    w,
                ) implies exists|m: int|
                    0 <= m < self.nodes@[i].children@.len() && #[trigger] self.nodes@[i].children@[m].0
                        == w[self.paths@[i].len() as int] by {
                if i < len0 {
                    let m = choose|m: int|
                        0 <= m < s0.nodes@[i].children@.len() && #[trigger] s0.nodes@[i].children@[m].0
                            == w[s0.paths@[i].len() as int];
                    assert(self.nodes@[i].children@[m] == s0.nodes@[i].children@[m]);
                } else {
                    let q = s0.paths@[cur as int];
                    assert(w.subrange(0, q.len() as int) =~= p.subrange(0, q.len() as int));
                    assert(p.subrange(0, q.len() as int) =~= q);
                    assert(is_proper_prefix(q, w));
                    assert(w[q.len() as int] == p[q.len() as int]);
                    let m = choose|m: int|
                        0 <= m < s0.nodes@[cur as int].children@.len()
                            && #[trigger] s0.nodes@[cur as int].children@[m].0 == w[q.len() as int];
                }
            }
            let m = self.nodes@[cur as int].children@.len() - 1;
            assert(self.nodes@[cur as int].children@[m].0 == c);
        }
    }

    /// Adds `word` to the set; inserting a word twice changes nothing.
    pub fn insert(&mut self, word: &str)
        requires
            old(self).wf(),
        ensures
            final(self).wf(),
            final(self)@ == old(self)@.insert(word@),
    {
        let n = word.unicode_len();
        let mut cur: usize = 0;
        let mut i: usize = 0;
        while i < n
            invariant
                self.wf(),
                self.words@ == old(self).words@,
                n == word@.len(),
                i <= n,
                cur < self.nodes@.len(),
                self.paths@[cur as int] == word@.subrange(0, i as int),
                self.covers(word@, i as int),
            decreases n - i,
        {
            let c = word.get_char(i);
            let ghost s1 = *self;
            let ghost c0 = cur;
            match self.find_child(cur, c) {
                Some(j) => {
                    cur = j;
                },
                None => {
                    let j = self.nodes.len();
                    self.add_child(cur, c);
                    cur = j;
                },
            }
            proof {
                assert(word@.subrange(0, i + 1) =~= word@.subrange(0, i as int).push(c));
                assert forall|a: int|
                    0 <= a < self.nodes@.len() && #[trigger] is_proper_prefix(self.paths@[a], word@)
                        && self.paths@[a].len() < i + 1 implies self.has_child_char(
                    a,
                    word@[self.paths@[a].len() as int],
                ) by {
                    if a < s1.nodes@.len() {
                        assert(s1.paths@[a] == self.paths@[a]);
                        if self.paths@[a].len() < i {
                            assert(is_proper_prefix(s1.paths@[a], word@));
                            let m = choose|m: int|
                                0 <= m < s1.nodes@[a].children@.len()
                                    && #[trigger] s1.nodes@[a].children@[m].0
                                    == word@[s1.paths@[a].len() as int];
                            assert(self.nodes@[a].children@[m] == s1.nodes@[a].children@[m]);
                        } else {
                            assert(self.paths@[a] =~= s1.paths@[c0 as int]);
                            assert(a == c0);
                        }
                    }
                }
            }
            i = i + 1;
        }
        proof {
            assert(word@.subrange(0, n as int) =~= word@);
        }
        self.mark_end(cur, Ghost(word@));
    }

    /// Marks node `cur`, whose path is `w`, as the end of a word.
    fn mark_end(&mut self, cur: usize, w: Ghost<Seq<char>>)
        requires
            old(self).wf(),
            cur < old(self).nodes@.len(),
            old(self).paths@[cur as int] == w@,
            old(self).covers(w@, w@.len() as int),
        ensures
            final(self).wf(),
            final(self)@ == old(self)@.insert(w@),
    {
        let ghost s0 = *old(self);
        self.nodes[cur].is_end_of_word = true;
        self.words = Ghost(self.words@.insert(w@));
        proof {
            assert forall|i: int, m: int|
                0 <= i < self.nodes@.len() && 0 <= m < self.nodes@[i].children@.len()
                    implies #[trigger] self.child_ok(i, m) by {
                assert(s0.child_ok(i, m));
            }
            assert forall|k: int| 0 < k < self.nodes@.len() implies #[trigger] self.has_parent(k) by {
                assert(s0.has_parent(k));
                let (i, m) = choose|i: int, m: int|
                    0 <= i < s0.nodes@.len() && 0 <= m < s0.nodes@[i].children@.len()
                        && #[trigger] s0.nodes@[i].children@[m].1 == k as usize;
                assert(self.nodes@[i].children@[m].1 == k as usize);
            }
            assert forall|i: int|
                0 <= i < self.nodes@.len() implies (#[trigger] self.nodes@[i]).is_end_of_word
                == self.words@.contains(self.paths@[i]) by {
                assert(s0.nodes@[i].is_end_of_word == s0.words@.contains(s0.paths@[i]));
            }
            assert forall|i: int, v: Seq<char>|
                0 <= i < self.nodes@.len() && self.words@.contains(v) && #[trigger] is_proper_prefix(
                    self.paths@[i],
                    v,
                ) implies exists|m: int|
                    0 <= m < self.nodes@[i].children@.len() && #[trigger] self.nodes@[i].children@[m].0
                        == v[self.paths@[i].len() as int] by {
                if v == w@ {
                    assert(s0.has_child_char(i, v[s0.paths@[i].len() as int]));
                    let m = choose|m: int|
                        0 <= m < s0.nodes@[i].children@.len() && #[trigger] s0.nodes@[i].children@[m].0
                            == v[s0.paths@[i].len() as int];
                    assert(self.nodes@[i].children@[m] == s0.nodes@[i].children@[m]);
                } else {
                    let m = choose|m: int|
                        0 <= m < s0.nodes@[i].children@.len() && #[trigger] s0.nodes@[i].children@[m].0
                            == v[s0.paths@[i].len() as int];
                    assert(self.nodes@[i].children@[m] == s0.nodes@[i].children@[m]);
                }
            }
        }
    }

    /// Whether `word` was inserted, compared character by character.
    pub fn search(&self, word: &str) -> (r: bool)
        requires
            self.wf(),
        ensures
            r == self@.contains(word@),
    {
        let n = word.unicode_len();
        let mut cur: usize = 0;
        let mut i: usize = 0;
        while i < n
            invariant
                self.wf(),
                n == word@.len(),
                i <= n,
                cur < self.nodes@.len(),
                self.paths@[cur as int] == word@.subrange(0, i as int),
            decreases n - i,
        {
            let c = word.get_char(i);
            match self.find_child(cur, c) {
                Some(j) => {
                    proof {
                        assert(word@.subrange(0, i + 1) == word@.subrange(0, i as int).push(c));
                    }
                    cur = j;
                },
                None => {
                    proof {
                        if self.words@.contains(word@) {
                            assert(is_proper_prefix(self.paths@[cur as int], word@));
                            let m = choose|m: int|
                                0 <= m < self.nodes@[cur as int].children@.len()
                                    && #[trigger] self.nodes@[cur as int].children@[m].0
                                    == word@[self.paths@[cur as int].len() as int];
                            assert(self.nodes@[cur as int].children@[m].0 != c);
                        }
                    }
                    return false;
                },
            }
            i = i + 1;
        }
        proof {
            assert(word@.subrange(0, n as int) == word@);
            assert(self.nodes@[cur as int].is_end_of_word == self.words@.contains(self.paths@[cur as int]));
        }
        self.nodes[cur].is_end_of_word
    }
}

/// What a sequence of insertions leaves in a set of words.
pub open spec fn inserted_all(start: Set<Seq<char>>, ws: Seq<Seq<char>>) -> Set<Seq<char>>
    decreases ws.len(),
{
    if ws.len() == 0 {
        start
    } else {
        inserted_all(start, ws.drop_last()).insert(ws.last())
    }
}

/// After inserting the words `ws` into an empty tree, exactly those words are
/// found: each of them, and nothing else.
pub proof fn lemma_inserted_exactly(ws: Seq<Seq<char>>, w: Seq<char>)
    ensures
        inserted_all(Set::empty(), ws).contains(w) <==> ws.contains(w),
    decreases ws.len(),
{
    if ws.len() > 0 {
        lemma_inserted_exactly(ws.drop_last(), w);
        if ws.drop_last().contains(w) {
            let k = choose|k: int| 0 <= k < ws.drop_last().len() && ws.drop_last()[k] == w;
            assert(ws[k] == w);
        }
        if ws.contains(w) && w != ws.last() {
            let k = choose|k: int| 0 <= k < ws.len() && ws[k] == w;
            assert(ws.drop_last()[k] == w);
        }
        if w == ws.last() {
            assert(ws[ws.len() - 1] == w);
        }
    }
}

impl Trie {
    /// A tree that holds exactly `words`.
    pub fn from_words(words: &Vec<String>) -> (r: Trie)
        ensures
            r.wf(),
            r@ == inserted_all(Set::empty(), words@.map_values(|s: String| s@)),
    {
        let ghost ws = words@.map_values(|s: String| s@);
        let mut t = Trie::new();
        let mut i: usize = 0;
        while i < words.len()
            invariant
                t.wf(),
                i <= words@.len(),
                ws == words@.map_values(|s: String| s@),
                t@ == inserted_all(Set::empty(), ws.subrange(0, i as int)),
            decreases words@.len() - i,
        {
            t.insert(words[i].as_str());
            proof {
                assert(ws.subrange(0, i + 1).drop_last() =~= ws.subrange(0, i as int));
            }
            i = i + 1;
        }
        proof {
            assert(ws.subrange(0, words@.len() as int) =~= ws);
        }
        t
    }
}

} // verus!
