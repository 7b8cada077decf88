//! A prefix tree over the target words. Nodes live in one vector and refer to
//! their children by index; the abstract view is the set of inserted words.
use vstd::prelude::*;
use vstd::std_specs::iter::IteratorSpec;

verus! {

/// `p` is a prefix of `w` (every sequence is a prefix of itself).
pub open spec fn is_prefix(p: Seq<char>, w: Seq<char>) -> bool {
    p.len() <= w.len() && w.subrange(0, p.len() as int) == p
}

/// `s` begins some word of `words`; the empty string always counts.
pub open spec fn begins_some(words: Set<Seq<char>>, s: Seq<char>) -> bool {
    s.len() == 0 || exists|w: Seq<char>| words.contains(w) && #[trigger] is_prefix(s, w)
}

/// The strings listed in `ws`, as a set.
pub open spec fn word_set(ws: Seq<&str>) -> Set<Seq<char>> {
    Set::new(|w: Seq<char>| exists|i: int| 0 <= i < ws.len() && (#[trigger] ws[i])@ == w)
}

/// One node: its outgoing edges, each a letter and the index of the child,
/// and whether the path to it spells a whole word.
pub struct TrieNode {
    children: Vec<(char, usize)>,
    is_word: bool,
}

impl TrieNode {
    pub closed spec fn edges(&self) -> Seq<(char, usize)> {
        self.children@
    }

    pub closed spec fn marks_word(&self) -> bool {
        self.is_word
    }

    pub fn new() -> (r: Self)
        ensures
            r.edges().len() == 0,
            !r.marks_word(),
    {
        TrieNode { children: Vec::new(), is_word: false }
    }
}

impl Default for TrieNode {
    fn default() -> (r: Self)
        ensures
            r.edges().len() == 0,
            !r.marks_word(),
    {
        TrieNode::new()
    }
}

/// A set of words that answers whole-word and prefix queries in time
/// proportional to the query.
pub struct Trie {
    nodes: Vec<TrieNode>,
    /// The letters on the way from the root to each node.
    paths: Ghost<Seq<Seq<char>>>,
    /// The node reached by each path that exists in the tree.
    index: Ghost<Map<Seq<char>, int>>,
    words: Ghost<Set<Seq<char>>>,
}

impl View for Trie {
    type V = Set<Seq<char>>;

    closed spec fn view(&self) -> Set<Seq<char>> {
        self.words@
    }
}

impl Default for Trie {
    fn default() -> (r: Self)
        ensures
            r.wf(),
            r@ == Set::<Seq<char>>::empty(),
    {
        Trie::new()
    }
}

impl Trie {
    spec fn has_child(&self, i: int, c: char) -> bool {
        exists|k: int|
            0 <= k < self.nodes@[i].children@.len() && (#[trigger] self.nodes@[i].children@[k]).0
                == c
    }

    /// The tree structure: paths and the index agree, every edge adds its
    /// letter to the path, the letters out of a node are distinct, the set of
    /// paths is closed under taking prefixes, and every path that extends a
    /// node's path by one letter is reached through an edge of that node.
    spec fn shape_ok(&self) -> bool {
        let n = self.nodes@.len();
        let paths = self.paths@;
        let index = self.index@;
        &&& n >= 1
        &&& paths.len() == n
        &&& paths[0] == Seq::<char>::empty()
        &&& forall|i: int|
            0 <= i < n ==> index.contains_key(#[trigger] paths[i]) && index[paths[i]] == i
        &&& forall|p: Seq<char>|
            #[trigger] index.contains_key(p) ==> 0 <= index[p] < n && paths[index[p]] == p
        &&& forall|i: int, k: int|
            0 <= i < n && 0 <= k < self.nodes@[i].children@.len() ==> {
                let e = #[trigger] self.nodes@[i].children@[k];
                &&& e.1 < n
                &&& paths[e.1 as int] == paths[i].push(e.0)
            }
        &&& forall|i: int, k1: int, k2: int|
            0 <= i < n && 0 <= k1 < self.nodes@[i].children@.len() && 0 <= k2
                < self.nodes@[i].children@.len() && k1 != k2 ==> (#[trigger] self.nodes@[i].children@[k1]).0
                != (#[trigger] self.nodes@[i].children@[k2]).0
        &&& forall|p: Seq<char>, c: char|
            #[trigger] index.contains_key(p.push(c)) ==> index.contains_key(p)
        &&& forall|p: Seq<char>, c: char|
            #[trigger] index.contains_key(p.push(c)) ==> self.has_child(index[p], c)
    }

    /// The paths of the tree are exactly the prefixes of the words, and a
    /// node is marked exactly when its path is a word.
    pub closed spec fn wf(&self) -> bool {
        &&& self.shape_ok()
        &&& forall|p: Seq<char>| #[trigger]
            self.index@.contains_key(p) <==> begins_some(self.words@, p)
        &&& forall|i: int|
            0 <= i < self.nodes@.len() ==> (self.nodes@[i].is_word <==> self.words@.contains(
                #[trigger] self.paths@[i],
            ))
    }

    /// The child of node `i` along letter `c`, if there is one.
    fn find_child(&self, i: usize, c: char) -> (r: Option<usize>)
        requires
            self.shape_ok(),
            i < self.nodes@.len(),
        ensures
            r matches Some(j) ==> j < self.nodes@.len() && self.paths@[j as int]
                == self.paths@[i as int].push(c),
            r is None ==> !self.has_child(i as int, c),
    {
        let children = &self.nodes[i].children;
        let mut k: usize = 0;
        while k < children.len()
            invariant
                self.shape_ok(),
                i < self.nodes@.len(),
                children@ == self.nodes@[i as int].children@,
                0 <= k <= children@.len(),
                forall|m: int| 0 <= m < k ==> (#[trigger] children@[m]).0 != c,
            decreases children@.len() - k,
        {
            if children[k].0 == c {
                return Some(children[k].1);
            }
            k = k + 1;
        }
        None
    }

    /// Follows `s` from the root as far as the tree allows. Returns the node
    /// reached when all of `s` is consumed.
    fn walk(&self, s: &str) -> (r: Option<usize>)
        requires
            self.shape_ok(),
        ensures
            r matches Some(j) ==> j < self.nodes@.len() && self.paths@[j as int] == s@,
            r is None <==> !self.index@.contains_key(s@),
    {
        let mut cur: usize = 0;
        broadcast use vstd::string::axiom_spec_iter;

        let chars = s.chars();
        assert(chars.remaining() == s@);
        for c in it: chars
            invariant
                it.seq() == s@,
                self.shape_ok(),
                cur < self.nodes@.len(),
                self.paths@[cur as int] == s@.subrange(0, it.index() as int),
        {
            match self.find_child(cur, c) {
                Some(j) => {
                    cur = j;
                },
                None => {
                    proof {
                        let k = it.index();
                        assert(s@.subrange(0, k + 1) == self.paths@[cur as int].push(c));
                        if self.index@.contains_key(s@) {
                            self.lemma_prefix_closed(s@, k + 1);
                        }
                    }
                    return None;
                },
            }
        }
        assert(s@.subrange(0, s@.len() as int) == s@);
        Some(cur)
    }

    /// An empty set of words.
    pub fn new() -> (r: Self)
        ensures
            r.wf(),
            r@ == Set::<Seq<char>>::empty(),
    {
        let mut nodes: Vec<TrieNode> = Vec::new();
        nodes.push(TrieNode::new());
        let r = Trie {
            nodes,
            paths: Ghost(Seq::empty().push(Seq::<char>::empty())),
            index: Ghost(Map::empty().insert(Seq::<char>::empty(), 0int)),
            words: Ghost(Set::empty()),
        };
        assert forall|p: Seq<char>, c: char| !#[trigger] r.index@.contains_key(p.push(c)) by {
            assert(p.push(c).len() > 0);
        }
        assert forall|p: Seq<char>| #[trigger]
            r.index@.contains_key(p) <==> begins_some(r.words@, p) by {
            if p.len() == 0 {
                assert(p == Seq::<char>::empty());
            }
        }
        r
    }

    /// The set of the words listed in `words`.
    pub fn from(words: &Vec<&str>) -> (r: Self)
        ensures
            r.wf(),
            r@ == word_set(words@),
    {
        let mut trie = Trie::new();
        trie.insert_words(words);
        assert(trie@ =~= word_set(words@));
        trie
    }

    /// Adds `word` to the set.
    pub fn insert(&mut self, word: &str)
        requires
            old(self).wf(),
        ensures
            final(self).wf(),
            final(self)@ == old(self)@.insert(word@),
    {
        broadcast use vstd::string::axiom_spec_iter;

        let ghost old_index = self.index@;
        let ghost old_nodes = self.nodes@;
        let ghost old_paths = self.paths@;
        let ghost old_n = self.nodes@.len();
        let mut cur: usize = 0;
        let chars = word.chars();
        assert(chars.remaining() == word@);
        for c in it: chars
            invariant
                it.seq() == word@,
                self.shape_ok(),
                self.words@ == old(self).words@,
                old_index == old(self).index@,
                old_paths == old(self).paths@,
                old_nodes == old(self).nodes@,
                old_n == old_nodes.len(),
                old_n == old_paths.len(),
                cur < self.nodes@.len(),
                self.paths@[cur as int] == word@.subrange(0, it.index() as int),
                old_n <= self.nodes@.len(),
                forall|i: int|
                    0 <= i < old_n ==> #[trigger] self.paths@[i] == old_paths[i]
                        && self.nodes@[i].is_word == old_nodes[i].is_word,
                forall|i: int| old_n <= i < self.nodes@.len() ==> !(#[trigger] self.nodes@[i]).is_word,
                forall|i: int|
                    old_n <= i < self.nodes@.len() ==> !old_index.contains_key(#[trigger] self.paths@[i]),
                forall|p: Seq<char>| #[trigger]
                    self.index@.contains_key(p) <==> (old_index.contains_key(p) || (p.len()
                        <= it.index() && p == word@.subrange(0, p.len() as int))),
        {
            let ghost k = it.index();
            let ghost pre = *self;
            assert(c == word@[k]);
            assert(word@.subrange(0, k + 1) =~= word@.subrange(0, k).push(c));
            match self.find_child(cur, c) {
                Some(j) => {
                    cur = j;
                            assert forall|p: Seq<char>| #[trigger]
                        self.index@.contains_key(p) <==> (old_index.contains_key(p) || (p.len()
                            <= k + 1 && p == word@.subrange(0, p.len() as int))) by {
                        if p.len() == k + 1 && p == word@.subrange(0, p.len() as int) {
                            assert(p == self.paths@[j as int]);
                        }
                    }
                },
                None => {
                    self.add_child(cur, c);
                    cur = self.nodes.len() - 1;
                    assert forall|i: int|
                        0 <= i < old_n implies #[trigger] self.paths@[i] == old_paths[i]
                            && self.nodes@[i].is_word == old_nodes[i].is_word by {
                        assert(self.paths@[i] == pre.paths@[i]);
                        assert(self.nodes@[i].is_word == pre.nodes@[i].is_word);
                    }
                    assert forall|i: int|
                        old_n <= i < self.nodes@.len() implies !(#[trigger] self.nodes@[i]).is_word
                            && !old_index.contains_key(self.paths@[i]) by {
                        if i < pre.nodes@.len() {
                            assert(self.paths@[i] == pre.paths@[i]);
                            assert(self.nodes@[i].is_word == pre.nodes@[i].is_word);
                            assert(!pre.nodes@[i].is_word && !old_index.contains_key(pre.paths@[i]));
                        } else {
                            assert(self.paths@[i] == word@.subrange(0, k + 1));
                            if old_index.contains_key(self.paths@[i]) {
                                assert(pre.index@.contains_key(self.paths@[i]));
                            }
                        }
                    }
                },
            }
        }
        assert(word@.subrange(0, word@.len() as int) =~= word@);
        let ghost pre = *self;
        self.nodes[cur].is_word = true;
        proof {
            self.words@ = self.words@.insert(word@);
            assert(self.paths@ == pre.paths@);
            assert forall|i: int| 0 <= i < self.nodes@.len() implies #[trigger] self.nodes@[i].children@
                == pre.nodes@[i].children@ by {
                if i != cur {
                    assert(self.nodes@[i] == pre.nodes@[i]);
                }
            }
            assert forall|i: int, c: char| 0 <= i < self.nodes@.len() implies #[trigger] self.has_child(i, c)
                == pre.has_child(i, c) by {
                assert(self.nodes@[i].children@ == pre.nodes@[i].children@);
            }
            assert(self.shape_ok());
            assert forall|i: int|
                0 <= i < self.nodes@.len() implies (self.nodes@[i].is_word <==> self.words@.contains(
                    #[trigger] self.paths@[i],
                )) by {
                if i != cur {
                    assert(self.nodes@[i] == pre.nodes@[i]);
                    if self.paths@[i] == word@ {
                        assert(self.index@[self.paths@[i]] == i);
                    }
                    if i < old_n {
                        assert(old(self).nodes@[i].is_word <==> old(self).words@.contains(
                            old(self).paths@[i],
                        ));
                    } else {
                        if old(self).words@.contains(self.paths@[i]) {
                            assert(self.paths@[i].subrange(0, self.paths@[i].len() as int) =~= self.paths@[i]);
                            assert(is_prefix(self.paths@[i], self.paths@[i]));
                            assert(old(self).index@.contains_key(self.paths@[i]));
                        }
                    }
                }
            }
            assert forall|p: Seq<char>| #[trigger]
                self.index@.contains_key(p) <==> begins_some(self.words@, p) by {
                if self.index@.contains_key(p) {
                    if !old_index.contains_key(p) && p.len() > 0 {
                        assert(is_prefix(p, word@));
                    }
                    if old_index.contains_key(p) && p.len() > 0 {
                        assert(begins_some(old(self).words@, p));
                        let w = choose|w: Seq<char>| old(self).words@.contains(w) && #[trigger] is_prefix(p, w);
                        assert(self.words@.contains(w));
                    }
                }
                if begins_some(self.words@, p) && p.len() > 0 {
                    let w = choose|w: Seq<char>| self.words@.contains(w) && #[trigger] is_prefix(p, w);
                    if w != word@ {
                        assert(old(self).words@.contains(w));
                        assert(begins_some(old(self).words@, p));
                    }
                }
            }
        }
    }

    /// Adds all the words in `words` to the set.
    pub fn insert_words(&mut self, words: &Vec<&str>)
        requires
            old(self).wf(),
        ensures
            final(self).wf(),
            final(self)@ == old(self)@.union(word_set(words@)),
    {
        for i in 0..words.len()
            invariant
                self.wf(),
                self@ == old(self)@.union(word_set(words@.subrange(0, i as int))),
        {
            self.insert(words[i]);
            proof {
                let before = words@.subrange(0, i as int);
                let after = words@.subrange(0, i + 1);
                assert forall|w: Seq<char>| #[trigger]
                    word_set(after).contains(w) <==> word_set(before).insert(words@[i as int]@).contains(w) by {
                    if word_set(after).contains(w) {
                        let m = choose|m: int| 0 <= m < after.len() && (#[trigger] after[m])@ == w;
                        if m < i {
                            assert(before[m] == after[m]);
                        }
                    }
                    if word_set(before).contains(w) {
                        let m = choose|m: int| 0 <= m < before.len() && (#[trigger] before[m])@ == w;
                        assert(before[m] == after[m]);
                    }
                    if w == words@[i as int]@ {
                        assert(after[i as int] == words@[i as int]);
                    }
                }
                assert(word_set(after) =~= word_set(before).insert(words@[i as int]@));
            }
            assert(self@ =~= old(self)@.union(word_set(words@.subrange(0, i + 1))));
        }
        assert(words@.subrange(0, words@.len() as int) == words@);
    }

    /// Whether `word` was inserted as a whole word.
    pub fn search(&self, word: &str) -> (r: bool)
        requires
            self.wf(),
        ensures
            r == self@.contains(word@),
    {
        match self.walk(word) {
            Some(j) => self.nodes[j].is_word,
            None => {
                assert(word@.subrange(0, word@.len() as int) =~= word@);
                assert(is_prefix(word@, word@));
                false
            },
        }
    }

    /// Whether some inserted word begins with `prefix`; always true for the
    /// empty string.
    pub fn starts_with(&self, prefix: &str) -> (r: bool)
        requires
            self.wf(),
        ensures
            r == begins_some(self@, prefix@),
    {
        self.walk(prefix).is_some()
    }

    /// Adds a new leaf under node `i` along letter `c`, which `i` has no edge for.
    fn add_child(&mut self, i: usize, c: char)
        requires
            old(self).shape_ok(),
            i < old(self).nodes@.len(),
            !old(self).has_child(i as int, c),
        ensures
            final(self).shape_ok(),
            final(self).words@ == old(self).words@,
            final(self).nodes@.len() == old(self).nodes@.len() + 1,
            final(self).paths@ == old(self).paths@.push(old(self).paths@[i as int].push(c)),
            final(self).index@ == old(self).index@.insert(
                old(self).paths@[i as int].push(c),
                old(self).nodes@.len() as int,
            ),
            forall|k: int|
                0 <= k < old(self).nodes@.len() ==> (#[trigger] final(self).nodes@[k]).is_word
                    == old(self).nodes@[k].is_word,
            !final(self).nodes@[old(self).nodes@.len() as int].is_word,
            !old(self).index@.contains_key(old(self).paths@[i as int].push(c)),
    {
        let ghost q = self.paths@[i as int].push(c);
        let ghost pre = *self;
        assert(!self.index@.contains_key(q));
        let j = self.nodes.len();
        self.nodes.push(TrieNode::new());
        self.nodes[i].children.push((c, j));
        proof {
            self.paths@ = self.paths@.push(q);
            self.index@ = self.index@.insert(q, j as int);
            assert forall|p: Seq<char>, d: char| #[trigger]
                self.index@.contains_key(p.push(d)) implies self.has_child(self.index@[p], d) by {
                if p.push(d) == q {
                    assert(p == pre.paths@[i as int] && d == c) by {
                        assert(p.push(d).drop_last() =~= p);
                        assert(q.drop_last() =~= pre.paths@[i as int]);
                        assert(p.push(d).last() == d);
                    }
                    let k = self.nodes@[i as int].children@.len() - 1;
                    assert(self.nodes@[i as int].children@[k].0 == c);
                } else {
                    assert(pre.has_child(pre.index@[p], d));
                    let pi = pre.index@[p];
                    let k = choose|k: int|
                        0 <= k < pre.nodes@[pi].children@.len() && (
                        #[trigger] pre.nodes@[pi].children@[k]).0 == d;
                    assert(self.nodes@[pi].children@[k] == pre.nodes@[pi].children@[k]);
                }
            }
            assert forall|p: Seq<char>, d: char| #[trigger]
                self.index@.contains_key(p.push(d)) implies self.index@.contains_key(p) by {
                if p.push(d) == q {
                    assert(p.push(d).drop_last() =~= p);
                    assert(q.drop_last() =~= pre.paths@[i as int]);
                }
            }
        }
    }

    /// Every prefix of a path of the tree is a path of the tree.
    proof fn lemma_prefix_closed(&self, q: Seq<char>, m: int)
        requires
            self.shape_ok(),
            self.index@.contains_key(q),
            0 <= m <= q.len(),
        ensures
            self.index@.contains_key(q.subrange(0, m)),
        decreases q.len() - m,
    {
        if m < q.len() {
            let longer = q.subrange(0, m + 1);
            self.lemma_prefix_closed(q, m + 1);
            assert(longer == q.subrange(0, m).push(q[m]));
        } else {
            assert(q.subrange(0, m) == q);
        }
    }
}

/// Every inserted word is found as a whole word, and each of its prefixes,
/// from the empty string to the word itself, is found as a prefix.
pub proof fn lemma_inserted_word_found(trie: &Trie, w: Seq<char>, p: Seq<char>)
    requires
        trie.wf(),
        trie@.contains(w),
        is_prefix(p, w),
    ensures
        trie@.contains(w),
        begins_some(trie@, p),
        begins_some(trie@, Seq::<char>::empty()),
        begins_some(trie@, w),
{
    assert(w.subrange(0, w.len() as int) =~= w);
    assert(is_prefix(w, w));
}

/// A non-empty string that begins no inserted word is neither found as a
/// prefix nor as a whole word.
pub proof fn lemma_non_prefix_absent(trie: &Trie, s: Seq<char>)
    requires
        trie.wf(),
        s.len() > 0,
        forall|w: Seq<char>| trie@.contains(w) ==> !is_prefix(s, w),
    ensures
        !begins_some(trie@, s),
        !trie@.contains(s),
{
    assert(s.subrange(0, s.len() as int) =~= s);
    if trie@.contains(s) {
        assert(is_prefix(s, s));
    }
}

} // verus!
