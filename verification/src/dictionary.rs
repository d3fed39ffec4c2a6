//! The dictionary: a prefix tree over the 26 letters of the alphabet.
//!
//! Words are stored case folded, as sequences of alphabet positions
//! (0 for `a` up to 25 for `z`). The tree is an arena of nodes; node 0 is the
//! root, and each node has one optional child per letter. A
//! [`DictionaryTrieNodePtr`] is a read-only handle on one node, from which a
//! search can descend letter by letter without copying anything.

use crate::util::all_alpha;
use crate::util::all_alpha_indices;
use crate::util::alpha_idx;
use crate::util::alpha_indices;
use crate::util::is_alpha;
use crate::text::byte_rows;
use crate::text::is_ascii_space;
use crate::text::is_word_list;
use crate::text::is_token;
use crate::text::lemma_tokens_are_words;
use crate::text::lemma_words_are_tokens;
use crate::text::split_words;
use crate::text::words_of;
use crate::util::text_bytes;
use crate::util::Letter;
use crate::util::Word;
use vstd::prelude::*;

verus! {

/// The position in the alphabet of an ASCII letter of either case.
pub fn letter_alpha_idx(c: Letter) -> (idx: u8)
    requires
        is_alpha(c),
    ensures
        idx == alpha_idx(c),
        idx < 26,
{
    if 97 <= c && c <= 122 {
        c - 97
    } else {
        c - 65
    }
}

/// The alphabet positions of a run of ASCII letters.
pub fn bytes_to_alpha_indices(w: &[u8]) -> (r: Vec<u8>)
    requires
        all_alpha(w@),
    ensures
        r@ == alpha_indices(w@),
        all_alpha_indices(r@),
{
    let mut r: Vec<u8> = Vec::new();
    let mut i: usize = 0;
    while i < w.len()
        invariant
            i <= w@.len(),
            all_alpha(w@),
            r@.len() == i,
            forall|k: int| 0 <= k < i ==> #[trigger] r@[k] == alpha_idx(w@[k]),
        decreases w@.len() - i,
    {
        r.push(letter_alpha_idx(w[i]));
        i += 1;
    }
    assert(r@ =~= alpha_indices(w@));
    r
}

/// The alphabet positions of the letters of a word.
pub fn word_to_alpha_indices(w: &Word) -> (r: Vec<u8>)
    requires
        all_alpha(text_bytes(w@)),
    ensures
        r@ == alpha_indices(text_bytes(w@)),
        all_alpha_indices(r@),
{
    bytes_to_alpha_indices(w.as_str().as_bytes())
}

/// The alphabet positions of the letters of a word given as bytes.
pub fn utf8_to_alpha_indices(w: &Vec<u8>) -> (r: Vec<u8>)
    requires
        all_alpha(w@),
    ensures
        r@ == alpha_indices(w@),
        all_alpha_indices(r@),
{
    bytes_to_alpha_indices(w.as_slice())
}

/// Whether some word of `words` starts with `prefix`.
pub open spec fn can_extend(words: Set<Seq<u8>>, prefix: Seq<u8>) -> bool {
    exists|w: Seq<u8>| #[trigger] words.contains(w) && prefix.is_prefix_of(w)
}

/// One node of the tree: whether the path to it spells a word, and where
/// each of the 26 letters leads from it, if anywhere.
#[derive(Clone, Copy)]
pub struct DictionaryTrieNode {
    is_word: bool,
    child_nodes: [Option<usize>; 26],
}

impl DictionaryTrieNode {
    /// Whether the node ends a word.
    pub closed spec fn ends_word(&self) -> bool {
        self.is_word
    }

    /// The index of the child for the letter at `alpha_index`, if there is one.
    pub closed spec fn child(&self, alpha_index: int) -> Option<usize> {
        if 0 <= alpha_index < 26 {
            self.child_nodes@[alpha_index]
        } else {
            None
        }
    }

    /// A node without children that ends no word.
    pub fn new() -> (n: DictionaryTrieNode)
        ensures
            !n.ends_word(),
            forall|c: int| #[trigger] n.child(c) is None,
    {
        DictionaryTrieNode { is_word: false, child_nodes: [None;26] }
    }

    /// Links the letter at `alpha_idx` to the node `child_idx`. The root,
    /// node 0, is never a child.
    pub fn set_child_idx(&mut self, alpha_idx: u8, child_idx: usize)
        requires
            alpha_idx < 26,
            child_idx != 0,
        ensures
            final(self).child(alpha_idx as int) == Some(child_idx),
            forall|c: int| c != alpha_idx ==> #[trigger] final(self).child(c) == old(self).child(c),
            final(self).ends_word() == old(self).ends_word(),
    {
        self.child_nodes[alpha_idx as usize] = Some(child_idx);
    }

    /// The child for the letter at `alpha_index`, if there is one.
    pub fn get_child_idx(&self, alpha_index: u8) -> (r: Option<usize>)
        requires
            alpha_index < 26,
        ensures
            r == self.child(alpha_index as int),
    {
        self.child_nodes[alpha_index as usize]
    }

    fn mark_word(&mut self)
        ensures
            final(self).ends_word(),
            forall|c: int| #[trigger] final(self).child(c) == old(self).child(c),
    {
        self.is_word = true;
    }
}

/// A set of words, held as a prefix tree.
pub struct DictionaryTrie {
    entries: Vec<DictionaryTrieNode>,
    /// For each node, the letters on the way from the root to it.
    paths: Ghost<Seq<Seq<u8>>>,
}

impl View for DictionaryTrie {
    type V = Set<Seq<u8>>;

    /// The words of the dictionary, each as its sequence of alphabet positions.
    closed spec fn view(&self) -> Set<Seq<u8>> {
        Set::new(|w: Seq<u8>| self.ends_word_at(w))
    }
}

/// A read-only handle on one node of a dictionary.
pub struct DictionaryTrieNodePtr<'a> {
    dict_trie: &'a DictionaryTrie,
    node_idx: usize,
}

impl DictionaryTrie {
    /// Where the letter at `c` leads from node `n`.
    spec fn child_at(&self, n: int, c: int) -> Option<int> {
        if 0 <= n < self.entries@.len() {
            match self.entries@[n].child(c) {
                Some(j) => Some(j as int),
                None => None,
            }
        } else {
            None
        }
    }

    /// The node reached from the root along `prefix`, if the tree goes that far.
    spec fn node_of(&self, prefix: Seq<u8>) -> Option<int>
        decreases prefix.len(),
    {
        if prefix.len() == 0 {
            Some(0)
        } else {
            match self.node_of(prefix.drop_last()) {
                Some(n) => self.child_at(n, prefix.last() as int),
                None => None,
            }
        }
    }

    spec fn ends_word_at(&self, w: Seq<u8>) -> bool {
        match self.node_of(w) {
            Some(n) => 0 <= n < self.entries@.len() && self.entries@[n].ends_word(),
            None => false,
        }
    }

    /// Whether the tree has a node for `prefix`: the search can descend
    /// along these letters.
    pub closed spec fn has_prefix(&self, prefix: Seq<u8>) -> bool {
        self.node_of(prefix) is Some
    }

    /// How many nodes the tree has, the root included.
    pub closed spec fn node_count(&self) -> nat {
        self.entries@.len()
    }

    /// How many of the first `k` non-empty prefixes of `w` have no node.
    pub open spec fn missing_prefixes(&self, w: Seq<u8>, k: int) -> nat
        decreases k,
    {
        if k <= 0 {
            0
        } else {
            self.missing_prefixes(w, k - 1) + if self.has_prefix(w.take(k)) {
                0nat
            } else {
                1nat
            }
        }
    }

    /// Whether some word of the dictionary starts with `prefix`.
    pub open spec fn has_extension(&self, prefix: Seq<u8>) -> bool {
        can_extend(self@, prefix)
    }

    /// The tree is well formed: every child link stays inside the arena and
    /// never points at the root, every node is reached from the root by
    /// exactly one sequence of letters, and every node but the root lies on
    /// the way to a word.
    pub closed spec fn wf(&self) -> bool {
        &&& self.links_wf()
        &&& forall|p: Seq<u8>| #[trigger]
            self.has_prefix(p) <==> p.len() == 0 || can_extend(self@, p)
    }

    /// The links of the tree are in order.
    spec fn links_wf(&self) -> bool {
        &&& self.entries@.len() >= 1
        &&& self.paths@.len() == self.entries@.len()
        &&& self.paths@[0] == Seq::<u8>::empty()
        &&& forall|n: int, c: int|
            0 <= n < self.entries@.len() && #[trigger] self.child_at(n, c) is Some ==> {
                &&& 0 < self.child_at(n, c)->0 < self.entries@.len()
                &&& 0 <= c < 26
                &&& self.paths@[self.child_at(n, c)->0] == self.paths@[n].push(c as u8)
            }
        &&& forall|j: int|
            #![trigger self.paths@[j]]
            0 <= j < self.entries@.len() ==> self.node_of(self.paths@[j]) == Some(j)
    }

    /// A node is reached only along its own path.
    proof fn lemma_node_of_path(&self, p: Seq<u8>)
        requires
            self.links_wf(),
            self.node_of(p) is Some,
        ensures
            0 <= self.node_of(p)->0 < self.entries@.len(),
            self.paths@[self.node_of(p)->0] == p,
        decreases p.len(),
    {
        if p.len() == 0 {
            assert(p =~= Seq::<u8>::empty());
        } else {
            self.lemma_node_of_path(p.drop_last());
            let k = self.node_of(p.drop_last())->0;
            assert(self.child_at(k, p.last() as int) is Some);
            assert(p.drop_last().push(p.last()) =~= p);
        }
    }

    /// Where the tree has a node for a sequence of letters, it has one for
    /// each of its prefixes.
    pub proof fn lemma_prefix_closed(&self, p: Seq<u8>, k: int)
        requires
            self.has_prefix(p),
            0 <= k <= p.len(),
        ensures
            self.has_prefix(p.take(k)),
        decreases p.len(),
    {
        if k == p.len() {
            assert(p.take(k) =~= p);
        } else {
            self.lemma_prefix_closed(p.drop_last(), k);
            assert(p.drop_last().take(k) =~= p.take(k));
        }
    }

    /// The tree has a node for a sequence of letters exactly where the
    /// sequence is empty or some word of the dictionary starts with it.
    pub proof fn lemma_has_prefix(&self, p: Seq<u8>)
        requires
            self.wf(),
        ensures
            self.has_prefix(p) <==> p.len() == 0 || self.has_extension(p),
    {
    }

    /// Two trees with the same links reach the same nodes.
    proof fn lemma_same_links_same_nodes(&self, other: &DictionaryTrie, p: Seq<u8>)
        requires
            self.entries@.len() == other.entries@.len(),
            forall|n: int, c: int| #[trigger] self.child_at(n, c) == other.child_at(n, c),
        ensures
            self.node_of(p) == other.node_of(p),
        decreases p.len(),
    {
        if p.len() > 0 {
            self.lemma_same_links_same_nodes(other, p.drop_last());
        }
    }

    /// What `other` looks like when it is `self` with one fresh node, the
    /// last one, hung below node `n` at the letter `c`.
    spec fn grown_by_child(&self, other: &DictionaryTrie, n: int, c: int) -> bool {
        let m = self.entries@.len() as int;
        &&& 0 <= n < m
        &&& 0 <= c < 26
        &&& self.child_at(n, c) is None
        &&& other.entries@.len() == m + 1
        &&& other.paths@ == self.paths@.push(self.paths@[n].push(c as u8))
        &&& forall|k: int, d: int|
            0 <= k < m && !(k == n && d == c) ==> #[trigger] other.child_at(k, d) == self.child_at(
                k,
                d,
            )
        &&& other.child_at(n, c) == Some(m)
        &&& forall|d: int| #[trigger] other.child_at(m, d) is None
        &&& forall|k: int| 0 <= k < m ==> #[trigger] other.entries@[k].ends_word() == self.entries@[k].ends_word()
        &&& !other.entries@[m].ends_word()
    }

    /// Nodes that were reached before a child was hung in are reached the
    /// same way after.
    proof fn lemma_grown_keeps_nodes(&self, other: &DictionaryTrie, n: int, c: int, p: Seq<u8>)
        requires
            self.links_wf(),
            self.grown_by_child(other, n, c),
            self.node_of(p) is Some,
        ensures
            other.node_of(p) == self.node_of(p),
        decreases p.len(),
    {
        if p.len() > 0 {
            let k = self.node_of(p.drop_last())->0;
            self.lemma_grown_keeps_nodes(other, n, c, p.drop_last());
            self.lemma_node_of_path(p.drop_last());
            assert(self.child_at(k, p.last() as int) is Some);
            assert(other.child_at(k, p.last() as int) == self.child_at(k, p.last() as int));
        }
    }

    /// After a child was hung in, a sequence of letters reaches either the
    /// node it reached before or, if it is the new node's path, the new node.
    proof fn lemma_grown_adds_one_node(&self, other: &DictionaryTrie, n: int, c: int, p: Seq<u8>)
        requires
            self.links_wf(),
            self.grown_by_child(other, n, c),
            other.node_of(p) is Some,
        ensures
            other.node_of(p)->0 == self.entries@.len() ==> p == self.paths@[n].push(c as u8),
            other.node_of(p)->0 != self.entries@.len() ==> self.node_of(p) == other.node_of(p),
        decreases p.len(),
    {
        let m = self.entries@.len() as int;
        if p.len() > 0 {
            let k = other.node_of(p.drop_last())->0;
            let d = p.last() as int;
            self.lemma_grown_adds_one_node(other, n, c, p.drop_last());
            assert(other.child_at(k, d) is Some);
            assert(0 <= k < m + 1);
            assert(k != m);
            assert(self.node_of(p.drop_last()) == Some(k));
            if k == n && d == c {
                self.lemma_node_of_path(p.drop_last());
                assert(p.drop_last().push(p.last()) =~= p);
            } else {
                assert(other.child_at(k, d) == self.child_at(k, d));
                assert(self.child_at(k, d) is Some);
            }
        }
    }

    /// Hanging a fresh node into the tree keeps it well formed, keeps its
    /// words, and adds one prefix.
    proof fn lemma_grown(&self, other: &DictionaryTrie, n: int, c: int)
        requires
            self.links_wf(),
            self.grown_by_child(other, n, c),
        ensures
            other.links_wf(),
            other@ == self@,
            forall|p: Seq<u8>|
                #[trigger] other.has_prefix(p) <==> self.has_prefix(p) || p == self.paths@[n].push(
                    c as u8,
                ),
            other.node_of(self.paths@[n].push(c as u8)) == Some(self.entries@.len() as int),
    {
        let m = self.entries@.len() as int;
        let q = self.paths@[n].push(c as u8);
        assert(q.drop_last() =~= self.paths@[n]);
        assert(q.last() == c as u8);
        self.lemma_grown_keeps_nodes(other, n, c, self.paths@[n]);
        assert(other.node_of(q) == Some(m));
        assert forall|k: int, d: int|
            0 <= k < other.entries@.len() && #[trigger] other.child_at(k, d) is Some implies {
            &&& 0 < other.child_at(k, d)->0 < other.entries@.len()
            &&& 0 <= d < 26
            &&& other.paths@[other.child_at(k, d)->0] == other.paths@[k].push(d as u8)
        } by {
            if k == n && d == c {
            } else {
                assert(k < m);
                assert(other.child_at(k, d) == self.child_at(k, d));
                assert(self.child_at(k, d) is Some);
            }
        }
        assert forall|j: int|
            #![trigger other.paths@[j]]
            0 <= j < other.entries@.len() implies other.node_of(other.paths@[j]) == Some(j) by {
            if j < m {
                assert(self.node_of(self.paths@[j]) == Some(j));
                self.lemma_grown_keeps_nodes(other, n, c, self.paths@[j]);
            }
        }
        assert forall|p: Seq<u8>| #[trigger] other.has_prefix(p) <==> self.has_prefix(p) || p == q by {
            if self.has_prefix(p) {
                self.lemma_grown_keeps_nodes(other, n, c, p);
            }
            if other.has_prefix(p) {
                self.lemma_grown_adds_one_node(other, n, c, p);
            }
        }
        assert forall|w: Seq<u8>| other@.contains(w) <==> self@.contains(w) by {
            if self.ends_word_at(w) {
                self.lemma_grown_keeps_nodes(other, n, c, w);
                self.lemma_node_of_path(w);
            }
            if other.ends_word_at(w) {
                self.lemma_grown_adds_one_node(other, n, c, w);
            }
        }
        assert(other@ =~= self@);
    }

    /// Marking the node of `w` as the end of a word adds `w` to the words
    /// and changes nothing else.
    proof fn lemma_marked(&self, other: &DictionaryTrie, w: Seq<u8>)
        requires
            self.links_wf(),
            self.node_of(w) is Some,
            other.entries@.len() == self.entries@.len(),
            other.paths@ == self.paths@,
            forall|k: int, d: int| #[trigger] other.child_at(k, d) == self.child_at(k, d),
            forall|k: int|
                0 <= k < self.entries@.len() && k != self.node_of(w)->0
                    ==> #[trigger] other.entries@[k].ends_word() == self.entries@[k].ends_word(),
            other.entries@[self.node_of(w)->0].ends_word(),
        ensures
            other.links_wf(),
            other@ == self@.insert(w),
            forall|p: Seq<u8>| #[trigger] other.has_prefix(p) <==> self.has_prefix(p),
    {
        assert forall|p: Seq<u8>| other.node_of(p) == self.node_of(p) by {
            other.lemma_same_links_same_nodes(self, p);
        }
        assert forall|k: int, d: int|
            0 <= k < other.entries@.len() && #[trigger] other.child_at(k, d) is Some implies {
            &&& 0 < other.child_at(k, d)->0 < other.entries@.len()
            &&& 0 <= d < 26
            &&& other.paths@[other.child_at(k, d)->0] == other.paths@[k].push(d as u8)
        } by {
            assert(self.child_at(k, d) is Some);
        }
        assert forall|j: int|
            #![trigger other.paths@[j]]
            0 <= j < other.entries@.len() implies other.node_of(other.paths@[j]) == Some(j) by {
            assert(self.node_of(self.paths@[j]) == Some(j));
        }
        self.lemma_node_of_path(w);
        assert forall|v: Seq<u8>| other@.contains(v) <==> self@.insert(w).contains(v) by {
            if self.node_of(v) is Some {
                self.lemma_node_of_path(v);
            }
        }
        assert(other@ =~= self@.insert(w));
    }

    /// The empty dictionary.
    pub fn new() -> (t: DictionaryTrie)
        ensures
            t.wf(),
            t@ == Set::<Seq<u8>>::empty(),
            t.node_count() == 1,
    {
        let mut entries: Vec<DictionaryTrieNode> = Vec::new();
        entries.push(DictionaryTrieNode::new());
        let ghost root_path = Seq::<Seq<u8>>::empty().push(Seq::<u8>::empty());
        let t = DictionaryTrie { entries, paths: Ghost(root_path) };
        proof {
            assert forall|n: int, c: int| #[trigger] t.child_at(n, c) is None by {
                if 0 <= n < 1 {
                    assert(t.entries@[n].child(c) is None);
                }
            }
            assert forall|p: Seq<u8>| #[trigger] t.has_prefix(p) <==> p.len() == 0 by {
                if p.len() > 0 {
                    match t.node_of(p.drop_last()) {
                        Some(n) => {
                            assert(t.child_at(n, p.last() as int) is None);
                        },
                        None => {},
                    }
                }
            }
            assert forall|w: Seq<u8>| !t@.contains(w) by {
                if w.len() > 0 {
                    assert(!t.has_prefix(w));
                }
            }
            assert(t@ =~= Set::<Seq<u8>>::empty());
            assert(t.paths@[0] =~= Seq::<u8>::empty());
            assert(t.links_wf());
            assert forall|p: Seq<u8>| !can_extend(t@, p) by {}
        }
        t
    }

    /// Adds the word spelled by the given alphabet positions. Adding a word
    /// again changes nothing; nodes of shared prefixes are reused.
    pub fn add_alpha_indices(&mut self, alpha_indices: Vec<u8>)
        requires
            old(self).wf(),
            all_alpha_indices(alpha_indices@),
        ensures
            final(self).wf(),
            final(self)@ == old(self)@.insert(alpha_indices@),
            final(self).node_count() == old(self).node_count() + old(self).missing_prefixes(
                alpha_indices@,
                alpha_indices@.len() as int,
            ),
    {
        let ghost word = alpha_indices@;
        let ghost start = *self;
        let mut node_idx: usize = 0;
        let mut i: usize = 0;
        proof {
            assert(word.take(0) =~= Seq::<u8>::empty());
            assert forall|p: Seq<u8>| #[trigger]
                self.has_prefix(p) <==> start.has_prefix(p) || (p.is_prefix_of(word) && p.len() <= 0) by {
                if p.is_prefix_of(word) && p.len() <= 0 {
                    assert(p =~= Seq::<u8>::empty());
                }
            }
        }
        while i < alpha_indices.len()
            invariant
                word == alpha_indices@,
                all_alpha_indices(word),
                i <= word.len(),
                self.links_wf(),
                self@ == start@,
                node_idx < self.entries@.len(),
                self.entries@.len() == start.entries@.len() + start.missing_prefixes(word, i as int),
                self.node_of(word.take(i as int)) == Some(node_idx as int),
                forall|p: Seq<u8>| #[trigger]
                    self.has_prefix(p) <==> start.has_prefix(p) || (p.is_prefix_of(word) && p.len()
                        <= i),
            decreases word.len() - i,
        {
            let c = alpha_indices[i];
            let ghost before = *self;
            proof {
                assert(word.take(i + 1).drop_last() =~= word.take(i as int));
                assert(word.take(i + 1).last() == c);
                assert(self.has_prefix(word.take(i + 1)) == start.has_prefix(word.take(i + 1)));
                assert(self.has_prefix(word.take(i + 1)) == (self.child_at(
                    node_idx as int,
                    c as int,
                ) is Some));
            }
            match self.entries[node_idx].get_child_idx(c) {
                Some(next_idx) => {
                    proof {
                        assert(self.child_at(node_idx as int, c as int) == Some(next_idx as int));
                        assert forall|p: Seq<u8>| #[trigger]
                            self.has_prefix(p) <==> start.has_prefix(p) || (p.is_prefix_of(word)
                                && p.len() <= i + 1) by {
                            if p.is_prefix_of(word) && p.len() == i + 1 {
                                assert(p =~= word.take(i + 1));
                            }
                        }
                    }
                    node_idx = next_idx;
                },
                None => {
                    let new_idx = self.entries.len();
                    let mut node = self.entries[node_idx];
                    node.set_child_idx(c, new_idx);
                    self.entries.set(node_idx, node);
                    self.entries.push(DictionaryTrieNode::new());
                    proof {
                        before.lemma_node_of_path(word.take(i as int));
                        self.paths@ = before.paths@.push(before.paths@[node_idx as int].push(c));
                        assert(before.grown_by_child(self, node_idx as int, c as int));
                        before.lemma_grown(self, node_idx as int, c as int);
                        assert forall|p: Seq<u8>| #[trigger]
                            self.has_prefix(p) <==> start.has_prefix(p) || (p.is_prefix_of(word)
                                && p.len() <= i + 1) by {
                            assert(before.has_prefix(p) <==> start.has_prefix(p) || (
                            p.is_prefix_of(word) && p.len() <= i));
                            if p.is_prefix_of(word) && p.len() == i + 1 {
                                assert(p =~= word.take(i + 1));
                            }
                            if p == word.take(i + 1) {
                                assert(p.is_prefix_of(word));
                            }
                        }
                    }
                    node_idx = new_idx;
                },
            }
            i += 1;
        }
        let ghost before = *self;
        let mut node = self.entries[node_idx];
        node.mark_word();
        self.entries.set(node_idx, node);
        proof {
            assert(word.take(word.len() as int) =~= word);
            before.lemma_marked(self, word);
            assert forall|p: Seq<u8>| #[trigger]
                self.has_prefix(p) <==> p.len() == 0 || can_extend(self@, p) by {
                assert(before.has_prefix(p) <==> start.has_prefix(p) || (p.is_prefix_of(word)
                    && p.len() <= word.len()));
                assert(start.has_prefix(p) <==> p.len() == 0 || can_extend(start@, p));
                assert(self@.contains(word));
                if can_extend(start@, p) {
                    let w = choose|w: Seq<u8>| #[trigger] start@.contains(w) && p.is_prefix_of(w);
                    assert(self@.contains(w));
                }
                if can_extend(self@, p) {
                    let w = choose|w: Seq<u8>| #[trigger] self@.contains(w) && p.is_prefix_of(w);
                    if w != word {
                        assert(start@.contains(w));
                    }
                }
                if p.len() == 0 {
                    assert(start.has_prefix(p));
                }
            }
        }
    }

    /// The dictionary of the words listed in `word_list`, which are
    /// separated by ASCII white space and consist of ASCII letters.
    pub fn from_word_list(word_list: &str) -> (t: DictionaryTrie)
        requires
            is_word_list(text_bytes(word_list@)),
        ensures
            t.wf(),
            forall|w: Seq<u8>|
                t@.contains(w) <==> exists|k: int|
                    0 <= k < words_of(text_bytes(word_list@)).len() && w == alpha_indices(
                        #[trigger] words_of(text_bytes(word_list@))[k],
                    ),
            forall|w: Seq<u8>|
                t@.contains(w) <==> exists|from: int, to: int|
                    #[trigger] is_token(text_bytes(word_list@), from, to) && w == alpha_indices(
                        text_bytes(word_list@).subrange(from, to),
                    ),
    {
        let ghost text = text_bytes(word_list@);
        let ghost listed = words_of(text);
        let words = split_words(word_list.as_bytes());
        let mut trie = DictionaryTrie::new();
        let mut i: usize = 0;
        proof {
            assert(byte_rows(words@).len() == words@.len());
        }
        while i < words.len()
            invariant
                text == text_bytes(word_list@),
                listed == words_of(text),
                byte_rows(words@) == listed,
                listed.len() == words@.len(),
                is_word_list(text),
                i <= words@.len(),
                trie.wf(),
                forall|w: Seq<u8>|
                    trie@.contains(w) <==> exists|k: int|
                        0 <= k < i && w == alpha_indices(#[trigger] listed[k]),
            decreases words@.len() - i,
        {
            let ghost known = trie@;
            proof {
                assert(byte_rows(words@)[i as int] == words@[i as int]@);
                let (from, to) = lemma_words_are_tokens(text, 0, i as int);
                assert forall|k: int| 0 <= k < listed[i as int].len() implies is_alpha(
                    #[trigger] listed[i as int][k],
                ) by {
                    assert(!is_ascii_space(text[from + k]));
                }
            }
            trie.add_alpha_indices(bytes_to_alpha_indices(words[i].as_slice()));
            proof {
                assert forall|w: Seq<u8>|
                    trie@.contains(w) <==> exists|k: int|
                        0 <= k < i + 1 && w == alpha_indices(#[trigger] listed[k]) by {
                    if known.contains(w) {
                        let k = choose|k: int|
                            0 <= k < i && w == alpha_indices(#[trigger] listed[k]);
                        assert(0 <= k < i + 1 && w == alpha_indices(listed[k]));
                    }
                    if w == alpha_indices(listed[i as int]) {
                        assert(0 <= i < i + 1 && w == alpha_indices(listed[i as int]));
                    }
                    if exists|k: int| 0 <= k < i + 1 && w == alpha_indices(#[trigger] listed[k]) {
                        let k = choose|k: int|
                            0 <= k < i + 1 && w == alpha_indices(#[trigger] listed[k]);
                        if k < i {
                            assert(known.contains(w));
                        }
                    }
                }
            }
            i += 1;
        }
        proof {
            assert forall|w: Seq<u8>|
                trie@.contains(w) <==> exists|from: int, to: int|
                    #[trigger] is_token(text, from, to) && w == alpha_indices(
                        text.subrange(from, to),
                    ) by {
                if trie@.contains(w) {
                    let k = choose|k: int|
                        0 <= k < listed.len() && w == alpha_indices(#[trigger] listed[k]);
                    let (from, to) = lemma_words_are_tokens(text, 0, k);
                    assert(is_token(text, from, to));
                }
                if exists|from: int, to: int|
                    #[trigger] is_token(text, from, to) && w == alpha_indices(
                        text.subrange(from, to),
                    ) {
                    let (from, to) = choose|from: int, to: int|
                        #[trigger] is_token(text, from, to) && w == alpha_indices(
                            text.subrange(from, to),
                        );
                    let k = lemma_tokens_are_words(text, 0, from, to);
                    assert(w == alpha_indices(listed[k]));
                }
            }
        }
        trie
    }

    /// Adds a word, ignoring the case of its letters. The word must consist
    /// of ASCII letters only.
    pub fn add_word(&mut self, s: Word)
        requires
            old(self).wf(),
            all_alpha(text_bytes(s@)),
        ensures
            final(self).wf(),
            final(self)@ == old(self)@.insert(alpha_indices(text_bytes(s@))),
            final(self).node_count() == old(self).node_count() + old(self).missing_prefixes(
                alpha_indices(text_bytes(s@)),
                text_bytes(s@).len() as int,
            ),
    {
        self.add_alpha_indices(word_to_alpha_indices(&s))
    }

    /// A handle on the root, which stands for the empty prefix.
    pub fn root(&self) -> (h: DictionaryTrieNodePtr<'_>)
        requires
            self.wf(),
        ensures
            h.wf(),
            h.trie() == *self,
            h.prefix() == Seq::<u8>::empty(),
    {
        DictionaryTrieNodePtr { dict_trie: self, node_idx: 0 }
    }

    /// Descends from the root along the given alphabet positions. The result
    /// is a handle on the node reached, or nothing where the tree ends before.
    pub fn find_node_from_alpha_indices(&self, alpha_indices: Vec<u8>) -> (r: Option<
        DictionaryTrieNodePtr<'_>,
    >)
        requires
            self.wf(),
            all_alpha_indices(alpha_indices@),
        ensures
            r is Some <==> self.has_prefix(alpha_indices@),
            r matches Some(h) ==> h.wf() && h.trie() == *self && h.prefix() == alpha_indices@,
    {
        let mut ptr = self.root();
        let mut i: usize = 0;
        assert(alpha_indices@.take(0) =~= Seq::<u8>::empty());
        while i < alpha_indices.len()
            invariant
                i <= alpha_indices@.len(),
                all_alpha_indices(alpha_indices@),
                ptr.wf(),
                ptr.trie() == *self,
                ptr.prefix() == alpha_indices@.take(i as int),
            decreases alpha_indices@.len() - i,
        {
            proof {
                assert(alpha_indices@.take(i as int).push(alpha_indices@[i as int])
                    =~= alpha_indices@.take(i + 1));
            }
            match ptr.get_child_idx(alpha_indices[i]) {
                None => {
                    proof {
                        if self.has_prefix(alpha_indices@) {
                            self.lemma_prefix_closed(alpha_indices@, i + 1);
                        }
                    }
                    return None;
                },
                Some(next) => {
                    ptr = next;
                },
            }
            i += 1;
        }
        proof {
            assert(alpha_indices@.take(alpha_indices@.len() as int) =~= alpha_indices@);
            ptr.lemma_prefix_exists();
        }
        Some(ptr)
    }

    /// Whether the given alphabet positions spell a word of the dictionary.
    pub fn are_alpha_indices_word(&self, word: Vec<u8>) -> (b: bool)
        requires
            self.wf(),
            all_alpha_indices(word@),
        ensures
            b == self@.contains(word@),
    {
        match self.find_node_from_alpha_indices(word) {
            None => false,
            Some(n) => n.is_word(),
        }
    }

    /// Whether `s` is a word of the dictionary, whatever the case of its
    /// letters. `s` must consist of ASCII letters only.
    pub fn is_word(&self, s: &Word) -> (b: bool)
        requires
            self.wf(),
            all_alpha(text_bytes(s@)),
        ensures
            b == self@.contains(alpha_indices(text_bytes(s@))),
    {
        self.are_alpha_indices_word(word_to_alpha_indices(s))
    }

    /// Whether the letters `s` spell a word of the dictionary, whatever their
    /// case. `s` must consist of ASCII letters only.
    pub fn is_word_utf8(&self, s: &Vec<u8>) -> (b: bool)
        requires
            self.wf(),
            all_alpha(s@),
        ensures
            b == self@.contains(alpha_indices(s@)),
    {
        self.are_alpha_indices_word(utf8_to_alpha_indices(s))
    }
}

impl<'a> DictionaryTrieNodePtr<'a> {
    /// The handle points into a well-formed dictionary.
    pub closed spec fn wf(&self) -> bool {
        self.dict_trie.wf() && self.node_idx < self.dict_trie.entries@.len()
    }

    /// The dictionary that the handle points into.
    pub closed spec fn trie(&self) -> DictionaryTrie {
        *self.dict_trie
    }

    /// The letters on the way from the root to the handle's node.
    pub closed spec fn prefix(&self) -> Seq<u8> {
        self.dict_trie.paths@[self.node_idx as int]
    }

    /// A handle points into a well-formed dictionary.
    pub proof fn lemma_trie_wf(&self)
        requires
            self.wf(),
        ensures
            self.trie().wf(),
    {
    }

    /// The prefix of a handle has a node: the one it points at.
    pub proof fn lemma_prefix_exists(&self)
        requires
            self.wf(),
        ensures
            self.trie().has_prefix(self.prefix()),
    {
        assert(self.dict_trie.node_of(self.dict_trie.paths@[self.node_idx as int]) == Some(
            self.node_idx as int,
        ));
    }

    /// Whether the letters from the root to this node spell a word.
    pub fn is_word(&self) -> (b: bool)
        requires
            self.wf(),
        ensures
            b == self.trie()@.contains(self.prefix()),
    {
        proof {
            assert(self.dict_trie.node_of(self.dict_trie.paths@[self.node_idx as int]) == Some(
                self.node_idx as int,
            ));
        }
        self.dict_trie.entries[self.node_idx].is_word
    }

    /// Descends by the letter `c`, of either case: a handle on the child for
    /// it, or nothing where no word continues with that letter.
    pub fn get_child(&self, c: Letter) -> (r: Option<DictionaryTrieNodePtr<'a>>)
        requires
            self.wf(),
            is_alpha(c),
        ensures
            r is Some <==> self.trie().has_prefix(self.prefix().push(alpha_idx(c))),
            r matches Some(h) ==> h.wf() && h.trie() == self.trie() && h.prefix()
                == self.prefix().push(alpha_idx(c)),
    {
        self.get_child_idx(letter_alpha_idx(c))
    }

    /// Descends by the letter at the alphabet position `alpha_idx`.
    pub fn get_child_idx(&self, alpha_idx: u8) -> (r: Option<DictionaryTrieNodePtr<'a>>)
        requires
            self.wf(),
            alpha_idx < 26,
        ensures
            r is Some <==> self.trie().has_prefix(self.prefix().push(alpha_idx)),
            r matches Some(h) ==> h.wf() && h.trie() == self.trie() && h.prefix()
                == self.prefix().push(alpha_idx),
    {
        proof {
            let p = self.dict_trie.paths@[self.node_idx as int];
            assert(self.dict_trie.node_of(p) == Some(self.node_idx as int));
            assert(p.push(alpha_idx).drop_last() =~= p);
            assert(p.push(alpha_idx).last() == alpha_idx);
            assert(self.dict_trie.node_of(p.push(alpha_idx)) == self.dict_trie.child_at(
                self.node_idx as int,
                alpha_idx as int,
            ));
        }
        match self.dict_trie.entries[self.node_idx].get_child_idx(alpha_idx) {
            None => None,
            Some(new_idx) => {
                assert(self.dict_trie.child_at(self.node_idx as int, alpha_idx as int) == Some(
                    new_idx as int,
                ));
                Some(DictionaryTrieNodePtr { dict_trie: self.dict_trie, node_idx: new_idx })
            },
        }
    }

    /// The dictionary that the handle points into.
    pub fn dict_trie(&self) -> (t: &'a DictionaryTrie)
        ensures
            *t == self.trie(),
    {
        self.dict_trie
    }
}

/// After a word is added it is a word of the dictionary, and a proper prefix
/// of it that was not a word before is not one after.
pub proof fn lemma_added_word_is_word(
    before: DictionaryTrie,
    after: DictionaryTrie,
    word: Seq<u8>,
    prefix: Seq<u8>,
)
    requires
        after@ == before@.insert(word),
    ensures
        after@.contains(word),
        prefix.is_prefix_of(word) && prefix != word && !before@.contains(prefix)
            ==> !after@.contains(prefix),
        forall|other: Seq<u8>| before@.contains(other) ==> after@.contains(other),
{
}

} // verus!
