//! A character-keyed trie over all known headwords, supporting exact
//! membership tests and prefix enumeration capped at a result limit.
//!
//! Nodes live in an arena and address one another by index; every edge leads
//! to a strictly larger index, so the structure is acyclic by construction.

use vstd::prelude::*;
use vstd::seq_lib::*;
use crate::text::chars_of;

verus! {

struct TrieNode {
    /// Outgoing edges, in insertion order; keys are distinct.
    children: Vec<(char, usize)>,
    /// The headword stored at this node, if the node is terminal.
    word: Option<String>,
    /// The sequence of edge labels from the root to this node.
    path: Ghost<Seq<char>>,
}

/// Trie for prefix search queries over headwords.
pub struct WordTrie {
    nodes: Vec<TrieNode>,
}

/// First entry of `cs` whose key is `c`, as the child index it maps to.
spec fn find_key(cs: Seq<(char, usize)>, c: char) -> Option<int>
    decreases cs.len(),
{
    if cs.len() == 0 {
        None
    } else if cs[0].0 == c {
        Some(cs[0].1 as int)
    } else {
        find_key(cs.drop_first(), c)
    }
}

/// Node reached from node `i` by consuming the characters of `p` in order.
spec fn walk(ns: Seq<TrieNode>, i: int, p: Seq<char>) -> Option<int>
    decreases p.len(),
{
    if p.len() == 0 {
        Some(i)
    } else if 0 <= i < ns.len() {
        match find_key(ns[i].children@, p[0]) {
            Some(j) => walk(ns, j, p.drop_first()),
            None => None,
        }
    } else {
        None
    }
}

/// The entry `k` of node `i` points strictly forward, into the arena, and the
/// target's recorded path extends the source's by the edge label.
spec fn entry_ok(ns: Seq<TrieNode>, i: int, k: int) -> bool {
    let e = ns[i].children@[k];
    &&& i < e.1 < ns.len()
    &&& ns[e.1 as int].path@ == ns[i].path@.push(e.0)
}

spec fn nodes_wf(ns: Seq<TrieNode>) -> bool {
    &&& ns.len() >= 1
    &&& ns[0].path@ == Seq::<char>::empty()
    &&& forall|i: int, k: int|
        0 <= i < ns.len() && 0 <= k < ns[i].children@.len() ==> #[trigger] entry_ok(ns, i, k)
    &&& forall|i: int, k1: int, k2: int|
        0 <= i < ns.len() && 0 <= k1 < k2 < ns[i].children@.len() ==> (
        #[trigger] ns[i].children@[k1]).0 != (#[trigger] ns[i].children@[k2]).0
    &&& forall|i: int| 0 <= i < ns.len() ==> #[trigger] word_ok(ns, i)
    &&& forall|i: int| 0 <= i < ns.len() ==> #[trigger] walk(ns, 0, ns[i].path@) == Some(i)
}

/// Every node below the root either is terminal or leads somewhere: nodes
/// exist only on the paths of inserted words, so an interior node always has
/// a child.
spec fn interior_ok(ns: Seq<TrieNode>) -> bool {
    forall|i: int|
        1 <= i < ns.len() ==> ((#[trigger] ns[i]).word is Some || ns[i].children@.len() >= 1)
}

/// A terminal node stores exactly the word spelled by its path.
spec fn word_ok(ns: Seq<TrieNode>, i: int) -> bool {
    match ns[i].word {
        Some(w) => w@ == ns[i].path@,
        None => true,
    }
}

/// Whether the arena rooted at node 0 stores `w` as a terminal word.
spec fn contains_in(ns: Seq<TrieNode>, w: Seq<char>) -> bool {
    match walk(ns, 0, w) {
        Some(j) => 0 <= j < ns.len() && ns[j].word is Some,
        None => false,
    }
}

impl WordTrie {
    #[verifier::type_invariant]
    pub(crate) closed spec fn wf(self) -> bool {
        nodes_wf(self.nodes@) && interior_ok(self.nodes@)
    }

    /// Whether `w` is one of the stored headwords.
    pub closed spec fn contains_word(self, w: Seq<char>) -> bool {
        contains_in(self.nodes@, w)
    }

    /// Whether some stored path matches `p`, that is, whether `p` is a prefix
    /// of at least one inserted word or equal to one.
    pub closed spec fn has_prefix(self, p: Seq<char>) -> bool {
        walk(self.nodes@, 0, p) is Some
    }

    /// Creates an empty trie.
    pub fn new() -> (t: WordTrie)
        ensures
            forall|v: Seq<char>| !t.contains_word(v),
    {
        let root = TrieNode { children: Vec::new(), word: None, path: Ghost(Seq::empty()) };
        let mut nodes: Vec<TrieNode> = Vec::new();
        nodes.push(root);
        let t = WordTrie { nodes };
        proof {
            assert forall|i: int| 0 <= i < t.nodes@.len() implies #[trigger] walk(
                t.nodes@,
                0,
                t.nodes@[i].path@,
            ) == Some(i) by {
                assert(t.nodes@[0].path@ == Seq::<char>::empty());
            }
            assert forall|v: Seq<char>| !t.contains_word(v) by {
                if v.len() > 0 {
                    assert(find_key(t.nodes@[0].children@, v[0]) is None);
                }
            }
        }
        t
    }
}

/// First-match lookup ignores a clean prefix of non-matching entries.
proof fn lemma_find_key_skip(cs: Seq<(char, usize)>, c: char, k: int)
    requires
        0 <= k <= cs.len(),
        forall|j: int| 0 <= j < k ==> (#[trigger] cs[j]).0 != c,
    ensures
        find_key(cs, c) == find_key(cs.skip(k), c),
    decreases k,
{
    if k > 0 {
        lemma_find_key_skip(cs.drop_first(), c, k - 1);
        assert(cs.drop_first().skip(k - 1) =~= cs.skip(k));
    } else {
        assert(cs.skip(0) =~= cs);
    }
}

/// A successful lookup names an actual entry.
proof fn lemma_find_key_some(cs: Seq<(char, usize)>, c: char)
    requires
        find_key(cs, c) is Some,
    ensures
        exists|k: int|
            0 <= k < cs.len() && (#[trigger] cs[k]).0 == c && cs[k].1 as int == find_key(
                cs,
                c,
            ).unwrap(),
    decreases cs.len(),
{
    if cs[0].0 == c {
        assert(cs[0].0 == c && cs[0].1 as int == find_key(cs, c).unwrap());
    } else {
        lemma_find_key_some(cs.drop_first(), c);
        let k = choose|k: int|
            0 <= k < cs.drop_first().len() && (#[trigger] cs.drop_first()[k]).0 == c
                && cs.drop_first()[k].1 as int == find_key(cs.drop_first(), c).unwrap();
        assert(cs[k + 1].0 == c && cs[k + 1].1 as int == find_key(cs, c).unwrap());
    }
}

/// A failed lookup means no entry has the key.
proof fn lemma_find_key_none(cs: Seq<(char, usize)>, c: char)
    requires
        find_key(cs, c) is None,
    ensures
        forall|k: int| 0 <= k < cs.len() ==> (#[trigger] cs[k]).0 != c,
    decreases cs.len(),
{
    if cs.len() > 0 {
        lemma_find_key_none(cs.drop_first(), c);
        assert forall|k: int| 0 <= k < cs.len() implies (#[trigger] cs[k]).0 != c by {
            if k > 0 {
                assert(cs.drop_first()[k - 1] == cs[k]);
            }
        }
    }
}

/// Looking up a key after appending one entry: earlier entries win, the new
/// entry answers exactly for its own key.
proof fn lemma_find_key_push(cs: Seq<(char, usize)>, e: (char, usize), c: char)
    ensures
        find_key(cs.push(e), c) == if find_key(cs, c) is Some {
            find_key(cs, c)
        } else if e.0 == c {
            Some(e.1 as int)
        } else {
            None
        },
    decreases cs.len(),
{
    if cs.len() == 0 {
        assert(cs.push(e) =~= seq![e]);
        assert(seq![e][0] == e);
        assert(seq![e].drop_first().len() == 0);
        assert(find_key(seq![e].drop_first(), c) is None);
        assert(find_key(seq![e], c) == if e.0 == c {
            Some(e.1 as int)
        } else {
            None
        });
    } else {
        lemma_find_key_push(cs.drop_first(), e, c);
        assert(cs.push(e).drop_first() =~= cs.drop_first().push(e));
        assert(cs.push(e)[0] == cs[0]);
    }
}

/// Walking a single character is one edge lookup.
proof fn lemma_walk_one(ns: Seq<TrieNode>, i: int, c: char)
    ensures
        walk(ns, i, seq![c]) == (if 0 <= i < ns.len() {
            find_key(ns[i].children@, c)
        } else {
            None
        }),
{
    let p = seq![c];
    assert(p.len() == 1);
    assert(p[0] == c);
    assert(p.drop_first().len() == 0);
    if 0 <= i < ns.len() {
        match find_key(ns[i].children@, c) {
            Some(j) => {
                assert(walk(ns, j, p.drop_first()) == Some(j));
            },
            None => {},
        }
    }
}

/// Walking a concatenation walks the pieces in turn.
proof fn lemma_walk_append(ns: Seq<TrieNode>, i: int, p: Seq<char>, q: Seq<char>)
    ensures
        walk(ns, i, p + q) == match walk(ns, i, p) {
            Some(j) => walk(ns, j, q),
            None => None,
        },
    decreases p.len(),
{
    if p.len() == 0 {
        assert(p + q =~= q);
    } else {
        assert((p + q)[0] == p[0]);
        assert((p + q).len() > 0);
        if 0 <= i < ns.len() {
            match find_key(ns[i].children@, p[0]) {
                Some(j) => {
                    lemma_walk_append(ns, j, p.drop_first(), q);
                    assert((p + q).drop_first() =~= p.drop_first() + q);
                },
                None => {
                    assert(walk(ns, i, p + q) is None);
                },
            }
        }
    }
}

/// Under well-formedness, a walk from an in-bounds node stays in bounds and
/// lands on the node whose recorded path extends the start's by `p`.
proof fn lemma_walk_path(ns: Seq<TrieNode>, i: int, p: Seq<char>)
    requires
        nodes_wf(ns),
        0 <= i < ns.len(),
        walk(ns, i, p) is Some,
    ensures
        0 <= walk(ns, i, p).unwrap() < ns.len(),
        ns[walk(ns, i, p).unwrap()].path@ == ns[i].path@ + p,
    decreases p.len(),
{
    if p.len() == 0 {
        assert(ns[i].path@ + p =~= ns[i].path@);
    } else {
        let j = find_key(ns[i].children@, p[0]).unwrap();
        lemma_find_key_some(ns[i].children@, p[0]);
        let k = choose|k: int|
            0 <= k < ns[i].children@.len() && (#[trigger] ns[i].children@[k]).0 == p[0]
                && ns[i].children@[k].1 as int == j;
        assert(entry_ok(ns, i, k));
        lemma_walk_path(ns, j, p.drop_first());
        assert(ns[j].path@ == ns[i].path@.push(p[0]));
        assert(ns[i].path@.push(p[0]) + p.drop_first() =~= ns[i].path@ + p);
    }
}

/// Extending the arena with one fresh node hanging off `parent` under a fresh
/// key changes no walk that starts and ends among the old nodes.
proof fn lemma_walk_frame(
    ns: Seq<TrieNode>,
    ns2: Seq<TrieNode>,
    parent: int,
    c: char,
    start: int,
    p: Seq<char>,
)
    requires
        0 <= parent < ns.len(),
        ns.len() < usize::MAX,
        ns2.len() == ns.len() + 1,
        forall|i: int| 0 <= i < ns.len() && i != parent ==> ns2[i] == ns[i],
        ns2[parent].children@ == ns[parent].children@.push((c, ns.len() as usize)),
        find_key(ns[parent].children@, c) is None,
        ns2[ns.len() as int].children@.len() == 0,
        0 <= start < ns.len(),
    ensures
        forall|j: int| walk(ns, start, p) == Some(j) ==> walk(ns2, start, p) == Some(j),
        forall|j: int|
            0 <= j < ns.len() && walk(ns2, start, p) == Some(j) ==> walk(ns, start, p) == Some(j),
    decreases p.len(),
{
    if p.len() == 0 {
    } else {
        lemma_find_key_push(ns[parent].children@, (c, ns.len() as usize), p[0]);
        // forward direction
        if walk(ns, start, p) is Some {
            let m = find_key(ns[start].children@, p[0]).unwrap();
            assert(find_key(ns2[start].children@, p[0]) == Some(m)) by {
                if start == parent {
                    assert(p[0] != c);
                }
            }
            if p.drop_first().len() == 0 {
            } else {
                if !(0 <= m < ns.len()) {
                    assert(walk(ns, m, p.drop_first()) is None);
                    assert(false);
                }
                lemma_walk_frame(ns, ns2, parent, c, m, p.drop_first());
            }
        }
        // backward direction
        if walk(ns2, start, p) is Some {
            let j = walk(ns2, start, p).unwrap();
            if 0 <= j < ns.len() {
                let m2 = find_key(ns2[start].children@, p[0]).unwrap();
                if start == parent && p[0] == c {
                    assert(m2 == ns.len() as int);
                    if p.drop_first().len() == 0 {
                        assert(j == ns.len() as int);
                        assert(false);
                    } else {
                        assert(find_key(ns2[m2].children@, p.drop_first()[0]) is None);
                        assert(false);
                    }
                } else {
                    assert(find_key(ns[start].children@, p[0]) == Some(m2));
                    if p.drop_first().len() == 0 {
                        assert(walk(ns, m2, p.drop_first()) == Some(m2));
                        assert(walk(ns2, m2, p.drop_first()) == Some(m2));
                        assert(walk(ns, start, p) == Some(m2));
                    } else {
                        if m2 == ns.len() as int {
                            assert(find_key(ns2[m2].children@, p.drop_first()[0]) is None);
                            assert(false);
                        }
                        if !(0 <= m2 < ns.len()) {
                            assert(walk(ns2, m2, p.drop_first()) is None);
                            assert(false);
                        }
                        lemma_walk_frame(ns, ns2, parent, c, m2, p.drop_first());
                    }
                }
            }
        }
    }
}

/// Changing only `word` fields leaves every walk unchanged.
proof fn lemma_walk_words_irrelevant(ns: Seq<TrieNode>, ns2: Seq<TrieNode>, i: int, p: Seq<char>)
    requires
        ns2.len() == ns.len(),
        forall|t: int| 0 <= t < ns.len() ==> (#[trigger] ns2[t]).children@ == ns[t].children@,
    ensures
        walk(ns2, i, p) == walk(ns, i, p),
    decreases p.len(),
{
    if p.len() > 0 && 0 <= i < ns.len() {
        match find_key(ns[i].children@, p[0]) {
            Some(j) => {
                lemma_walk_words_irrelevant(ns, ns2, j, p.drop_first());
            },
            None => {},
        }
    }
}

impl WordTrie {
    /// Scans a node's edge list for the edge labelled `c`.
    fn find_child(node: &TrieNode, c: char) -> (r: Option<usize>)
        ensures
            match r {
                Some(j) => find_key(node.children@, c) == Some(j as int),
                None => find_key(node.children@, c) is None,
            },
    {
        let mut k: usize = 0;
        let n = node.children.len();
        while k < n
            invariant
                k <= n,
                n == node.children@.len(),
                forall|j: int| 0 <= j < k ==> (#[trigger] node.children@[j]).0 != c,
            decreases n - k,
        {
            let (key, idx) = node.children[k];
            if key == c {
                proof {
                    lemma_find_key_skip(node.children@, c, k as int);
                    assert(node.children@.skip(k as int)[0] == node.children@[k as int]);
                }
                return Some(idx);
            }
            k = k + 1;
        }
        proof {
            lemma_find_key_skip(node.children@, c, n as int);
            assert(node.children@.skip(n as int).len() == 0);
        }
        None
    }

    /// Inserts a headword. Returns `false`, leaving the trie untouched, when
    /// the word is already stored; `true` otherwise.
    pub fn insert(&mut self, word: String) -> (r: bool)
        ensures
            r == !old(self).contains_word(word@),
            final(self).contains_word(word@),
            forall|v: Seq<char>|
                final(self).contains_word(v) <==> (old(self).contains_word(v) || v == word@),
            !r ==> *final(self) == *old(self),
    {
        proof {
            use_type_invariant(&*self);
        }
        let w = chars_of(word.as_str());
        let ghost orig = self.nodes;
        let mut nodes: Vec<TrieNode> = Vec::new();
        nodes.push(TrieNode { children: Vec::new(), word: None, path: Ghost(Seq::empty()) });
        core::mem::swap(&mut self.nodes, &mut nodes);
        proof {
            assert forall|i: int| 0 <= i < self.nodes@.len() implies #[trigger] walk(
                self.nodes@,
                0,
                self.nodes@[i].path@,
            ) == Some(i) by {}
        }

        let mut cur: usize = 0;
        let mut i: usize = 0;
        let ghost mut created = false;
        while i < w.len()
            invariant
                nodes_wf(nodes@),
                i <= w@.len(),
                w@ == word@,
                cur < nodes@.len(),
                walk(nodes@, 0, w@.subrange(0, i as int)) == Some(cur as int),
                forall|v: Seq<char>| contains_in(nodes@, v) == contains_in(orig@, v),
                forall|i: int|
                    1 <= i < nodes@.len() && i != cur as int ==> ((#[trigger] nodes@[i]).word
                        is Some || nodes@[i].children@.len() >= 1),
                !created ==> nodes == orig && cur < orig@.len(),
                created ==> cur as int == nodes@.len() - 1 && nodes@[cur as int].word is None
                    && nodes@[cur as int].children@.len() == 0,
            decreases w@.len() - i,
        {
            let c = w[i];
            proof {
                assert(w@.subrange(0, i as int).push(c) =~= w@.subrange(0, i + 1));
            }
            match Self::find_child(&nodes[cur], c) {
                Some(j) => {
                    proof {
                        lemma_find_key_some(nodes@[cur as int].children@, c);
                        let k = choose|k: int|
                            0 <= k < nodes@[cur as int].children@.len() && (
                            #[trigger] nodes@[cur as int].children@[k]).0 == c
                                && nodes@[cur as int].children@[k].1 as int == j as int;
                        assert(entry_ok(nodes@, cur as int, k));
                        lemma_walk_append(nodes@, 0, w@.subrange(0, i as int), seq![c]);
                        assert(w@.subrange(0, i as int) + seq![c] =~= w@.subrange(0, i + 1));
                        lemma_walk_one(nodes@, cur as int, c);
                        assert(walk(nodes@, cur as int, seq![c]) == Some(j as int));
                    }
                    cur = j;
                },
                None => {
                    let ghost pre = nodes@;
                    let new_idx = nodes.len();
                    let parent_path: Ghost<Seq<char>> = Ghost(nodes@[cur as int].path@);
                    nodes.push(
                        TrieNode {
                            children: Vec::new(),
                            word: None,
                            path: Ghost(parent_path@.push(c)),
                        },
                    );
                    let parent = &mut nodes[cur];
                    parent.children.push((c, new_idx));
                    let grown_len = nodes.len();
                    proof {
                        let post = nodes@;
                        assert(grown_len as int == pre.len() + 1);
                        assert(pre.len() < usize::MAX);
                        assert(post.len() == pre.len() + 1);
                        assert(forall|t: int|
                            0 <= t < pre.len() && t != cur as int ==> post[t] == pre[t]);
                        assert(post[cur as int].children@ == pre[cur as int].children@.push(
                            (c, new_idx),
                        ));
                        // well-formedness of the extended arena
                        assert forall|a: int, k: int|
                            0 <= a < post.len() && 0 <= k < post[a].children@.len() implies
                        #[trigger] entry_ok(post, a, k) by {
                            if a < pre.len() {
                                if a == cur as int && k == pre[a].children@.len() {
                                    assert(post[a].children@[k] == (c, new_idx));
                                    assert(post[new_idx as int].path@ == post[a].path@.push(c));
                                } else {
                                    assert(entry_ok(pre, a, k));
                                    assert(pre[a].children@[k] == post[a].children@[k]);
                                }
                            }
                        }
                        lemma_find_key_none(pre[cur as int].children@, c);
                        assert forall|a: int, k1: int, k2: int|
                            0 <= a < post.len() && 0 <= k1 < k2 < post[a].children@.len() implies (
                        #[trigger] post[a].children@[k1]).0 != (
                        #[trigger] post[a].children@[k2]).0 by {
                            if a == cur as int && k2 == pre[a].children@.len() {
                                assert(pre[a].children@[k1].0 != c);
                            }
                        }
                        assert forall|a: int| 0 <= a < post.len() implies #[trigger] word_ok(
                            post,
                            a,
                        ) by {
                            if a < pre.len() {
                                assert(word_ok(pre, a));
                            }
                        }
                        assert forall|a: int| 0 <= a < post.len() implies #[trigger] walk(
                            post,
                            0,
                            post[a].path@,
                        ) == Some(a) by {
                            if a < pre.len() {
                                lemma_walk_frame(pre, post, cur as int, c, 0, pre[a].path@);
                                assert(walk(pre, 0, pre[a].path@) == Some(a));
                            } else {
                                lemma_walk_frame(pre, post, cur as int, c, 0, pre[cur as int].path@);
                                assert(walk(post, 0, pre[cur as int].path@) == Some(cur as int));
                                lemma_walk_append(post, 0, pre[cur as int].path@, seq![c]);
                                lemma_find_key_push(pre[cur as int].children@, (c, new_idx), c);
                                lemma_walk_one(post, cur as int, c);
                                assert(walk(post, cur as int, seq![c]) == Some(new_idx as int));
                                assert(pre[cur as int].path@ + seq![c] =~= pre[cur as int].path@.push(c));
                            }
                        }
                        assert(nodes_wf(post));
                        // the walk to the current prefix is preserved and extended
                        lemma_walk_frame(pre, post, cur as int, c, 0, w@.subrange(0, i as int));
                        assert(walk(post, 0, w@.subrange(0, i as int)) == Some(cur as int));
                        lemma_walk_append(post, 0, w@.subrange(0, i as int), seq![c]);
                        lemma_find_key_push(pre[cur as int].children@, (c, new_idx), c);
                        lemma_walk_one(post, cur as int, c);
                        assert(w@.subrange(0, i as int) + seq![c] =~= w@.subrange(0, i + 1));
                        assert(walk(post, 0, w@.subrange(0, i + 1)) == Some(new_idx as int));
                        // stored words are unchanged
                        assert forall|v: Seq<char>| contains_in(post, v) == contains_in(orig@, v) by {
                            lemma_walk_frame(pre, post, cur as int, c, 0, v);
                            if contains_in(post, v) {
                                let j2 = walk(post, 0, v).unwrap();
                                if j2 == new_idx as int {
                                    assert(post[j2].word is None);
                                } else {
                                    assert(walk(pre, 0, v) == Some(j2));
                                }
                            }
                            if contains_in(pre, v) {
                                let j2 = walk(pre, 0, v).unwrap();
                                assert(walk(post, 0, v) == Some(j2));
                            }
                        }
                        created = true;
                    }
                    cur = new_idx;
                },
            }
            i = i + 1;
        }
        proof {
            assert(w@.subrange(0, w@.len() as int) =~= w@);
        }

        let r: bool;
        if nodes[cur].word.is_some() {
            proof {
                assert(contains_in(nodes@, word@));
                assert(!created);
                assert(interior_ok(nodes@));
            }
            r = false;
        } else {
            let ghost pre = nodes@;
            let slot = &mut nodes[cur];
            slot.word = Some(word);
            proof {
                let post = nodes@;
                assert(post.len() == pre.len());
                assert(forall|t: int| 0 <= t < pre.len() ==> (#[trigger] post[t]).children@ == pre[t].children@);
                lemma_walk_path(pre, 0, w@);
                assert(pre[cur as int].path@ =~= w@);
                assert forall|a: int| 0 <= a < post.len() implies #[trigger] word_ok(post, a) by {
                    if a != cur as int {
                        assert(word_ok(pre, a));
                        assert(post[a] == pre[a]);
                    }
                }
                assert forall|a: int| 0 <= a < post.len() implies #[trigger] walk(
                    post,
                    0,
                    post[a].path@,
                ) == Some(a) by {
                    lemma_walk_words_irrelevant(pre, post, 0, post[a].path@);
                    assert(post[a].path@ == pre[a].path@);
                    assert(walk(pre, 0, pre[a].path@) == Some(a));
                }
                assert forall|a: int, k: int|
                    0 <= a < post.len() && 0 <= k < post[a].children@.len() implies
                #[trigger] entry_ok(post, a, k) by {
                    assert(entry_ok(pre, a, k));
                }
                assert(nodes_wf(post));
                assert forall|i: int|
                    1 <= i < post.len() implies ((#[trigger] post[i]).word is Some
                    || post[i].children@.len() >= 1) by {
                    if i != cur as int {
                        assert(post[i] == pre[i]);
                    }
                }
                assert(interior_ok(post));
                assert forall|v: Seq<char>|
                    contains_in(post, v) <==> (contains_in(orig@, v) || v == word@) by {
                    lemma_walk_words_irrelevant(pre, post, 0, v);
                    if v == word@ {
                        assert(walk(post, 0, v) == Some(cur as int));
                        assert(contains_in(post, v));
                    } else {
                        if walk(pre, 0, v) is Some {
                            let j2 = walk(pre, 0, v).unwrap();
                            if 0 <= j2 < pre.len() && j2 != cur as int {
                                assert(post[j2].word == pre[j2].word);
                            } else if j2 == cur as int {
                                lemma_walk_path(pre, 0, v);
                                assert(pre[j2].path@ == pre[0].path@ + v);
                                assert(pre[0].path@ + v =~= v);
                                assert(v == w@);
                            }
                        }
                    }
                }
            }
            r = true;
        }
        core::mem::swap(&mut self.nodes, &mut nodes);
        proof {
            if !r {
                assert(self.nodes == orig);
            }
        }
        r
    }

    /// Exact membership only: answers `true` precisely when `word` itself was
    /// stored, never for a bare prefix of a stored word.
    pub fn has(&self, word: &str) -> (r: bool)
        ensures
            r == self.contains_word(word@),
    {
        proof {
            use_type_invariant(self);
        }
        let w = chars_of(word);
        let mut cur: usize = 0;
        let mut i: usize = 0;
        while i < w.len()
            invariant
                nodes_wf(self.nodes@),
                i <= w@.len(),
                w@ == word@,
                cur < self.nodes@.len(),
                walk(self.nodes@, 0, w@.subrange(0, i as int)) == Some(cur as int),
            decreases w@.len() - i,
        {
            let c = w[i];
            match Self::find_child(&self.nodes[cur], c) {
                Some(j) => {
                    proof {
                        lemma_find_key_some(self.nodes@[cur as int].children@, c);
                        let k = choose|k: int|
                            0 <= k < self.nodes@[cur as int].children@.len() && (
                            #[trigger] self.nodes@[cur as int].children@[k]).0 == c
                                && self.nodes@[cur as int].children@[k].1 as int == j as int;
                        assert(entry_ok(self.nodes@, cur as int, k));
                        lemma_walk_append(self.nodes@, 0, w@.subrange(0, i as int), seq![c]);
                        assert(w@.subrange(0, i as int) + seq![c] =~= w@.subrange(0, i + 1));
                        lemma_walk_one(self.nodes@, cur as int, c);
                        assert(walk(self.nodes@, cur as int, seq![c]) == Some(j as int));
                    }
                    cur = j;
                },
                None => {
                    proof {
                        lemma_walk_append(self.nodes@, 0, w@.subrange(0, i as int), w@.skip(i as int));
                        assert(w@.subrange(0, i as int) + w@.skip(i as int) =~= w@);
                        assert(w@.skip(i as int)[0] == w@[i as int]);
                        assert(walk(self.nodes@, cur as int, w@.skip(i as int)) is None);
                    }
                    return false;
                },
            }
            i = i + 1;
        }
        proof {
            assert(w@.subrange(0, w@.len() as int) =~= w@);
        }
        self.nodes[cur].word.is_some()
    }
}

/// Number of nodes in the subtree rooted at `i`, counting `i` itself.
spec fn subtree_size(ns: Seq<TrieNode>, i: int) -> nat
    decreases ns.len() - i, ns[i].children@.len() + 1,
{
    1 + children_sizes(ns, i, ns[i].children@.len() as int)
}

/// Sum of the subtree sizes of the first `k` children of node `i`.
spec fn children_sizes(ns: Seq<TrieNode>, i: int, k: int) -> nat
    decreases ns.len() - i, k,
{
    if k <= 0 {
        0
    } else {
        let j = ns[i].children@[k - 1].1 as int;
        children_sizes(ns, i, k - 1) + (if i < j < ns.len() {
            subtree_size(ns, j)
        } else {
            0
        })
    }
}

proof fn lemma_children_sizes_mono(ns: Seq<TrieNode>, i: int, k1: int, k2: int)
    requires
        k1 <= k2,
    ensures
        children_sizes(ns, i, k1) <= children_sizes(ns, i, k2),
    decreases k2 - k1,
{
    if k1 < k2 {
        lemma_children_sizes_mono(ns, i, k1, k2 - 1);
    }
}

/// Combined size of the subtrees whose roots sit on the traversal stack.
spec fn stack_sizes(ns: Seq<TrieNode>, st: Seq<usize>) -> nat
    decreases st.len(),
{
    if st.len() == 0 {
        0
    } else {
        stack_sizes(ns, st.drop_last()) + (if (st.last() as int) < ns.len() {
            subtree_size(ns, st.last() as int)
        } else {
            0
        })
    }
}

/// Node `i` has an edge to node `j`.
spec fn is_child(ns: Seq<TrieNode>, i: int, j: int) -> bool {
    exists|k: int| 0 <= k < ns[i].children@.len() && (#[trigger] ns[i].children@[k]).1 as int == j
}

/// Position `j` occurs on the traversal stack.
spec fn on_stack(st: Seq<usize>, j: int) -> bool {
    exists|t: int| 0 <= t < st.len() && (#[trigger] st[t]) as int == j
}

/// Some already-visited node has an edge to `j`.
spec fn parent_in(ns: Seq<TrieNode>, popped: Set<int>, j: int) -> bool {
    exists|i: int| #[trigger] popped.contains(i) && 0 <= i < ns.len() && is_child(ns, i, j)
}

/// Some already-visited node is terminal with word `wv`.
spec fn res_witness(ns: Seq<TrieNode>, popped: Set<int>, wv: Seq<char>) -> bool {
    exists|nd: int|
        #[trigger] popped.contains(nd) && 0 <= nd < ns.len() && match ns[nd].word {
            Some(w) => w@ == wv,
            None => false,
        }
}

/// `j` is one of the first `k` children of node `i`.
spec fn pushed_child(ns: Seq<TrieNode>, i: int, k: int, j: usize) -> bool {
    exists|kp: int| 0 <= kp < k && (#[trigger] ns[i].children@[kp]).1 == j
}

/// `v` appears among the collected results.
spec fn in_results(res: Seq<String>, v: Seq<char>) -> bool {
    exists|t: int| 0 <= t < res.len() && (#[trigger] res[t])@ == v
}

/// Some pending stack entry's subtree still covers `v`: the entry's recorded
/// path is a prefix of `v`.
spec fn stack_covers(ns: Seq<TrieNode>, st: Seq<usize>, v: Seq<char>) -> bool {
    exists|t: int|
        0 <= t < st.len() && ((#[trigger] st[t]) as int) < ns.len()
            && ns[st[t] as int].path@.is_prefix_of(v)
}

/// `v` continues below child `kp` of node `i`.
spec fn child_route(ns: Seq<TrieNode>, i: int, kp: int, v: Seq<char>) -> bool {
    0 <= kp < ns[i].children@.len() && (ns[i].children@[kp].1 as int) < ns.len()
        && ns[ns[i].children@[kp].1 as int].path@.is_prefix_of(v)
}

/// A node hangs off only one parent: its recorded path names the edge label
/// and, through walk coherence, the parent.
proof fn lemma_parent_unique(ns: Seq<TrieNode>, i1: int, i2: int, j: int)
    requires
        nodes_wf(ns),
        0 <= i1 < ns.len(),
        0 <= i2 < ns.len(),
        is_child(ns, i1, j),
        is_child(ns, i2, j),
    ensures
        i1 == i2,
{
    let k1 = choose|k: int|
        0 <= k < ns[i1].children@.len() && (#[trigger] ns[i1].children@[k]).1 as int == j;
    let k2 = choose|k: int|
        0 <= k < ns[i2].children@.len() && (#[trigger] ns[i2].children@[k]).1 as int == j;
    assert(entry_ok(ns, i1, k1));
    assert(entry_ok(ns, i2, k2));
    assert(ns[j].path@ == ns[i1].path@.push(ns[i1].children@[k1].0));
    assert(ns[j].path@ == ns[i2].path@.push(ns[i2].children@[k2].0));
    assert(ns[i1].path@ =~= ns[j].path@.drop_last());
    assert(ns[i2].path@ =~= ns[j].path@.drop_last());
    assert(walk(ns, 0, ns[i1].path@) == Some(i1));
    assert(walk(ns, 0, ns[i2].path@) == Some(i2));
}

/// Two edges of one node lead to two different nodes.
proof fn lemma_children_distinct(ns: Seq<TrieNode>, i: int, k1: int, k2: int)
    requires
        nodes_wf(ns),
        0 <= i < ns.len(),
        0 <= k1 < k2 < ns[i].children@.len(),
    ensures
        ns[i].children@[k1].1 != ns[i].children@[k2].1,
{
    if ns[i].children@[k1].1 == ns[i].children@[k2].1 {
        assert(entry_ok(ns, i, k1));
        assert(entry_ok(ns, i, k2));
        let j = ns[i].children@[k1].1 as int;
        assert(ns[j].path@ == ns[i].path@.push(ns[i].children@[k1].0));
        assert(ns[j].path@ == ns[i].path@.push(ns[i].children@[k2].0));
        assert(ns[i].children@[k1].0 == ns[j].path@.last());
        assert(ns[i].children@[k2].0 == ns[j].path@.last());
        assert(false);
    }
}

impl WordTrie {
    /// Walks to the node matching `word`, then enumerates terminal headwords
    /// below it, depth first, until `limit` results are collected or the
    /// explored frontier would exceed `limit` pending nodes.
    ///
    /// When `word` itself is stored and `limit` is at least one, it is the
    /// first result. Each node is visited at most once, so no headword is
    /// reported twice; as long as any stored word extends the prefix, at
    /// least one is reported; and whenever fewer than `limit` results come
    /// back, every stored word extending the prefix is among them.
    pub fn prefix_search(&self, word: &str, limit: usize) -> (res: Vec<String>)
        ensures
            res@.len() <= limit,
            forall|t: int|
                0 <= t < res@.len() ==> self.contains_word(#[trigger] res@[t]@)
                    && word@.is_prefix_of(res@[t]@),
            !self.has_prefix(word@) ==> res@.len() == 0,
            self.contains_word(word@) && limit >= 1 ==> res@.len() >= 1 && res@[0]@ == word@,
            (exists|v: Seq<char>| #[trigger] self.contains_word(v) && word@.is_prefix_of(v))
                && limit >= 1 ==> res@.len() >= 1,
            forall|t1: int, t2: int|
                0 <= t1 < t2 < res@.len() ==> (#[trigger] res@[t1])@ != (#[trigger] res@[t2])@,
            res@.len() < limit ==> forall|v: Seq<char>|
                #[trigger] self.contains_word(v) && word@.is_prefix_of(v) ==> exists|t: int|
                    0 <= t < res@.len() && (#[trigger] res@[t])@ == v,
    {
        proof {
            use_type_invariant(self);
        }
        let w = chars_of(word);
        let mut cur: usize = 0;
        let mut i: usize = 0;
        while i < w.len()
            invariant
                nodes_wf(self.nodes@),
                i <= w@.len(),
                w@ == word@,
                cur < self.nodes@.len(),
                walk(self.nodes@, 0, w@.subrange(0, i as int)) == Some(cur as int),
            decreases w@.len() - i,
        {
            let c = w[i];
            match Self::find_child(&self.nodes[cur], c) {
                Some(j) => {
                    proof {
                        lemma_find_key_some(self.nodes@[cur as int].children@, c);
                        let k = choose|k: int|
                            0 <= k < self.nodes@[cur as int].children@.len() && (
                            #[trigger] self.nodes@[cur as int].children@[k]).0 == c
                                && self.nodes@[cur as int].children@[k].1 as int == j as int;
                        assert(entry_ok(self.nodes@, cur as int, k));
                        lemma_walk_append(self.nodes@, 0, w@.subrange(0, i as int), seq![c]);
                        assert(w@.subrange(0, i as int) + seq![c] =~= w@.subrange(0, i + 1));
                        lemma_walk_one(self.nodes@, cur as int, c);
                    }
                    cur = j;
                },
                None => {
                    proof {
                        lemma_walk_append(
                            self.nodes@,
                            0,
                            w@.subrange(0, i as int),
                            w@.skip(i as int),
                        );
                        assert(w@.subrange(0, i as int) + w@.skip(i as int) =~= w@);
                        assert(w@.skip(i as int)[0] == w@[i as int]);
                        assert(walk(self.nodes@, cur as int, w@.skip(i as int)) is None);
                        assert(walk(self.nodes@, 0, w@) is None);
                        assert forall|v: Seq<char>|
                            !(#[trigger] contains_in(self.nodes@, v) && w@.is_prefix_of(v)) by {
                            if contains_in(self.nodes@, v) && w@.is_prefix_of(v) {
                                lemma_walk_append(self.nodes@, 0, w@, v.skip(w@.len() as int));
                                assert(w@ + v.skip(w@.len() as int) =~= v);
                                assert(walk(self.nodes@, 0, v) is None);
                            }
                        }
                    }
                    return Vec::new();
                },
            }
            i = i + 1;
        }
        proof {
            assert(w@.subrange(0, w@.len() as int) =~= w@);
            lemma_walk_path(self.nodes@, 0, w@);
            assert(self.nodes@[0].path@ + w@ =~= w@);
            assert(self.nodes@[cur as int].path@ == w@);
        }

        let ghost ns = self.nodes@;
        let mut res: Vec<String> = Vec::new();
        let mut stack: Vec<usize> = Vec::new();
        stack.push(cur);
        let ghost mut popped: Set<int> = Set::empty();
        // whether every matching word is still accounted for: reported, or
        // below a pending stack entry; a child dropped at the stack cap
        // clears it, but only once enough pending work guarantees `limit`
        // results anyway
        let ghost mut complete: bool = true;
        proof {
            assert(w@.is_prefix_of(ns[cur as int].path@));
            assert(stack@ =~= seq![cur]);
            assert forall|v: Seq<char>|
                #[trigger] contains_in(ns, v) && w@.is_prefix_of(v) implies in_results(res@, v)
                || stack_covers(ns, stack@, v) by {
                assert(stack@[0] == cur);
                assert(ns[cur as int].path@.is_prefix_of(v));
            }
        }
        while stack.len() > 0 && res.len() < limit
            invariant
                nodes_wf(ns),
                ns == self.nodes@,
                w@ == word@,
                cur < ns.len(),
                walk(ns, 0, w@) == Some(cur as int),
                ns[cur as int].path@ == w@,
                res@.len() <= limit,
                forall|t: int|
                    0 <= t < stack@.len() ==> (#[trigger] stack@[t]) < ns.len()
                        && w@.is_prefix_of(ns[stack@[t] as int].path@),
                forall|t: int|
                    0 <= t < res@.len() ==> contains_in(ns, #[trigger] res@[t]@)
                        && w@.is_prefix_of(res@[t]@),
                contains_in(ns, w@) && limit >= 1 ==> (res@.len() >= 1 && res@[0]@ == w@) || (
                res@.len() == 0 && stack@ == seq![cur]),
                interior_ok(ns),
                limit >= 1 ==> stack@.len() <= limit,
                (exists|v: Seq<char>| #[trigger] contains_in(ns, v) && w@.is_prefix_of(v)) && limit
                    >= 1 && res@.len() == 0 ==> stack@.len() >= 1,
                forall|t1: int, t2: int|
                    0 <= t1 < t2 < stack@.len() ==> (#[trigger] stack@[t1]) != (
                    #[trigger] stack@[t2]),
                forall|t: int|
                    0 <= t < stack@.len() ==> !popped.contains((#[trigger] stack@[t]) as int),
                forall|t: int| 0 <= t < stack@.len() ==> cur <= (#[trigger] stack@[t]),
                forall|x: int| #[trigger] popped.contains(x) ==> cur as int <= x < ns.len(),
                forall|j: int|
                    #[trigger] on_stack(stack@, j) && j != cur as int ==> parent_in(ns, popped, j),
                forall|j: int|
                    #[trigger] popped.contains(j) && j != cur as int ==> parent_in(ns, popped, j),
                forall|t: int|
                    0 <= t < res@.len() ==> res_witness(ns, popped, (#[trigger] res@[t])@),
                forall|t1: int, t2: int|
                    0 <= t1 < t2 < res@.len() ==> (#[trigger] res@[t1])@ != (#[trigger] res@[t2])@,
                forall|t: int|
                    0 <= t < stack@.len() ==> ((#[trigger] stack@[t]) as int) >= 1 || stack@[t]
                        == cur,
                stack@ == seq![cur] || popped.contains(cur as int),
                !complete ==> popped.contains(cur as int),
                complete ==> forall|v: Seq<char>|
                    #[trigger] contains_in(ns, v) && w@.is_prefix_of(v) ==> in_results(res@, v)
                        || stack_covers(ns, stack@, v),
                !complete ==> res@.len() + stack@.len() >= limit as int,
            decreases stack_sizes(ns, stack@),
        {
            let ghost stack_orig = stack@;
            let ghost res_head = res@;
            let top = stack.pop();
            let node_idx: usize = match top {
                Some(x) => x,
                None => 0,
            };
            let ghost stack_after_pop = stack@;
            let ghost popped_before = popped;
            proof {
                assert(stack_orig.drop_last() =~= stack_after_pop);
                assert(node_idx == stack_orig.last());
                assert(stack_sizes(ns, stack_orig) == stack_sizes(ns, stack_after_pop)
                    + subtree_size(ns, node_idx as int));
                // the popped node has not been visited before
                assert(stack_orig[stack_orig.len() - 1] == node_idx);
                assert(on_stack(stack_orig, node_idx as int));
                assert(!popped_before.contains(node_idx as int));
                popped = popped.insert(node_idx as int);
                assert forall|t: int| 0 <= t < stack_after_pop.len() implies !popped.contains(
                    (#[trigger] stack_after_pop[t]) as int,
                ) by {
                    assert(stack_after_pop[t] == stack_orig[t]);
                    assert(stack_orig[t] != stack_orig[stack_orig.len() - 1]);
                }
                assert forall|j: int|
                    #[trigger] on_stack(stack_after_pop, j) && j != cur as int implies parent_in(
                    ns,
                    popped_before,
                    j,
                ) && parent_in(ns, popped, j) by {
                    let t = choose|t: int|
                        0 <= t < stack_after_pop.len() && (#[trigger] stack_after_pop[t]) as int
                            == j;
                    assert(stack_orig[t] as int == j);
                    assert(on_stack(stack_orig, j));
                    let i = choose|i: int|
                        #[trigger] popped_before.contains(i) && 0 <= i < ns.len() && is_child(
                            ns,
                            i,
                            j,
                        );
                    assert(popped.contains(i));
                }
                assert forall|j: int|
                    #[trigger] popped.contains(j) && j != cur as int implies parent_in(
                    ns,
                    popped,
                    j,
                ) by {
                    if j == node_idx as int {
                        let i = choose|i: int|
                            #[trigger] popped_before.contains(i) && 0 <= i < ns.len() && is_child(
                                ns,
                                i,
                                j,
                            );
                        assert(popped.contains(i));
                    } else {
                        assert(popped_before.contains(j));
                        let i = choose|i: int|
                            #[trigger] popped_before.contains(i) && 0 <= i < ns.len() && is_child(
                                ns,
                                i,
                                j,
                            );
                        assert(popped.contains(i));
                    }
                }
                assert forall|t: int| 0 <= t < res@.len() implies res_witness(
                    ns,
                    popped,
                    (#[trigger] res@[t])@,
                ) by {
                    let nd = choose|nd: int|
                        #[trigger] popped_before.contains(nd) && 0 <= nd < ns.len() && match ns[nd].word {
                            Some(wx) => wx@ == res@[t]@,
                            None => false,
                        };
                    assert(popped.contains(nd));
                }
            }
            if let Some(wrd) = &self.nodes[node_idx].word {
                proof {
                    assert(word_ok(ns, node_idx as int));
                    assert(wrd@ == ns[node_idx as int].path@);
                    assert(walk(ns, 0, ns[node_idx as int].path@) == Some(node_idx as int));
                    assert(contains_in(ns, wrd@));
                    if contains_in(ns, w@) && limit >= 1 && res@.len() == 0 && stack_orig =~= seq![
                        cur,
                    ] {
                        assert(node_idx == cur);
                        assert(wrd@ == w@);
                    }
                    // this node was never reported before: an earlier report
                    // would name an earlier-visited node with the same word,
                    // hence the same path, hence this very node
                    assert forall|t: int| 0 <= t < res@.len() implies (#[trigger] res@[t])@
                        != wrd@ by {
                        if res@[t]@ == wrd@ {
                            let nd = choose|nd: int|
                                #[trigger] popped_before.contains(nd) && 0 <= nd < ns.len()
                                    && match ns[nd].word {
                                    Some(wx) => wx@ == res@[t]@,
                                    None => false,
                                };
                            assert(word_ok(ns, nd));
                            assert(ns[nd].path@ == wrd@);
                            assert(walk(ns, 0, ns[nd].path@) == Some(nd));
                            assert(nd == node_idx as int);
                            assert(false);
                        }
                    }
                }
                let ghost res_pre = res@;
                res.push(wrd.clone());
                proof {
                    assert(res@.drop_last() =~= res_pre);
                    assert(res_witness(ns, popped, res@[res@.len() - 1]@)) by {
                        assert(popped.contains(node_idx as int));
                    }
                }
            } else {
                proof {
                    if contains_in(ns, w@) && limit >= 1 && res@.len() == 0 && stack_orig =~= seq![
                        cur,
                    ] {
                        assert(node_idx == cur);
                        assert(ns[cur as int].word is Some);
                        assert(false);
                    }
                }
            }
            let n = self.nodes[node_idx].children.len();
            let mut k: usize = 0;
            proof {
                // the popped node's own coverage burden moves to the report
                // just made (exact match) or to the child edge the word
                // continues through
                if complete {
                    assert forall|v: Seq<char>|
                        #[trigger] contains_in(ns, v) && w@.is_prefix_of(v) implies in_results(
                        res@,
                        v,
                    ) || stack_covers(ns, stack@, v) || (exists|kp: int|
                        k as int <= kp < n as int && #[trigger] child_route(
                            ns,
                            node_idx as int,
                            kp,
                            v,
                        )) by {
                        if in_results(res_head, v) {
                            let t = choose|t: int| 0 <= t < res_head.len() && (#[trigger] res_head[t])@ == v;
                            assert(res@[t]@ == v);
                            assert(in_results(res@, v));
                        } else {
                            let t = choose|t: int|
                                0 <= t < stack_orig.len() && ((#[trigger] stack_orig[t]) as int)
                                    < ns.len() && ns[stack_orig[t] as int].path@.is_prefix_of(v);
                            if t < stack_orig.len() - 1 {
                                assert(stack@[t] == stack_orig[t]);
                                assert(stack_covers(ns, stack@, v));
                            } else {
                                let p = ns[node_idx as int].path@;
                                assert(p.is_prefix_of(v));
                                if p.len() == v.len() {
                                    assert(p =~= v);
                                    let j = walk(ns, 0, v).unwrap();
                                    assert(walk(ns, 0, ns[node_idx as int].path@) == Some(
                                        node_idx as int,
                                    ));
                                    assert(j == node_idx as int);
                                    assert(ns[node_idx as int].word is Some);
                                    assert(word_ok(ns, node_idx as int));
                                    assert(res@.len() == res_head.len() + 1);
                                    assert(res@[res@.len() - 1]@ == p);
                                    assert(in_results(res@, v));
                                } else {
                                    let rest = v.skip(p.len() as int);
                                    lemma_walk_append(ns, 0, p, rest);
                                    assert(p + rest =~= v);
                                    assert(walk(ns, 0, p) == Some(node_idx as int));
                                    assert(walk(ns, node_idx as int, rest) is Some);
                                    assert(rest.len() > 0);
                                    assert(rest[0] == v[p.len() as int]);
                                    assert(find_key(ns[node_idx as int].children@, rest[0])
                                        is Some);
                                    lemma_find_key_some(ns[node_idx as int].children@, rest[0]);
                                    let kp = choose|kp: int|
                                        0 <= kp < ns[node_idx as int].children@.len() && (
                                        #[trigger] ns[node_idx as int].children@[kp]).0 == rest[0]
                                            && ns[node_idx as int].children@[kp].1 as int
                                            == find_key(
                                            ns[node_idx as int].children@,
                                            rest[0],
                                        ).unwrap();
                                    assert(entry_ok(ns, node_idx as int, kp));
                                    let j0 = ns[node_idx as int].children@[kp].1 as int;
                                    assert(ns[j0].path@ == p.push(rest[0]));
                                    assert(p.push(rest[0]) =~= v.subrange(0, p.len() as int + 1));
                                    assert(ns[j0].path@.is_prefix_of(v));
                                    assert(child_route(ns, node_idx as int, kp, v));
                                }
                            }
                        }
                    }
                }
                if stack_orig == seq![cur] {
                    assert(stack_orig.last() == cur);
                    assert(popped.contains(cur as int));
                } else {
                    assert(popped_before.contains(cur as int));
                }
                if !complete {
                    // the node just popped is productive: it is not the
                    // search root, so it is terminal or has a child
                    assert(popped_before.contains(cur as int));
                    assert(node_idx != cur);
                    assert((node_idx as int) >= 1);
                    if ns[node_idx as int].word is None {
                        assert(ns[node_idx as int].children@.len() >= 1);
                    } else {
                        assert(res@.len() == res_head.len() + 1);
                    }
                }
            }
            while k < n && stack.len() < limit
                invariant
                    nodes_wf(ns),
                    ns == self.nodes@,
                    node_idx < ns.len(),
                    n == ns[node_idx as int].children@.len(),
                    k <= n,
                    forall|t: int|
                        0 <= t < stack@.len() ==> (#[trigger] stack@[t]) < ns.len()
                            && w@.is_prefix_of(ns[stack@[t] as int].path@),
                    w@.is_prefix_of(ns[node_idx as int].path@),
                    stack_sizes(ns, stack@) <= stack_sizes(ns, stack_after_pop) + children_sizes(
                        ns,
                        node_idx as int,
                        k as int,
                    ),
                    limit >= 1 ==> stack@.len() <= limit,
                    k >= 1 ==> stack@.len() >= 1,
                    cur <= node_idx,
                    popped == popped_before.insert(node_idx as int),
                    !popped_before.contains(node_idx as int),
                    stack_after_pop.len() <= stack@.len(),
                    forall|t: int|
                        0 <= t < stack_after_pop.len() ==> #[trigger] stack@[t]
                            == stack_after_pop[t],
                    forall|t: int|
                        stack_after_pop.len() <= t < stack@.len() ==> pushed_child(
                            ns,
                            node_idx as int,
                            k as int,
                            #[trigger] stack@[t],
                        ),
                    forall|j: int|
                        #[trigger] on_stack(stack_after_pop, j) && j != cur as int ==> parent_in(
                            ns,
                            popped_before,
                            j,
                        ),
                    forall|j: int|
                        #[trigger] popped_before.contains(j) && j != cur as int ==> parent_in(
                            ns,
                            popped_before,
                            j,
                        ),
                    forall|t1: int, t2: int|
                        0 <= t1 < t2 < stack@.len() ==> (#[trigger] stack@[t1]) != (
                        #[trigger] stack@[t2]),
                    forall|t: int|
                        0 <= t < stack@.len() ==> !popped.contains((#[trigger] stack@[t]) as int),
                    forall|t: int| 0 <= t < stack@.len() ==> cur <= (#[trigger] stack@[t]),
                    forall|j: int|
                        #[trigger] on_stack(stack@, j) && j != cur as int ==> parent_in(
                            ns,
                            popped,
                            j,
                        ),
                    popped.contains(cur as int),
                    forall|t: int|
                        0 <= t < stack@.len() ==> ((#[trigger] stack@[t]) as int) >= 1 || stack@[t]
                            == cur,
                    complete ==> forall|v: Seq<char>|
                        #[trigger] contains_in(ns, v) && w@.is_prefix_of(v) ==> in_results(res@, v)
                            || stack_covers(ns, stack@, v) || (exists|kp: int|
                            k as int <= kp < n as int && #[trigger] child_route(
                                ns,
                                node_idx as int,
                                kp,
                                v,
                            )),
                    !complete ==> res@.len() + stack@.len() + 1 >= limit as int,
                    !complete ==> res@.len() + stack@.len() >= limit as int || (k == 0 && 1 <= n),
                decreases n - k,
            {
                let (ckey, cidx) = self.nodes[node_idx].children[k];
                proof {
                    assert(entry_ok(ns, node_idx as int, k as int));
                    assert(ns[cidx as int].path@ == ns[node_idx as int].path@.push(ckey));
                    assert(w@.is_prefix_of(ns[cidx as int].path@)) by {
                        let p = ns[node_idx as int].path@;
                        assert(w@ =~= p.subrange(0, w@.len() as int));
                        assert(p.push(ckey).subrange(0, w@.len() as int) =~= p.subrange(
                            0,
                            w@.len() as int,
                        ));
                    }
                }
                let ghost stack_pre_push = stack@;
                stack.push(cidx);
                proof {
                    assert(stack@.drop_last() =~= stack_pre_push);
                    assert(stack_sizes(ns, stack@) == stack_sizes(ns, stack_pre_push)
                        + subtree_size(ns, cidx as int));
                    assert(children_sizes(ns, node_idx as int, k + 1) == children_sizes(
                        ns,
                        node_idx as int,
                        k as int,
                    ) + subtree_size(ns, cidx as int));
                    // the pushed child is new to the traversal: its only
                    // parent is the node popped this very iteration
                    assert(node_idx < cidx);
                    assert(is_child(ns, node_idx as int, cidx as int)) by {
                        assert((ns[node_idx as int].children@[k as int]).1 as int == cidx as int);
                    }
                    assert(!popped.contains(cidx as int)) by {
                        if popped.contains(cidx as int) {
                            assert(popped_before.contains(cidx as int));
                            let i = choose|i: int|
                                #[trigger] popped_before.contains(i) && 0 <= i < ns.len()
                                    && is_child(ns, i, cidx as int);
                            lemma_parent_unique(ns, i, node_idx as int, cidx as int);
                            assert(false);
                        }
                    }
                    assert forall|t: int| 0 <= t < stack_pre_push.len() implies (
                    #[trigger] stack_pre_push[t]) != cidx by {
                        if stack_pre_push[t] == cidx {
                            if t < stack_after_pop.len() {
                                assert(on_stack(stack_after_pop, cidx as int));
                                let i = choose|i: int|
                                    #[trigger] popped_before.contains(i) && 0 <= i < ns.len()
                                        && is_child(ns, i, cidx as int);
                                lemma_parent_unique(ns, i, node_idx as int, cidx as int);
                                assert(false);
                            } else {
                                let kp = choose|kp: int|
                                    0 <= kp < k as int && (
                                    #[trigger] ns[node_idx as int].children@[kp]).1
                                        == stack_pre_push[t];
                                lemma_children_distinct(ns, node_idx as int, kp, k as int);
                                assert(false);
                            }
                        }
                    }
                    assert forall|j: int|
                        #[trigger] on_stack(stack@, j) && j != cur as int implies parent_in(
                        ns,
                        popped,
                        j,
                    ) by {
                        let t = choose|t: int|
                            0 <= t < stack@.len() && (#[trigger] stack@[t]) as int == j;
                        if t < stack_pre_push.len() {
                            assert(stack_pre_push[t] as int == j);
                            assert(on_stack(stack_pre_push, j));
                        } else {
                            assert(j == cidx as int);
                            assert(popped.contains(node_idx as int));
                        }
                    }
                    assert forall|t: int|
                        stack_after_pop.len() <= t < stack@.len() implies pushed_child(
                        ns,
                        node_idx as int,
                        k + 1,
                        #[trigger] stack@[t],
                    ) by {
                        if t < stack_pre_push.len() {
                            let kp = choose|kp: int|
                                0 <= kp < k as int && (
                                #[trigger] ns[node_idx as int].children@[kp]).1
                                    == stack_pre_push[t];
                            assert((ns[node_idx as int].children@[kp]).1 == stack@[t]);
                        } else {
                            assert((ns[node_idx as int].children@[k as int]).1 == stack@[t]);
                        }
                    }
                }
                k = k + 1;
            }
            proof {
                lemma_children_sizes_mono(ns, node_idx as int, k as int, n as int);
                assert(subtree_size(ns, node_idx as int) == 1 + children_sizes(
                    ns,
                    node_idx as int,
                    n as int,
                ));
                assert(stack_sizes(ns, stack@) < stack_sizes(ns, stack_orig));
                if k < n {
                    // a child was dropped at the cap: every pending entry
                    // guards at least one unreported word, so the result is
                    // certain to fill up to the limit regardless
                    assert(stack@.len() >= limit);
                    complete = false;
                }
                if (exists|v: Seq<char>| #[trigger] contains_in(ns, v) && w@.is_prefix_of(v))
                    && limit >= 1 && res@.len() == 0 {
                    assert(ns[node_idx as int].word is None);
                    if n == 0 {
                        if node_idx == 0 {
                            let v = choose|v: Seq<char>|
                                #[trigger] contains_in(ns, v) && w@.is_prefix_of(v);
                            if v.len() == 0 {
                                assert(walk(ns, 0, v) == Some(0int));
                            } else {
                                assert(find_key(ns[0].children@, v[0]) is None);
                                assert(walk(ns, 0, v) is None);
                            }
                            assert(false);
                        } else {
                            assert(false);
                        }
                    }
                    if k == n {
                        assert(stack@.len() >= 1);
                    } else {
                        assert(stack@.len() >= limit);
                    }
                }
            }
        }
        proof {
            if res@.len() < limit {
                assert(complete);
                assert forall|v: Seq<char>|
                    #[trigger] contains_in(ns, v) && w@.is_prefix_of(v) implies exists|t: int|
                    0 <= t < res@.len() && (#[trigger] res@[t])@ == v by {
                    assert(in_results(res@, v) || stack_covers(ns, stack@, v));
                    assert(stack@.len() == 0);
                    assert(in_results(res@, v));
                }
            }
        }
        res
    }
}

} // verus!
