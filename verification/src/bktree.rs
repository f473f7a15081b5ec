//! Levenshtein-distance based fuzzy matching tree (a BK-tree variant).
//!
//! Insertion descends to the closest word seen among the current node and its
//! children, rather than following strict single-bucket descent; search is a
//! bounded best-first frontier walk with triangle-inequality pruning.
//!
//! Nodes live in an arena and address one another by index; every edge leads
//! to a strictly larger index, so the structure is acyclic by construction.

use vstd::prelude::*;
use crate::distance::{edit_distance, error_budget, lemma_edit_distance_self, levenshtein_dist};

verus! {

struct BKNode {
    word: String,
    /// Children grouped by the edit distance between their word and this
    /// node's word: pairs of (distance, child index), sorted by distance,
    /// ties in insertion order.
    children: Vec<(usize, usize)>,
}

/// Levenshtein distance based fuzzy matching tree.
pub struct BKTree {
    nodes: Vec<BKNode>,
}

spec fn bk_entry_ok(ns: Seq<BKNode>, i: int, k: int) -> bool {
    i < ns[i].children@[k].1 < ns.len()
}

/// The defining metric-tree property: the key under which a child is stored
/// equals the edit distance between its parent's word and its own.
spec fn bk_key_ok(ns: Seq<BKNode>, i: int, k: int) -> bool {
    ns[i].children@[k].0 as nat == edit_distance(ns[i].word@, ns[ns[i].children@[k].1 as int].word@)
}

spec fn bk_wf(ns: Seq<BKNode>) -> bool {
    &&& forall|i: int, k: int|
        0 <= i < ns.len() && 0 <= k < ns[i].children@.len() ==> #[trigger] bk_entry_ok(ns, i, k)
    &&& forall|i: int, k1: int, k2: int|
        0 <= i < ns.len() && 0 <= k1 < k2 < ns[i].children@.len() ==> (
        #[trigger] ns[i].children@[k1]).0 <= (#[trigger] ns[i].children@[k2]).0
    &&& forall|i: int, k: int|
        0 <= i < ns.len() && 0 <= k < ns[i].children@.len() ==> #[trigger] bk_key_ok(ns, i, k)
    &&& forall|i1: int, k1: int, i2: int, k2: int|
        0 <= i1 < ns.len() && 0 <= k1 < ns[i1].children@.len() && 0 <= i2 < ns.len() && 0 <= k2
            < ns[i2].children@.len() && (i1 != i2 || k1 != k2) ==> (
        #[trigger] ns[i1].children@[k1]).1 != (#[trigger] ns[i2].children@[k2]).1
}

/// The strictly closest child to `q` among the first `k` children of node
/// `i`, scanned in order with the earlier of equally close children winning,
/// together with its distance to `q`; `None` while no child is strictly
/// closer to `q` than node `i` itself.
spec fn closest_child(ns: Seq<BKNode>, i: int, q: Seq<char>, k: int) -> Option<(int, nat)>
    decreases k,
{
    if k <= 0 {
        None
    } else {
        let prev = closest_child(ns, i, q, k - 1);
        let j = ns[i].children@[k - 1].1 as int;
        let d = edit_distance(ns[j].word@, q);
        let bound = match prev {
            Some(p) => p.1,
            None => edit_distance(ns[i].word@, q),
        };
        if d < bound {
            Some((j, d))
        } else {
            prev
        }
    }
}

/// The node where an inserted word `q` comes to rest: from node `i`,
/// repeatedly move to the strictly closest child seen, and stop at the first
/// node none of whose children improves on it. This descent-to-closest-seen
/// policy is the insertion scheme of the tree.
spec fn descent(ns: Seq<BKNode>, q: Seq<char>, i: int) -> int
    decreases ns.len() - i,
        when 0 <= i < ns.len()
{
    match closest_child(ns, i, q, ns[i].children@.len() as int) {
        Some(p) => if i < p.0 < ns.len() {
            descent(ns, q, p.0)
        } else {
            i
        },
        None => i,
    }
}

spec fn words_of(ns: Seq<BKNode>) -> Seq<Seq<char>> {
    ns.map_values(|n: BKNode| n.word@)
}

impl BKTree {
    #[verifier::type_invariant]
    closed spec fn wf(self) -> bool {
        bk_wf(self.nodes@)
    }

    /// The stored words, in insertion order.
    pub closed spec fn words(self) -> Seq<Seq<char>> {
        words_of(self.nodes@)
    }

    /// Where the insertion descent for `q` stops: the node under which `q`
    /// is attached as a new leaf, found by repeatedly moving to the
    /// strictly closest child seen.
    pub closed spec fn insertion_point(self, q: Seq<char>) -> int {
        descent(self.nodes@, q, 0)
    }

    /// The node holding the edge that leads to node `j`.
    pub closed spec fn parent_of(self, j: int) -> int {
        (choose|i: int, k: int|
            0 <= i < self.nodes@.len() && 0 <= k < self.nodes@[i].children@.len() && (
            #[trigger] self.nodes@[i].children@[k]).1 as int == j).0
    }

    /// Creates a new [`BKTree`] object.
    pub fn new() -> (t: BKTree)
        ensures
            t.words() == Seq::<Seq<char>>::empty(),
    {
        let t = BKTree { nodes: Vec::new() };
        proof {
            assert(t.words() =~= Seq::<Seq<char>>::empty());
        }
        t
    }

    /// Walks from the root towards `word`, always descending to the first
    /// strictly closer word among the current node's children, and returns
    /// the node to attach to together with its distance to `word`.
    fn find_parent(nodes: &Vec<BKNode>, word: &str) -> (r: (usize, usize))
        requires
            bk_wf(nodes@),
            nodes@.len() >= 1,
        ensures
            r.0 as int == descent(nodes@, word@, 0),
            r.1 as nat == edit_distance(nodes@[r.0 as int].word@, word@),
            r.0 < nodes@.len(),
    {
        let mut cur: usize = 0;
        let mut d_cur = levenshtein_dist(nodes[0].word.as_str(), word);
        let mut searching = true;
        while searching
            invariant
                bk_wf(nodes@),
                nodes@.len() >= 1,
                cur < nodes@.len(),
                d_cur as nat == edit_distance(nodes@[cur as int].word@, word@),
                searching ==> descent(nodes@, word@, 0) == descent(nodes@, word@, cur as int),
                !searching ==> descent(nodes@, word@, 0) == cur as int,
            decreases (if searching {
                1int
            } else {
                0int
            }), nodes@.len() - cur,
        {
            let n = nodes[cur].children.len();
            let mut closest: usize = 0;
            let mut have = false;
            let mut closest_d = d_cur;
            let mut k: usize = 0;
            while k < n
                invariant
                    bk_wf(nodes@),
                    cur < nodes@.len(),
                    n == nodes@[cur as int].children@.len(),
                    k <= n,
                    d_cur as nat == edit_distance(nodes@[cur as int].word@, word@),
                    have ==> cur < closest < nodes@.len(),
                    have ==> closest_child(nodes@, cur as int, word@, k as int) == Some(
                        (closest as int, closest_d as nat),
                    ),
                    have ==> closest_d as nat == edit_distance(nodes@[closest as int].word@, word@),
                    !have ==> closest_child(nodes@, cur as int, word@, k as int) is None
                        && closest_d == d_cur,
                decreases n - k,
            {
                let (_dk, j) = nodes[cur].children[k];
                proof {
                    assert(bk_entry_ok(nodes@, cur as int, k as int));
                }
                let cd = levenshtein_dist(nodes[j].word.as_str(), word);
                proof {
                    assert(closest_child(nodes@, cur as int, word@, k + 1) == (
                    if (cd as nat) < (closest_d as nat) {
                        Some((j as int, cd as nat))
                    } else {
                        closest_child(nodes@, cur as int, word@, k as int)
                    }));
                }
                if cd < closest_d {
                    closest_d = cd;
                    closest = j;
                    have = true;
                }
                k = k + 1;
            }
            if have {
                proof {
                    assert(descent(nodes@, word@, cur as int) == descent(
                        nodes@,
                        word@,
                        closest as int,
                    ));
                }
                cur = closest;
                d_cur = closest_d;
            } else {
                proof {
                    assert(descent(nodes@, word@, cur as int) == cur as int);
                }
                searching = false;
            }
        }
        (cur, d_cur)
    }

    /// Inserts `word` below the closest node found by the descent: the new
    /// leaf, node `old(self).words().len()`, hangs under the node the
    /// descent for `word` stops at.
    pub fn insert(&mut self, word: String)
        ensures
            final(self).words() == old(self).words().push(word@),
            old(self).words().len() >= 1 ==> final(self).parent_of(
                old(self).words().len() as int,
            ) == old(self).insertion_point(word@),
    {
        proof {
            use_type_invariant(&*self);
        }
        let ghost old_words = self.words();
        let mut nodes: Vec<BKNode> = Vec::new();
        core::mem::swap(&mut self.nodes, &mut nodes);
        if nodes.len() == 0 {
            nodes.push(BKNode { word, children: Vec::new() });
            proof {
                assert forall|i: int, k: int|
                    0 <= i < nodes@.len() && 0 <= k < nodes@[i].children@.len() implies
                #[trigger] bk_entry_ok(nodes@, i, k) by {}
                assert forall|i: int, k: int|
                    0 <= i < nodes@.len() && 0 <= k < nodes@[i].children@.len() implies
                #[trigger] bk_key_ok(nodes@, i, k) by {}
                assert(words_of(nodes@) =~= old_words.push(nodes@[0].word@));
            }
        } else {
            let (parent, d) = Self::find_parent(&nodes, word.as_str());
            let ghost wv = word@;
            let ghost pre = nodes@;
            let new_idx = nodes.len();
            nodes.push(BKNode { word, children: Vec::new() });
            let grown_len = nodes.len();

            // find the first position whose distance key exceeds `d`, so the
            // new child lands behind every child at the same distance
            let m = nodes[parent].children.len();
            let mut pos: usize = 0;
            while pos < m && nodes[parent].children[pos].0 <= d
                invariant
                    parent < nodes@.len(),
                    m == nodes@[parent as int].children@.len(),
                    pos <= m,
                    forall|t: int|
                        0 <= t < pos ==> (#[trigger] nodes@[parent as int].children@[t]).0 <= d,
                decreases m - pos,
            {
                pos = pos + 1;
            }
            let ghost mid = nodes@;
            let slot = &mut nodes[parent];
            slot.children.insert(pos, (d, new_idx));
            proof {
                let post = nodes@;
                assert(grown_len as int == pre.len() + 1);
                assert(post.len() == pre.len() + 1);
                assert(forall|t: int| 0 <= t < post.len() && t != parent as int ==> post[t] == mid[t]);
                assert(post[parent as int].children@ == mid[parent as int].children@.insert(
                    pos as int,
                    (d, new_idx),
                ));
                let oldc = mid[parent as int].children@;
                let newc = post[parent as int].children@;
                assert(newc.len() == oldc.len() + 1);
                assert(forall|t: int| 0 <= t < pos ==> newc[t] == oldc[t]);
                assert(newc[pos as int] == (d, new_idx));
                assert(forall|t: int| pos < t < newc.len() ==> newc[t] == oldc[t - 1]);
                assert forall|i: int, k: int|
                    0 <= i < post.len() && 0 <= k < post[i].children@.len() implies
                #[trigger] bk_entry_ok(post, i, k) by {
                    if i == parent as int {
                        if k < pos {
                            assert(bk_entry_ok(pre, i, k));
                        } else if k == pos {
                        } else {
                            assert(bk_entry_ok(pre, i, k - 1));
                        }
                    } else if i < pre.len() {
                        assert(bk_entry_ok(pre, i, k));
                    }
                }
                assert(oldc == pre[parent as int].children@);
                assert(forall|t1: int, t2: int|
                    0 <= t1 < t2 < oldc.len() ==> (#[trigger] oldc[t1]).0 <= (
                    #[trigger] oldc[t2]).0) by {
                    assert(forall|t1: int, t2: int|
                        0 <= t1 < t2 < pre[parent as int].children@.len() ==> (
                        #[trigger] pre[parent as int].children@[t1]).0 <= (
                        #[trigger] pre[parent as int].children@[t2]).0);
                }
                assert forall|i: int, k1: int, k2: int|
                    0 <= i < post.len() && 0 <= k1 < k2 < post[i].children@.len() implies (
                #[trigger] post[i].children@[k1]).0 <= (#[trigger] post[i].children@[k2]).0 by {
                    if i == parent as int {
                        if k2 < pos as int {
                        } else if k2 == pos as int {
                            assert(oldc[k1].0 <= d);
                        } else {
                            if k1 < pos as int {
                                assert(newc[k2] == oldc[k2 - 1]);
                                assert(oldc[k1].0 <= oldc[k2 - 1].0);
                            } else if k1 == pos as int {
                                assert(pos < m);
                                assert(oldc[pos as int].0 > d);
                                assert(oldc[pos as int].0 <= oldc[k2 - 1].0);
                            } else {
                                assert(oldc[k1 - 1].0 <= oldc[k2 - 1].0);
                            }
                        }
                    } else if i < pre.len() {
                        assert(pre[i].children@ == post[i].children@);
                    }
                }
                // no two edges lead to the same node: old entries point
                // strictly below the fresh node, and their pairwise
                // distinctness carries over through the index shift
                assert forall|i1: int, k1: int, i2: int, k2: int|
                    0 <= i1 < post.len() && 0 <= k1 < post[i1].children@.len() && 0 <= i2
                        < post.len() && 0 <= k2 < post[i2].children@.len() && (i1 != i2 || k1
                        != k2) implies (#[trigger] post[i1].children@[k1]).1 != (
                #[trigger] post[i2].children@[k2]).1 by {
                    let fresh1 = i1 == parent as int && k1 == pos as int;
                    let fresh2 = i2 == parent as int && k2 == pos as int;
                    let o1: int = if i1 == parent as int && k1 > pos as int {
                        k1 - 1
                    } else {
                        k1
                    };
                    let o2: int = if i2 == parent as int && k2 > pos as int {
                        k2 - 1
                    } else {
                        k2
                    };
                    if !fresh1 {
                        assert(post[i1].children@[k1] == pre[i1].children@[o1]);
                        assert(bk_entry_ok(pre, i1, o1));
                    }
                    if !fresh2 {
                        assert(post[i2].children@[k2] == pre[i2].children@[o2]);
                        assert(bk_entry_ok(pre, i2, o2));
                    }
                    if fresh1 && !fresh2 {
                        assert(post[i1].children@[k1].1 == new_idx);
                    } else if !fresh1 && fresh2 {
                        assert(post[i2].children@[k2].1 == new_idx);
                    } else if !fresh1 && !fresh2 {
                        assert(i1 != i2 || o1 != o2);
                    }
                }
                // every key still equals the distance from parent word to
                // child word: old entries kept their words, and the new leaf
                // sits under the key the descent computed for it
                assert(post[new_idx as int].word@ == wv);
                assert(post[parent as int].word@ == pre[parent as int].word@);
                assert(d as nat == edit_distance(pre[parent as int].word@, wv));
                assert forall|i: int, k: int|
                    0 <= i < post.len() && 0 <= k < post[i].children@.len() implies
                #[trigger] bk_key_ok(post, i, k) by {
                    if i == parent as int {
                        if k < pos as int {
                            assert(bk_key_ok(pre, i, k));
                            assert(bk_entry_ok(pre, i, k));
                            assert(newc[k] == oldc[k]);
                            let j = pre[i].children@[k].1 as int;
                            assert(post[j].word@ == pre[j].word@);
                        } else if k == pos as int {
                            assert(newc[k] == (d, new_idx));
                        } else {
                            assert(bk_key_ok(pre, i, k - 1));
                            assert(bk_entry_ok(pre, i, k - 1));
                            assert(newc[k] == oldc[k - 1]);
                            let j = pre[i].children@[k - 1].1 as int;
                            assert(post[j].word@ == pre[j].word@);
                        }
                    } else if i < pre.len() {
                        assert(bk_key_ok(pre, i, k));
                        assert(bk_entry_ok(pre, i, k));
                        assert(post[i].children@ == pre[i].children@);
                        let j = pre[i].children@[k].1 as int;
                        if j == parent as int {
                            assert(post[j].word@ == pre[j].word@);
                        } else {
                            assert(post[j].word@ == pre[j].word@);
                        }
                    }
                }
                assert(words_of(post) =~= old_words.push(post[new_idx as int].word@));
                // the fresh edge is the only one leading to the new node, so
                // the new leaf's parent is the node the descent stopped at
                assert(bk_wf(post));
                assert(post[parent as int].children@[pos as int].1 as int == pre.len() as int);
                assert forall|i2: int, k2: int|
                    0 <= i2 < post.len() && 0 <= k2 < post[i2].children@.len() && (
                #[trigger] post[i2].children@[k2]).1 as int == pre.len() as int implies i2
                    == parent as int by {
                    lemma_edge_unique(post, i2, k2, parent as int, pos as int);
                }
                assert(parent as int == descent(pre, wv, 0));
                assert(old_words.len() == pre.len());
            }
        }
        core::mem::swap(&mut self.nodes, &mut nodes);
    }
}

/// Smallest node index on the frontier, or `cap` when it is empty.
spec fn min_node(s: Seq<(usize, usize, usize)>, cap: int) -> int
    decreases s.len(),
{
    if s.len() == 0 {
        cap
    } else {
        let m = min_node(s.drop_last(), cap);
        if (s.last().0 as int) < m {
            s.last().0 as int
        } else {
            m
        }
    }
}

proof fn lemma_min_node_le(s: Seq<(usize, usize, usize)>, cap: int, t: int)
    requires
        0 <= t < s.len(),
    ensures
        min_node(s, cap) <= s[t].0 as int,
    decreases s.len(),
{
    if t < s.len() - 1 {
        lemma_min_node_le(s.drop_last(), cap, t);
        assert(s.drop_last()[t] == s[t]);
    }
}

proof fn lemma_min_node_lb(s: Seq<(usize, usize, usize)>, cap: int, b: int)
    requires
        forall|t: int| 0 <= t < s.len() ==> b <= (#[trigger] s[t]).0 as int,
        b <= cap,
    ensures
        b <= min_node(s, cap),
    decreases s.len(),
{
    if s.len() > 0 {
        assert forall|t: int| 0 <= t < s.drop_last().len() implies b <= (
        #[trigger] s.drop_last()[t]).0 as int by {
            assert(s.drop_last()[t] == s[t]);
        }
        lemma_min_node_lb(s.drop_last(), cap, b);
        assert(s.last() == s[s.len() - 1]);
    }
}

/// Total number of entries across the result buckets.
spec fn sum_lens(bs: Seq<Vec<String>>) -> nat
    decreases bs.len(),
{
    if bs.len() == 0 {
        0
    } else {
        sum_lens(bs.drop_last()) + bs.last()@.len()
    }
}

proof fn lemma_sum_lens_update(bs: Seq<Vec<String>>, b: int, v: Vec<String>)
    requires
        0 <= b < bs.len(),
        v@.len() == bs[b]@.len() + 1,
    ensures
        sum_lens(bs.update(b, v)) == sum_lens(bs) + 1,
    decreases bs.len(),
{
    let bs2 = bs.update(b, v);
    if b == bs.len() - 1 {
        assert(bs2.drop_last() =~= bs.drop_last());
        assert(bs2.last() == v);
    } else {
        lemma_sum_lens_update(bs.drop_last(), b, v);
        assert(bs.drop_last().update(b, v) =~= bs2.drop_last());
        assert(bs2.last() == bs.last());
    }
}

proof fn lemma_sum_lens_take_step(bs: Seq<Vec<String>>, b: int)
    requires
        0 <= b < bs.len(),
    ensures
        sum_lens(bs.subrange(0, b + 1)) == sum_lens(bs.subrange(0, b)) + bs[b]@.len(),
{
    assert(bs.subrange(0, b + 1).drop_last() =~= bs.subrange(0, b));
    assert(bs.subrange(0, b + 1).last() == bs[b]);
}

/// Child `k` of the root holds a word that a search for `q` cannot pass by:
/// within the error budget, not the query itself, and no farther from `q`
/// than the root's own word, so that neither the triangle pruning nor the
/// work budget can drop it before it is recorded.
spec fn qualifying_root_child(ns: Seq<BKNode>, q: Seq<char>, k: int) -> bool {
    &&& 0 <= k < ns[0].children@.len()
    &&& (ns[0].children@[k].1 as int) < ns.len()
    &&& 1 <= edit_distance(ns[ns[0].children@[k].1 as int].word@, q)
    &&& edit_distance(ns[ns[0].children@[k].1 as int].word@, q) <= error_budget(q)
    &&& edit_distance(ns[ns[0].children@[k].1 as int].word@, q) <= edit_distance(ns[0].word@, q)
}

spec fn root_hit_upto(ns: Seq<BKNode>, q: Seq<char>, k: int) -> bool {
    exists|kk: int| kk < k && #[trigger] qualifying_root_child(ns, q, kk)
}

/// The word held by child `k` of the root.
spec fn child_word(ns: Seq<BKNode>, k: int) -> Seq<char> {
    ns[ns[0].children@[k].1 as int].word@
}

/// `v` appears in some result bucket.
spec fn in_buckets(bs: Seq<Vec<String>>, v: Seq<char>) -> bool {
    exists|b: int, t: int|
        0 <= b < bs.len() && 0 <= t < bs[b]@.len() && (#[trigger] bs[b]@[t])@ == v
}

/// `v` appears in the flattened output.
spec fn in_list(s: Seq<String>, v: Seq<char>) -> bool {
    exists|t: int| 0 <= t < s.len() && (#[trigger] s[t])@ == v
}

/// Some edge out of an already scanned node leads to `j`.
spec fn cand_src(ns: Seq<BKNode>, ex: Set<int>, j: int) -> bool {
    exists|i: int, kc: int|
        0 <= i < ns.len() && 0 <= kc < ns[i].children@.len() && (#[trigger] ns[i].children@[kc]).1
            as int == j && ex.contains(i)
}

/// One of the first `klim` edges of node `ti` leads to `j`.
spec fn from_current(ns: Seq<BKNode>, ti: int, klim: int, j: int) -> bool {
    0 <= ti < ns.len() && exists|kc: int|
        0 <= kc < klim && kc < ns[ti].children@.len() && (#[trigger] ns[ti].children@[kc]).1 as int
            == j
}

/// Some edge out of a node scanned in an earlier round leads to `j`.
spec fn cand_src_excl(ns: Seq<BKNode>, ex: Set<int>, excl: Set<int>, j: int) -> bool {
    exists|i: int, kc: int|
        0 <= i < ns.len() && 0 <= kc < ns[i].children@.len() && (#[trigger] ns[i].children@[kc]).1
            as int == j && ex.contains(i) && !excl.contains(i)
}

/// Two edges with one target are one edge: targets are pairwise distinct
/// under well-formedness.
proof fn lemma_edge_unique(ns: Seq<BKNode>, i1: int, k1: int, i2: int, k2: int)
    requires
        bk_wf(ns),
        0 <= i1 < ns.len(),
        0 <= k1 < ns[i1].children@.len(),
        0 <= i2 < ns.len(),
        0 <= k2 < ns[i2].children@.len(),
        ns[i1].children@[k1].1 == ns[i2].children@[k2].1,
    ensures
        i1 == i2 && k1 == k2,
{
    if i1 != i2 || k1 != k2 {
        assert((ns[i1].children@[k1]).1 != (ns[i2].children@[k2]).1);
    }
}

/// A scanned-parent witness survives any growth of the scanned set.
proof fn lemma_cand_src_mono(ns: Seq<BKNode>, ex1: Set<int>, ex2: Set<int>, j: int)
    requires
        cand_src(ns, ex1, j),
        forall|x: int| ex1.contains(x) ==> ex2.contains(x),
    ensures
        cand_src(ns, ex2, j),
{
    let (i, kc) = choose|i: int, kc: int|
        0 <= i < ns.len() && 0 <= kc < ns[i].children@.len() && (#[trigger] ns[i].children@[kc]).1
            as int == j && ex1.contains(i);
    assert(ex2.contains(i));
}

/// Each bucket entry's recorded origin node holds exactly its word.
spec fn srcs_ok(ns: Seq<BKNode>, bs: Seq<Vec<String>>, srcs: Seq<Seq<int>>) -> bool {
    &&& srcs.len() == bs.len()
    &&& forall|b: int| 0 <= b < bs.len() ==> (#[trigger] srcs[b]).len() == bs[b]@.len()
    &&& forall|b: int, t: int|
        0 <= b < bs.len() && 0 <= t < srcs[b].len() ==> 0 <= #[trigger] srcs[b][t] < ns.len()
            && ns[srcs[b][t]].word@ == bs[b]@[t]@
}

/// `x` is one of the recorded origins strictly before position `tlim` of
/// bucket `blim`, in bucket-then-position order.
spec fn flat_from(srcs: Seq<Seq<int>>, blim: int, tlim: int, x: int) -> bool {
    exists|b: int, t2: int|
        0 <= b < srcs.len() && 0 <= t2 < srcs[b].len() && (b < blim || (b == blim && t2 < tlim))
            && x == #[trigger] srcs[b][t2]
}

proof fn lemma_flat_from_weaken(srcs: Seq<Seq<int>>, b1: int, t1: int, b2: int, t2: int, x: int)
    requires
        flat_from(srcs, b1, t1, x),
        b1 < b2 || (b1 == b2 && t1 <= t2),
    ensures
        flat_from(srcs, b2, t2, x),
{
    let (b, tt) = choose|b: int, tt: int|
        0 <= b < srcs.len() && 0 <= tt < srcs[b].len() && (b < b1 || (b == b1 && tt < t1)) && x
            == #[trigger] srcs[b][tt];
    assert(x == srcs[b][tt]);
}

/// No tree node is recorded as the origin of two bucket entries.
spec fn srcs_distinct(srcs: Seq<Seq<int>>) -> bool {
    forall|b1: int, t1: int, b2: int, t2: int|
        0 <= b1 < srcs.len() && 0 <= t1 < srcs[b1].len() && 0 <= b2 < srcs.len() && 0 <= t2
            < srcs[b2].len() && (b1 != b2 || t1 != t2) ==> #[trigger] srcs[b1][t1]
            != #[trigger] srcs[b2][t2]
}

/// A bucket entry survives any growth of the buckets.
proof fn lemma_in_buckets_grow(pre: Seq<Vec<String>>, post: Seq<Vec<String>>, v: Seq<char>)
    requires
        in_buckets(pre, v),
        post.len() == pre.len(),
        forall|b: int| 0 <= b < pre.len() ==> (#[trigger] pre[b])@.is_prefix_of(post[b]@),
    ensures
        in_buckets(post, v),
{
    let (b, t) = choose|b: int, t: int|
        0 <= b < pre.len() && 0 <= t < pre[b]@.len() && (#[trigger] pre[b]@[t])@ == v;
    assert(pre[b]@ =~= post[b]@.subrange(0, pre[b]@.len() as int));
    assert(post[b]@[t] == pre[b]@[t]);
}

/// Every qualifying root child among the first `upto`, reached before the
/// result limit and before the work budget can possibly run out, has its
/// word recorded in a bucket.
spec fn root_covered(
    ns: Seq<BKNode>,
    q: Seq<char>,
    limit: int,
    cap: int,
    bs: Seq<Vec<String>>,
    upto: int,
) -> bool {
    forall|kk: int|
        #[trigger] qualifying_root_child(ns, q, kk) && kk < upto && kk + 1 <= limit && kk + 2
            <= cap ==> in_buckets(bs, child_word(ns, kk))
}

/// Every entry of bucket `b` is a stored word whose distance to the query is
/// exactly `b + 1`.
spec fn bucket_ok(ns: Seq<BKNode>, q: Seq<char>, b: int, items: Seq<String>) -> bool {
    forall|t: int|
        0 <= t < items.len() ==> words_of(ns).contains((#[trigger] items[t])@) && edit_distance(
            items[t]@,
            q,
        ) == b + 1
}

impl BKTree {
    /// Whether some child of the root holds a word the search for `q` is
    /// certain to report: at least one edit away, within `q`'s error budget,
    /// and no farther from `q` than the root's own word.
    pub closed spec fn has_close_root_child(self, q: Seq<char>) -> bool {
        self.nodes@.len() >= 1 && root_hit_upto(
            self.nodes@,
            q,
            self.nodes@[0].children@.len() as int,
        )
    }

    /// Whether child `k` of the root holds a word a search for `q` is
    /// certain to reach: within the error budget, not the query itself, and
    /// no farther from `q` than the root's own word.
    pub closed spec fn qualifying_child(self, q: Seq<char>, k: int) -> bool {
        self.nodes@.len() >= 1 && qualifying_root_child(self.nodes@, q, k)
    }

    /// The word held by child `k` of the root.
    pub closed spec fn root_child_word(self, k: int) -> Seq<char> {
        child_word(self.nodes@, k)
    }

    /// Bounded best-first search for stored words within the query's error
    /// budget. Results come ordered by ascending edit distance, at most
    /// `limit` of them; the query itself (distance zero) is never among them.
    /// The search may stop early once its work budget is spent, so it returns
    /// a subset of the plausible corrections, not necessarily all of them —
    /// but it never comes back empty while a root child sits within reach,
    /// and each qualifying root child that sits before the result limit and
    /// within the work budget is itself reported.
    pub fn find(&self, word: &str, limit: usize) -> (res: Vec<String>)
        ensures
            res@.len() <= limit,
            forall|t: int| 0 <= t < res@.len() ==> self.words().contains((#[trigger] res@[t])@),
            forall|t: int|
                0 <= t < res@.len() ==> 1 <= edit_distance((#[trigger] res@[t])@, word@)
                    && edit_distance(res@[t]@, word@) <= error_budget(word@),
            forall|t: int| 0 <= t < res@.len() ==> (#[trigger] res@[t])@ != word@,
            forall|t1: int, t2: int|
                0 <= t1 <= t2 < res@.len() ==> edit_distance((#[trigger] res@[t1])@, word@)
                    <= edit_distance((#[trigger] res@[t2])@, word@),
            limit >= 1 && self.has_close_root_child(word@) ==> res@.len() >= 1,
            forall|k: int|
                #[trigger] self.qualifying_child(word@, k) && k + 1 <= limit as int && k + 2
                    <= error_budget(word@) * 4096 && error_budget(word@) * 16384 <= usize::MAX
                    as nat ==> exists|t: int|
                    0 <= t < res@.len() && (#[trigger] res@[t])@ == self.root_child_word(k),
            (forall|i: int, j: int|
                0 <= i < j < self.words().len() ==> (#[trigger] self.words()[i]) != (
                #[trigger] self.words()[j])) ==> forall|t1: int, t2: int|
                0 <= t1 < t2 < res@.len() ==> (#[trigger] res@[t1])@ != (#[trigger] res@[t2])@,
    {
        broadcast use vstd::slice::axiom_spec_len;

        proof {
            use_type_invariant(self);
        }
        let ghost ns = self.nodes@;
        if self.nodes.len() == 0 {
            return Vec::new();
        }
        // one of three letters might be corrected
        let len_b = word.as_bytes().len();
        proof {
            assert(len_b / 3 <= usize::MAX / 3) by (nonlinear_arith)
                requires
                    len_b <= usize::MAX,
            ;
            assert((len_b & 1) <= 1 && (len_b & 2) <= 2) by (bit_vector);
        }
        let e: usize = len_b / 3 + (if (len_b & 1) + (len_b & 2) > 0 {
            1
        } else {
            0
        });
        proof {
            assert(((len_b & 1) + (len_b & 2) > 0) == (len_b % 4 != 0)) by (bit_vector);
            assert(e == error_budget(word@));
        }
        let candidates_len = e << 12u32;
        let budget4 = candidates_len << 2u32;
        let budget5 = if budget4 <= usize::MAX - candidates_len {
            budget4 + candidates_len
        } else {
            usize::MAX
        };
        let ghost e_val = e as int;
        // as long as five times the candidate cap fits the machine word, the
        // shifted caps are the exact products and every work budget covers
        // at least one full scan of the root's children
        let ghost cap_ok = error_budget(word@) * 16384 <= usize::MAX as nat;
        proof {
            assert(e < usize::MAX);
            if cap_ok {
                vstd::arithmetic::power2::lemma2_to64();
                assert(e_val * 4096 <= e_val * 16384) by (nonlinear_arith)
                    requires
                        e_val >= 0,
                ;
                vstd::bits::lemma_usize_shl_is_mul(e, 12);
                assert(candidates_len as int == e_val * 4096);
                assert((e_val * 4096) * 4 == e_val * 16384) by (nonlinear_arith);
                vstd::bits::lemma_usize_shl_is_mul(candidates_len, 2);
                assert(budget4 as int == e_val * 16384);
            }
            assert(budget5 >= candidates_len);
        }
        let d_root = levenshtein_dist(self.nodes[0].word.as_str(), word);
        let mut candidates: Vec<(usize, usize, usize)> = Vec::new();
        candidates.push((0, d_root, usize::MAX));
        proof {
            assert(candidates@ =~= seq![(0usize, d_root, usize::MAX)]);
        }
        let mut frontier: Vec<(usize, usize, usize)> = Vec::new();

        // the bucket at position n collects matches at distance n + 1
        let mut results: Vec<Vec<String>> = Vec::new();
        let mut b: usize = 0;
        while b < e
            invariant
                b <= e,
                results@.len() == b as int,
                sum_lens(results@) == 0,
                forall|i: int| 0 <= i < b as int ==> (#[trigger] results@[i])@.len() == 0,
            decreases e - b,
        {
            let ghost pre = results@;
            results.push(Vec::new());
            proof {
                assert(results@.drop_last() =~= pre);
                assert(results@.last()@.len() == 0);
            }
            b = b + 1;
        }

        let mut total: usize = 0;
        // total number of distance computations so far
        let mut tested: usize = 1;
        let mut done = false;
        let ghost mut round_one_done = false;
        // the nodes whose children have been scanned, and the origin node of
        // every bucket entry: each node is scanned at most once, so no node
        // contributes its word twice
        let ghost mut expanded: Set<int> = Set::empty();
        let ghost mut ex_round: Set<int> = Set::empty();
        let ghost mut srcs: Seq<Seq<int>> = Seq::new(e as nat, |i: int| Seq::<int>::empty());
        proof {
            assert(srcs.len() == results@.len());
            assert forall|b: int| 0 <= b < results@.len() implies (#[trigger] srcs[b]).len()
                == results@[b]@.len() by {}
        }

        while candidates.len() > 0 && !done
            invariant
                bk_wf(ns),
                ns == self.nodes@,
                ns.len() >= 1,
                results@.len() == e as int,
                e == error_budget(word@),
                total as int == sum_lens(results@),
                total <= limit,
                forall|bb: int|
                    0 <= bb < e as int ==> bucket_ok(ns, word@, bb, (#[trigger] results@[bb])@),
                forall|t: int| 0 <= t < candidates@.len() ==> (#[trigger] candidates@[t]).0 < ns.len(),
                e < usize::MAX,
                d_root as nat == edit_distance(ns[0].word@, word@),
                done ==> total >= 1,
                !round_one_done ==> candidates@ == seq![(0usize, d_root, usize::MAX)] && !done,
                round_one_done && limit >= 1 && root_hit_upto(
                    ns,
                    word@,
                    ns[0].children@.len() as int,
                ) ==> total >= 1,
                e_val == e as int,
                cap_ok ==> candidates_len as int == e_val * 4096 && budget4 as int == e_val
                    * 16384,
                budget5 >= candidates_len,
                !round_one_done ==> total == 0 && tested == 1,
                cap_ok && (done || round_one_done) ==> root_covered(
                    ns,
                    word@,
                    limit as int,
                    e_val * 4096,
                    results@,
                    ns[0].children@.len() as int,
                ),
                srcs_ok(ns, results@, srcs),
                srcs_distinct(srcs),
                !done ==> forall|b: int, t: int|
                    0 <= b < srcs.len() && 0 <= t < srcs[b].len() ==> cand_src(
                        ns,
                        expanded,
                        #[trigger] srcs[b][t],
                    ),
                !done ==> forall|t1: int, t2: int|
                    0 <= t1 < t2 < candidates@.len() ==> (#[trigger] candidates@[t1]).0 != (
                    #[trigger] candidates@[t2]).0,
                !done ==> forall|t: int|
                    0 <= t < candidates@.len() ==> !expanded.contains(
                        (#[trigger] candidates@[t]).0 as int,
                    ),
                !done && round_one_done ==> forall|t: int|
                    0 <= t < candidates@.len() ==> cand_src(
                        ns,
                        expanded,
                        (#[trigger] candidates@[t]).0 as int,
                    ),
                !done ==> forall|x: int|
                    #[trigger] expanded.contains(x) ==> 0 <= x < ns.len() && (x != 0 ==> cand_src(
                        ns,
                        expanded,
                        x,
                    )),
                !round_one_done ==> expanded == Set::<int>::empty(),
            decreases (if done {
                0int
            } else {
                1int
            }), ns.len() - min_node(candidates@, ns.len() as int),
        {
            core::mem::swap(&mut candidates, &mut frontier);
            candidates.clear();
            let ghost round_min = min_node(frontier@, ns.len() as int);
            proof {
                if frontier@.len() > 0 {
                    lemma_min_node_le(frontier@, ns.len() as int, 0);
                }
                ex_round = Set::empty();
                if !done && round_one_done {
                    assert forall|t: int|
                        0 <= t < frontier@.len() implies cand_src_excl(
                        ns,
                        expanded,
                        ex_round,
                        (#[trigger] frontier@[t]).0 as int,
                    ) by {
                        assert(cand_src(ns, expanded, frontier@[t].0 as int));
                        let (i, kc) = choose|i: int, kc: int|
                            0 <= i < ns.len() && 0 <= kc < ns[i].children@.len() && (
                            #[trigger] ns[i].children@[kc]).1 as int == frontier@[t].0 as int
                                && expanded.contains(i);
                        assert(!ex_round.contains(i));
                    }
                }
            }

            let mut ci: usize = 0;
            while ci < frontier.len() && !done
                invariant
                    bk_wf(ns),
                    ns == self.nodes@,
                    ns.len() >= 1,
                    results@.len() == e as int,
                    e == error_budget(word@),
                    total as int == sum_lens(results@),
                    total <= limit,
                    ci <= frontier@.len(),
                    forall|bb: int|
                        0 <= bb < e as int ==> bucket_ok(ns, word@, bb, (#[trigger] results@[bb])@),
                    forall|t: int|
                        0 <= t < frontier@.len() ==> (#[trigger] frontier@[t]).0 < ns.len(),
                    round_min == min_node(frontier@, ns.len() as int),
                    forall|t: int|
                        0 <= t < candidates@.len() ==> (#[trigger] candidates@[t]).0 < ns.len()
                            && round_min + 1 <= (#[trigger] candidates@[t]).0 as int,
                    e < usize::MAX,
                    d_root as nat == edit_distance(ns[0].word@, word@),
                    done ==> total >= 1,
                    !round_one_done ==> frontier@ == seq![(0usize, d_root, usize::MAX)],
                    !round_one_done && ci >= 1 && limit >= 1 && root_hit_upto(
                        ns,
                        word@,
                        ns[0].children@.len() as int,
                    ) ==> total >= 1,
                    round_one_done && limit >= 1 && root_hit_upto(
                        ns,
                        word@,
                        ns[0].children@.len() as int,
                    ) ==> total >= 1,
                    e_val == e as int,
                    cap_ok ==> candidates_len as int == e_val * 4096 && budget4 as int == e_val
                        * 16384,
                    budget5 >= candidates_len,
                    !round_one_done && ci == 0 ==> total == 0 && tested == 1,
                    cap_ok && (done || round_one_done || ci as int >= 1) ==> root_covered(
                        ns,
                        word@,
                        limit as int,
                        e_val * 4096,
                        results@,
                        ns[0].children@.len() as int,
                    ),
                    srcs_ok(ns, results@, srcs),
                    srcs_distinct(srcs),
                    !done ==> forall|b: int, t: int|
                        0 <= b < srcs.len() && 0 <= t < srcs[b].len() ==> cand_src(
                            ns,
                            expanded,
                            #[trigger] srcs[b][t],
                        ),
                    !done ==> forall|t1: int, t2: int|
                        0 <= t1 < t2 < frontier@.len() ==> (#[trigger] frontier@[t1]).0 != (
                        #[trigger] frontier@[t2]).0,
                    !done ==> forall|t: int|
                        ci as int <= t < frontier@.len() ==> !expanded.contains(
                            (#[trigger] frontier@[t]).0 as int,
                        ),
                    !done && round_one_done ==> forall|t: int|
                        ci as int <= t < frontier@.len() ==> cand_src_excl(
                            ns,
                            expanded,
                            ex_round,
                            (#[trigger] frontier@[t]).0 as int,
                        ),
                    !done ==> forall|t1: int, t2: int|
                        0 <= t1 < t2 < candidates@.len() ==> (#[trigger] candidates@[t1]).0 != (
                        #[trigger] candidates@[t2]).0,
                    !done ==> forall|t: int|
                        0 <= t < candidates@.len() ==> !expanded.contains(
                            (#[trigger] candidates@[t]).0 as int,
                        ),
                    !done ==> forall|t: int|
                        0 <= t < candidates@.len() ==> cand_src(
                            ns,
                            ex_round,
                            (#[trigger] candidates@[t]).0 as int,
                        ),
                    !done ==> forall|x: int|
                        #[trigger] ex_round.contains(x) ==> expanded.contains(x),
                    !done ==> forall|x: int|
                        #[trigger] expanded.contains(x) ==> 0 <= x < ns.len() && (x != 0
                            ==> cand_src(ns, expanded, x)),
                decreases frontier@.len() - ci,
            {
                let (t_idx, t_dist, t_bound) = frontier[ci];
                proof {
                    lemma_min_node_le(frontier@, ns.len() as int, ci as int);
                }
                let n = self.nodes[t_idx].children.len();
                let mut k: usize = 0;
                while k < n && !done
                    invariant
                        bk_wf(ns),
                        ns == self.nodes@,
                        ns.len() >= 1,
                        t_idx < ns.len(),
                        round_min <= t_idx as int,
                        n == ns[t_idx as int].children@.len(),
                        k <= n,
                        results@.len() == e as int,
                        e == error_budget(word@),
                        total as int == sum_lens(results@),
                        total <= limit,
                        forall|bb: int|
                            0 <= bb < e as int ==> bucket_ok(
                                ns,
                                word@,
                                bb,
                                (#[trigger] results@[bb])@,
                            ),
                        forall|t: int|
                            0 <= t < candidates@.len() ==> (#[trigger] candidates@[t]).0 < ns.len()
                                && round_min + 1 <= (#[trigger] candidates@[t]).0 as int,
                        e < usize::MAX,
                        d_root as nat == edit_distance(ns[0].word@, word@),
                        done ==> total >= 1,
                        !round_one_done && ci == 0 ==> t_idx == 0 && t_dist == d_root && t_bound
                            == usize::MAX,
                        !round_one_done && ci == 0 && limit >= 1 && root_hit_upto(
                            ns,
                            word@,
                            k as int,
                        ) ==> total >= 1,
                        !round_one_done && ci >= 1 && limit >= 1 && root_hit_upto(
                            ns,
                            word@,
                            ns[0].children@.len() as int,
                        ) ==> total >= 1,
                        round_one_done && limit >= 1 && root_hit_upto(
                            ns,
                            word@,
                            ns[0].children@.len() as int,
                        ) ==> total >= 1,
                        e_val == e as int,
                        cap_ok ==> candidates_len as int == e_val * 4096 && budget4 as int == e_val
                            * 16384,
                        budget5 >= candidates_len,
                        !round_one_done ==> ci == 0,
                        !round_one_done ==> total as int <= k as int && tested as int <= k as int
                            + 1,
                        !round_one_done && cap_ok ==> root_covered(
                            ns,
                            word@,
                            limit as int,
                            e_val * 4096,
                            results@,
                            k as int,
                        ),
                        cap_ok && (done || round_one_done) ==> root_covered(
                            ns,
                            word@,
                            limit as int,
                            e_val * 4096,
                            results@,
                            ns[0].children@.len() as int,
                        ),
                        srcs_ok(ns, results@, srcs),
                        srcs_distinct(srcs),
                        !done ==> forall|b: int, t: int|
                            0 <= b < srcs.len() && 0 <= t < srcs[b].len() ==> cand_src(
                                ns,
                                expanded,
                                #[trigger] srcs[b][t],
                            ) || from_current(ns, t_idx as int, k as int, srcs[b][t]),
                        !expanded.contains(t_idx as int),
                        !done && round_one_done ==> cand_src_excl(
                            ns,
                            expanded,
                            ex_round,
                            t_idx as int,
                        ),
                        !done ==> forall|t1: int, t2: int|
                            0 <= t1 < t2 < candidates@.len() ==> (#[trigger] candidates@[t1]).0
                                != (#[trigger] candidates@[t2]).0,
                        !done ==> forall|t: int|
                            0 <= t < candidates@.len() ==> !expanded.contains(
                                (#[trigger] candidates@[t]).0 as int,
                            ),
                        !done ==> forall|t: int|
                            0 <= t < candidates@.len() ==> cand_src(
                                ns,
                                ex_round,
                                (#[trigger] candidates@[t]).0 as int,
                            ) || from_current(
                                ns,
                                t_idx as int,
                                k as int,
                                candidates@[t].0 as int,
                            ),
                        !done ==> forall|x: int|
                            #[trigger] ex_round.contains(x) ==> expanded.contains(x),
                        !done ==> forall|x: int|
                            #[trigger] expanded.contains(x) ==> 0 <= x < ns.len() && (x != 0
                                ==> cand_src(ns, expanded, x)),
                    decreases n - k,
                {
                    let ghost total_at_head = total;
                    let ghost tested_at_head = tested;
                    let ghost results_at_head = results@;
                    let (_dk, j) = self.nodes[t_idx].children[k];
                    proof {
                        assert(bk_entry_ok(ns, t_idx as int, k as int));
                    }
                    let cd = levenshtein_dist(self.nodes[j].word.as_str(), word);
                    tested = if tested < usize::MAX {
                        tested + 1
                    } else {
                        tested
                    };
                    if cd <= t_dist && cd < t_bound {
                        if candidates.len() < candidates_len {
                            let ghost cands_pre = candidates@;
                            candidates.push((j, cd, t_dist));
                            proof {
                                // the child just kept was never kept before:
                                // its only incoming edge is the one scanned
                                // right now
                                assert forall|t: int|
                                    0 <= t < cands_pre.len() implies (#[trigger] cands_pre[t]).0
                                    != j by {
                                    if cands_pre[t].0 == j {
                                        if cand_src(ns, ex_round, j as int) {
                                            let (i2, kc2) = choose|i2: int, kc2: int|
                                                0 <= i2 < ns.len() && 0 <= kc2
                                                    < ns[i2].children@.len() && (
                                                #[trigger] ns[i2].children@[kc2]).1 as int
                                                    == j as int && ex_round.contains(i2);
                                            lemma_edge_unique(
                                                ns,
                                                i2,
                                                kc2,
                                                t_idx as int,
                                                k as int,
                                            );
                                            assert(expanded.contains(t_idx as int));
                                            assert(false);
                                        } else {
                                            assert(from_current(ns, t_idx as int, k as int, j as int));
                                            let kc2 = choose|kc2: int|
                                                0 <= kc2 < k as int && kc2
                                                    < ns[t_idx as int].children@.len() && (
                                                #[trigger] ns[t_idx as int].children@[kc2]).1
                                                    as int == j as int;
                                            lemma_edge_unique(
                                                ns,
                                                t_idx as int,
                                                kc2,
                                                t_idx as int,
                                                k as int,
                                            );
                                            assert(false);
                                        }
                                    }
                                }
                                assert(!expanded.contains(j as int)) by {
                                    if expanded.contains(j as int) {
                                        assert(cand_src(ns, expanded, j as int));
                                        let (i2, kc2) = choose|i2: int, kc2: int|
                                            0 <= i2 < ns.len() && 0 <= kc2
                                                < ns[i2].children@.len() && (
                                            #[trigger] ns[i2].children@[kc2]).1 as int == j as int
                                                && expanded.contains(i2);
                                        lemma_edge_unique(ns, i2, kc2, t_idx as int, k as int);
                                        assert(false);
                                    }
                                }
                            }
                        }
                        if cd <= e && cd > 0 && total < limit {
                            let ghost results_pre = results@;
                            let cloned = self.nodes[j].word.clone();
                            proof {
                                assert(words_of(ns)[j as int] == ns[j as int].word@);
                                assert(words_of(ns).contains(cloned@));
                            }
                            let bucket = &mut results[cd - 1];
                            bucket.push(cloned);
                            total = total + 1;
                            proof {
                                assert(results@ == results_pre.update(
                                    cd - 1,
                                    results@[cd - 1 as int],
                                ));
                                lemma_sum_lens_update(results_pre, cd - 1, results@[cd - 1 as int]);
                                assert forall|bb: int|
                                    0 <= bb < e as int implies bucket_ok(
                                    ns,
                                    word@,
                                    bb,
                                    (#[trigger] results@[bb])@,
                                ) by {
                                    if bb == cd - 1 {
                                        let items = results@[bb]@;
                                        assert(items.drop_last() == results_pre[bb]@);
                                        assert forall|t: int|
                                            0 <= t < items.len() implies words_of(ns).contains(
                                            (#[trigger] items[t])@,
                                        ) && edit_distance(items[t]@, word@) == bb + 1 by {
                                            if t < items.len() - 1 {
                                                assert(items[t] == results_pre[bb]@[t]);
                                                assert(bucket_ok(ns, word@, bb, results_pre[bb]@));
                                            } else {
                                                assert(items[t] == cloned);
                                            }
                                        }
                                    } else {
                                        assert(results@[bb] == results_pre[bb]);
                                        assert(bucket_ok(ns, word@, bb, results_pre[bb]@));
                                    }
                                }
                                // the freshly recorded word, and the survival
                                // of everything recorded before
                                assert(results@[cd - 1]@.last() == cloned);
                                assert(cloned@ == ns[j as int].word@);
                                assert(in_buckets(results@, ns[j as int].word@));
                                assert forall|b: int|
                                    0 <= b < results_at_head.len() implies (
                                #[trigger] results_at_head[b])@.is_prefix_of(results@[b]@) by {
                                    if b == cd - 1 {
                                        assert(results@[b]@ == results_at_head[b]@.push(cloned));
                                        assert(results@[b]@.subrange(
                                            0,
                                            results_at_head[b]@.len() as int,
                                        ) =~= results_at_head[b]@);
                                    } else {
                                        assert(results@[b] == results_at_head[b]);
                                        assert(results@[b]@.subrange(
                                            0,
                                            results_at_head[b]@.len() as int,
                                        ) =~= results_at_head[b]@);
                                    }
                                }
                                // record the new entry's origin; no earlier
                                // entry came from this node, whose only
                                // incoming edge is the one scanned right now
                                let srcs_pre = srcs;
                                srcs = srcs.update(cd - 1, srcs[cd - 1].push(j as int));
                                assert(srcs[cd - 1] == srcs_pre[cd - 1].push(j as int));
                                assert forall|b: int, t: int|
                                    0 <= b < srcs_pre.len() && 0 <= t
                                        < srcs_pre[b].len() implies #[trigger] srcs_pre[b][t] != j
                                    as int by {
                                    if srcs_pre[b][t] == j as int {
                                        if cand_src(ns, expanded, srcs_pre[b][t]) {
                                            let (i2, kc2) = choose|i2: int, kc2: int|
                                                0 <= i2 < ns.len() && 0 <= kc2
                                                    < ns[i2].children@.len() && (
                                                #[trigger] ns[i2].children@[kc2]).1 as int == j
                                                    as int && expanded.contains(i2);
                                            lemma_edge_unique(
                                                ns,
                                                i2,
                                                kc2,
                                                t_idx as int,
                                                k as int,
                                            );
                                            assert(false);
                                        } else {
                                            assert(from_current(
                                                ns,
                                                t_idx as int,
                                                k as int,
                                                j as int,
                                            ));
                                            let kc2 = choose|kc2: int|
                                                0 <= kc2 < k as int && kc2
                                                    < ns[t_idx as int].children@.len() && (
                                                #[trigger] ns[t_idx as int].children@[kc2]).1
                                                    as int == j as int;
                                            lemma_edge_unique(
                                                ns,
                                                t_idx as int,
                                                kc2,
                                                t_idx as int,
                                                k as int,
                                            );
                                            assert(false);
                                        }
                                    }
                                }
                                assert forall|b: int|
                                    0 <= b < results@.len() implies (#[trigger] srcs[b]).len()
                                    == results@[b]@.len() by {
                                    if b != cd - 1 {
                                        assert(srcs[b] == srcs_pre[b]);
                                        assert(results@[b] == results_pre[b]);
                                    }
                                }
                                assert(srcs[cd - 1][srcs[cd - 1].len() - 1] == j as int);
                                assert(results@[cd - 1]@[results@[cd - 1]@.len() - 1] == cloned);
                            }
                            let budget = if results[0].len() == 0 {
                                budget5
                            } else if results[0].len() == 1 {
                                budget4
                            } else {
                                candidates_len
                            };
                            if budget < tested || total == limit {
                                done = true;
                                proof {
                                    if cap_ok {
                                        assert(budget >= candidates_len) by {
                                            assert(e_val * 4096 <= e_val * 16384)
                                                by (nonlinear_arith)
                                                requires
                                                    e_val >= 0,
                                            ;
                                        }
                                        if round_one_done {
                                            assert forall|kk: int|
                                                #[trigger] qualifying_root_child(ns, word@, kk)
                                                    && kk < ns[0].children@.len() as int && kk + 1
                                                    <= limit as int && kk + 2 <= e_val
                                                    * 4096 implies in_buckets(
                                                results@,
                                                child_word(ns, kk),
                                            ) by {
                                                lemma_in_buckets_grow(
                                                    results_at_head,
                                                    results@,
                                                    child_word(ns, kk),
                                                );
                                            }
                                        } else {
                                            // round one, root scan: children past
                                            // this one fail the limit or budget
                                            // guard, earlier ones are recorded
                                            assert forall|kk: int|
                                                #[trigger] qualifying_root_child(ns, word@, kk)
                                                    && kk < ns[0].children@.len() as int && kk + 1
                                                    <= limit as int && kk + 2 <= e_val
                                                    * 4096 implies in_buckets(
                                                results@,
                                                child_word(ns, kk),
                                            ) by {
                                                if kk < k as int {
                                                    lemma_in_buckets_grow(
                                                        results_at_head,
                                                        results@,
                                                        child_word(ns, kk),
                                                    );
                                                } else if kk == k as int {
                                                    assert(j as int == ns[0].children@[kk].1);
                                                } else {
                                                    assert(total as int == total_at_head + 1);
                                                    assert(total_at_head <= k as int);
                                                    assert(tested as int <= tested_at_head + 1);
                                                    assert(tested_at_head <= k as int + 1);
                                                    if total == limit {
                                                        assert(kk + 1 > limit as int);
                                                    } else {
                                                        assert(e_val * 4096 < kk + 2);
                                                    }
                                                    assert(false);
                                                }
                                            }
                                        }
                                    }
                                }
                            }
                        }
                    }
                    k = k + 1;
                    proof {
                        if !round_one_done && ci == 0 && limit >= 1 && root_hit_upto(
                            ns,
                            word@,
                            k as int,
                        ) && total == 0 {
                            let kk = choose|kk: int|
                                kk < k as int && #[trigger] qualifying_root_child(ns, word@, kk);
                            assert(kk == k - 1);
                            assert(j as int == ns[0].children@[k - 1].1 as int);
                            assert(cd as nat == edit_distance(ns[j as int].word@, word@));
                            assert(1 <= cd && cd <= e && cd as int <= d_root as int);
                            assert(false);
                        }
                        assert forall|b: int|
                            0 <= b < results_at_head.len() implies (
                        #[trigger] results_at_head[b])@.is_prefix_of(results@[b]@) by {
                            if results@[b] == results_at_head[b] {
                                assert(results@[b]@.subrange(
                                    0,
                                    results_at_head[b]@.len() as int,
                                ) =~= results_at_head[b]@);
                            }
                        }
                        if cap_ok {
                            if root_covered(
                                ns,
                                word@,
                                limit as int,
                                e_val * 4096,
                                results_at_head,
                                ns[0].children@.len() as int,
                            ) {
                                assert forall|kk: int|
                                    #[trigger] qualifying_root_child(ns, word@, kk) && kk < ns[0].children@.len() as int
                                        && kk + 1 <= limit as int && kk + 2 <= e_val
                                        * 4096 implies in_buckets(results@, child_word(ns, kk)) by {
                                    lemma_in_buckets_grow(
                                        results_at_head,
                                        results@,
                                        child_word(ns, kk),
                                    );
                                }
                            }
                            if !round_one_done {
                                assert forall|kk: int|
                                    #[trigger] qualifying_root_child(ns, word@, kk) && kk < k as int
                                        && kk + 1 <= limit as int && kk + 2 <= e_val
                                        * 4096 implies in_buckets(results@, child_word(ns, kk)) by {
                                    if kk < k as int - 1 {
                                        lemma_in_buckets_grow(
                                            results_at_head,
                                            results@,
                                            child_word(ns, kk),
                                        );
                                    } else {
                                        // this very child: the qualifying
                                        // distances force the recording branch
                                        assert(j as int == ns[0].children@[kk].1);
                                        assert(cd as nat == edit_distance(
                                            ns[j as int].word@,
                                            word@,
                                        ));
                                        assert(1 <= cd && cd <= e && cd as int <= d_root as int);
                                        assert(total_at_head <= kk);
                                        assert(in_buckets(results@, ns[j as int].word@));
                                    }
                                }
                            }
                        }
                    }
                }
                proof {
                    if cap_ok && !done && !round_one_done {
                        assert(k == n);
                        assert(n as int == ns[0].children@.len() as int);
                        assert(root_covered(
                            ns,
                            word@,
                            limit as int,
                            e_val * 4096,
                            results@,
                            ns[0].children@.len() as int,
                        ));
                    }
                    // the scanned node joins the scanned sets; every tag
                    // handed out during its scan now names a scanned parent
                    let ex_old = expanded;
                    let exr_old = ex_round;
                    expanded = expanded.insert(t_idx as int);
                    ex_round = ex_round.insert(t_idx as int);
                    if !done {
                        assert forall|b: int, t: int|
                            0 <= b < srcs.len() && 0 <= t < srcs[b].len() implies cand_src(
                            ns,
                            expanded,
                            #[trigger] srcs[b][t],
                        ) by {
                            if cand_src(ns, ex_old, srcs[b][t]) {
                                lemma_cand_src_mono(ns, ex_old, expanded, srcs[b][t]);
                            } else {
                                let kc2 = choose|kc2: int|
                                    0 <= kc2 < k as int && kc2 < ns[t_idx as int].children@.len()
                                        && (#[trigger] ns[t_idx as int].children@[kc2]).1 as int
                                        == srcs[b][t];
                                assert(expanded.contains(t_idx as int));
                            }
                        }
                        assert forall|t: int|
                            0 <= t < candidates@.len() implies cand_src(
                            ns,
                            ex_round,
                            (#[trigger] candidates@[t]).0 as int,
                        ) by {
                            if cand_src(ns, exr_old, candidates@[t].0 as int) {
                                lemma_cand_src_mono(ns, exr_old, ex_round, candidates@[t].0 as int);
                            } else {
                                let kc2 = choose|kc2: int|
                                    0 <= kc2 < k as int && kc2 < ns[t_idx as int].children@.len()
                                        && (#[trigger] ns[t_idx as int].children@[kc2]).1 as int
                                        == candidates@[t].0 as int;
                                assert(ex_round.contains(t_idx as int));
                            }
                        }
                        assert forall|t: int|
                            0 <= t < candidates@.len() implies !expanded.contains(
                            (#[trigger] candidates@[t]).0 as int,
                        ) by {
                            let c = candidates@[t].0 as int;
                            if c == t_idx as int {
                                if cand_src(ns, exr_old, c) {
                                    let (i2, kc2) = choose|i2: int, kc2: int|
                                        0 <= i2 < ns.len() && 0 <= kc2 < ns[i2].children@.len()
                                            && (#[trigger] ns[i2].children@[kc2]).1 as int == c
                                            && exr_old.contains(i2);
                                    if round_one_done {
                                        let (p, kp) = choose|p: int, kp: int|
                                            0 <= p < ns.len() && 0 <= kp < ns[p].children@.len()
                                                && (#[trigger] ns[p].children@[kp]).1 as int
                                                == t_idx as int && ex_old.contains(p)
                                                && !exr_old.contains(p);
                                        lemma_edge_unique(ns, i2, kc2, p, kp);
                                        assert(false);
                                    } else {
                                        assert(t_idx == 0);
                                        assert(bk_entry_ok(ns, i2, kc2));
                                        assert(false);
                                    }
                                } else {
                                    let kc2 = choose|kc2: int|
                                        0 <= kc2 < k as int && kc2
                                            < ns[t_idx as int].children@.len() && (
                                        #[trigger] ns[t_idx as int].children@[kc2]).1 as int == c;
                                    assert(bk_entry_ok(ns, t_idx as int, kc2));
                                    assert(false);
                                }
                            }
                        }
                        assert forall|t: int|
                            ci as int + 1 <= t < frontier@.len() implies !expanded.contains(
                            (#[trigger] frontier@[t]).0 as int,
                        ) by {
                            assert(frontier@[ci as int].0 == t_idx);
                        }
                        if round_one_done {
                            assert forall|t: int|
                                ci as int + 1 <= t < frontier@.len() implies cand_src_excl(
                                ns,
                                expanded,
                                ex_round,
                                (#[trigger] frontier@[t]).0 as int,
                            ) by {
                                let (p, kp) = choose|p: int, kp: int|
                                    0 <= p < ns.len() && 0 <= kp < ns[p].children@.len() && (
                                    #[trigger] ns[p].children@[kp]).1 as int == frontier@[t].0
                                        as int && ex_old.contains(p) && !exr_old.contains(p);
                                assert(p != t_idx as int);
                                assert(expanded.contains(p) && !ex_round.contains(p));
                            }
                        }
                        assert forall|x: int| #[trigger] expanded.contains(x) implies 0 <= x
                            < ns.len() && (x != 0 ==> cand_src(ns, expanded, x)) by {
                            if x == t_idx as int {
                                if x != 0 {
                                    let (p, kp) = choose|p: int, kp: int|
                                        0 <= p < ns.len() && 0 <= kp < ns[p].children@.len() && (
                                        #[trigger] ns[p].children@[kp]).1 as int == t_idx as int
                                            && ex_old.contains(p) && !exr_old.contains(p);
                                    assert(expanded.contains(p));
                                }
                            } else {
                                assert(ex_old.contains(x));
                                if x != 0 {
                                    lemma_cand_src_mono(ns, ex_old, expanded, x);
                                }
                            }
                        }
                    }
                }
                ci = ci + 1;
            }
            proof {
                if !done {
                    if candidates@.len() == 0 {
                        assert(min_node(candidates@, ns.len() as int) == ns.len() as int);
                    } else {
                        lemma_min_node_lb(candidates@, ns.len() as int, round_min + 1);
                    }
                }
                if !round_one_done && !done {
                    assert(ci as int == frontier@.len());
                    assert(ci == 1);
                }
                round_one_done = true;
            }
        }
        proof {
            if !round_one_done {
                assert(candidates@.len() > 0 && !done);
                assert(false);
            }
        }

        // concatenate the buckets, closest distances first
        let mut out: Vec<String> = Vec::new();
        let ghost mut flat: Seq<int> = Seq::empty();
        let mut bi: usize = 0;
        while bi < results.len()
            invariant
                results@.len() == e as int,
                e == error_budget(word@),
                bi <= e,
                total as int == sum_lens(results@),
                total <= limit,
                ns == self.nodes@,
                forall|bb: int|
                    0 <= bb < e as int ==> bucket_ok(ns, word@, bb, (#[trigger] results@[bb])@),
                out@.len() == sum_lens(results@.subrange(0, bi as int)),
                forall|t: int|
                    0 <= t < out@.len() ==> words_of(ns).contains((#[trigger] out@[t])@) && 1
                        <= edit_distance(out@[t]@, word@) && edit_distance(out@[t]@, word@)
                        <= bi as int && edit_distance(out@[t]@, word@) <= e as int,
                forall|t1: int, t2: int|
                    0 <= t1 <= t2 < out@.len() ==> edit_distance((#[trigger] out@[t1])@, word@)
                        <= edit_distance((#[trigger] out@[t2])@, word@),
                forall|b: int, t: int|
                    0 <= b < bi as int && 0 <= t < results@[b]@.len() ==> in_list(
                        out@,
                        (#[trigger] results@[b]@[t])@,
                    ),
                srcs_ok(ns, results@, srcs),
                srcs_distinct(srcs),
                flat.len() == out@.len(),
                forall|s: int|
                    0 <= s < flat.len() ==> 0 <= #[trigger] flat[s] < ns.len()
                        && ns[flat[s]].word@ == out@[s]@,
                forall|s: int|
                    0 <= s < flat.len() ==> flat_from(srcs, bi as int, 0, #[trigger] flat[s]),
                forall|s1: int, s2: int|
                    0 <= s1 < s2 < flat.len() ==> #[trigger] flat[s1] != #[trigger] flat[s2],
            decreases e - bi,
        {
            let m = results[bi].len();
            let mut t: usize = 0;
            while t < m
                invariant
                    results@.len() == e as int,
                    bi < e,
                    m == results@[bi as int]@.len(),
                    t <= m,
                    ns == self.nodes@,
                    forall|bb: int|
                        0 <= bb < e as int ==> bucket_ok(ns, word@, bb, (#[trigger] results@[bb])@),
                    out@.len() == sum_lens(results@.subrange(0, bi as int)) + t as int,
                    forall|tt: int|
                        0 <= tt < out@.len() ==> words_of(ns).contains((#[trigger] out@[tt])@) && 1
                            <= edit_distance(out@[tt]@, word@) && edit_distance(out@[tt]@, word@)
                            <= bi + 1 && edit_distance(out@[tt]@, word@) <= e as int,
                    forall|t1: int, t2: int|
                        0 <= t1 <= t2 < out@.len() ==> edit_distance((#[trigger] out@[t1])@, word@)
                            <= edit_distance((#[trigger] out@[t2])@, word@),
                    forall|b: int, t2: int|
                        0 <= b < bi as int && 0 <= t2 < results@[b]@.len() ==> in_list(
                            out@,
                            (#[trigger] results@[b]@[t2])@,
                        ),
                    forall|tt: int|
                        0 <= tt < t as int ==> in_list(
                            out@,
                            (#[trigger] results@[bi as int]@[tt])@,
                        ),
                    srcs_ok(ns, results@, srcs),
                    srcs_distinct(srcs),
                    flat.len() == out@.len(),
                    forall|s: int|
                        0 <= s < flat.len() ==> 0 <= #[trigger] flat[s] < ns.len()
                            && ns[flat[s]].word@ == out@[s]@,
                    forall|s: int|
                        0 <= s < flat.len() ==> flat_from(
                            srcs,
                            bi as int,
                            t as int,
                            #[trigger] flat[s],
                        ),
                    forall|s1: int, s2: int|
                        0 <= s1 < s2 < flat.len() ==> #[trigger] flat[s1] != #[trigger] flat[s2],
                decreases m - t,
            {
                let item = results[bi][t].clone();
                let ghost out_pre = out@;
                let ghost flat_pre = flat;
                proof {
                    assert(bucket_ok(ns, word@, bi as int, results@[bi as int]@));
                    assert(results@[bi as int]@[t as int]@ == item@);
                    assert(edit_distance(item@, word@) == bi + 1);
                }
                out.push(item);
                proof {
                    assert(out@.last() == item);
                    flat = flat.push(srcs[bi as int][t as int]);
                    assert(ns[srcs[bi as int][t as int]].word@ == results@[bi as int]@[t as int]@);
                    assert forall|s1: int, s2: int|
                        0 <= s1 < s2 < flat.len() implies #[trigger] flat[s1]
                        != #[trigger] flat[s2] by {
                        if s2 == flat.len() - 1 {
                            assert(flat_from(srcs, bi as int, t as int, flat_pre[s1]));
                            let (b, t2) = choose|b: int, t2: int|
                                0 <= b < srcs.len() && 0 <= t2 < srcs[b].len() && (b < bi as int
                                    || (b == bi as int && t2 < t as int)) && flat_pre[s1]
                                    == #[trigger] srcs[b][t2];
                            assert(srcs[b][t2] != srcs[bi as int][t as int]);
                        }
                    }
                    assert forall|s: int|
                        0 <= s < flat.len() implies flat_from(
                        srcs,
                        bi as int,
                        t as int + 1,
                        #[trigger] flat[s],
                    ) by {
                        if s == flat.len() - 1 {
                            assert(flat[s] == srcs[bi as int][t as int]);
                        } else {
                            lemma_flat_from_weaken(
                                srcs,
                                bi as int,
                                t as int,
                                bi as int,
                                t as int + 1,
                                flat[s],
                            );
                        }
                    }
                    assert forall|b: int, t2: int|
                        0 <= b < bi as int && 0 <= t2 < results@[b]@.len() implies in_list(
                        out@,
                        (#[trigger] results@[b]@[t2])@,
                    ) by {
                        let s = choose|s: int|
                            0 <= s < out_pre.len() && (#[trigger] out_pre[s])@ == results@[b]@[t2]@;
                        assert(out@[s]@ == results@[b]@[t2]@);
                    }
                    assert forall|tt: int|
                        0 <= tt < t as int + 1 implies in_list(
                        out@,
                        (#[trigger] results@[bi as int]@[tt])@,
                    ) by {
                        if tt < t as int {
                            let s = choose|s: int|
                                0 <= s < out_pre.len() && (#[trigger] out_pre[s])@
                                    == results@[bi as int]@[tt]@;
                            assert(out@[s]@ == results@[bi as int]@[tt]@);
                        } else {
                            assert(out@[out@.len() - 1]@ == results@[bi as int]@[tt]@);
                        }
                    }
                }
                t = t + 1;
            }
            proof {
                lemma_sum_lens_take_step(results@, bi as int);
                assert forall|b: int, t2: int|
                    0 <= b < bi as int + 1 && 0 <= t2 < results@[b]@.len() implies in_list(
                    out@,
                    (#[trigger] results@[b]@[t2])@,
                ) by {}
                assert forall|s: int|
                    0 <= s < flat.len() implies flat_from(
                    srcs,
                    bi as int + 1,
                    0,
                    #[trigger] flat[s],
                ) by {
                    lemma_flat_from_weaken(srcs, bi as int, m as int, bi as int + 1, 0, flat[s]);
                }
            }
            bi = bi + 1;
        }
        proof {
            assert(results@.subrange(0, e as int) =~= results@);
            assert(out@.len() <= limit);
            assert(out@.len() == total);
            if limit >= 1 && self.has_close_root_child(word@) {
                assert(root_hit_upto(ns, word@, ns[0].children@.len() as int));
                assert(total >= 1);
            }
            assert forall|t: int| 0 <= t < out@.len() implies (#[trigger] out@[t])@ != word@ by {
                if out@[t]@ == word@ {
                    lemma_edit_distance_self(word@);
                }
            }
            assert forall|kq: int|
                #[trigger] self.qualifying_child(word@, kq) && kq + 1 <= limit as int && kq + 2
                    <= error_budget(word@) * 4096 && error_budget(word@) * 16384 <= usize::MAX
                    as nat implies exists|t: int|
                0 <= t < out@.len() && (#[trigger] out@[t])@ == self.root_child_word(kq) by {
                assert(cap_ok);
                assert(qualifying_root_child(ns, word@, kq));
                assert(root_covered(
                    ns,
                    word@,
                    limit as int,
                    e_val * 4096,
                    results@,
                    ns[0].children@.len() as int,
                ));
                assert(in_buckets(results@, child_word(ns, kq)));
                let (b, t) = choose|b: int, t: int|
                    0 <= b < results@.len() && 0 <= t < results@[b]@.len() && (
                    #[trigger] results@[b]@[t])@ == child_word(ns, kq);
                assert(in_list(out@, child_word(ns, kq)));
                let s = choose|s: int|
                    0 <= s < out@.len() && (#[trigger] out@[s])@ == child_word(ns, kq);
                assert(out@[s]@ == self.root_child_word(kq));
            }
            if forall|i: int, j2: int|
                0 <= i < j2 < self.words().len() ==> (#[trigger] self.words()[i]) != (
                #[trigger] self.words()[j2]) {
                assert forall|t1: int, t2: int|
                    0 <= t1 < t2 < out@.len() implies (#[trigger] out@[t1])@ != (
                #[trigger] out@[t2])@ by {
                    let f1 = flat[t1];
                    let f2 = flat[t2];
                    assert(f1 != f2);
                    assert(self.words() == words_of(ns));
                    assert(words_of(ns)[f1] == ns[f1].word@);
                    assert(words_of(ns)[f2] == ns[f2].word@);
                    if out@[t1]@ == out@[t2]@ {
                        if f1 < f2 {
                            assert(self.words()[f1] != self.words()[f2]);
                        } else {
                            assert(self.words()[f2] != self.words()[f1]);
                        }
                        assert(false);
                    }
                }
            }
        }
        out
    }
}

} // verus!
